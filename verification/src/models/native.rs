//! How a model is loaded, and how its prompt is fed to it.

use crate::chars::{begins, is_ws, starts_with, to_chars};
use crate::config::ResolvedBackend;
use crate::vecs::clone_opt;
use vstd::prelude::*;

verus! {

/// What a model is loaded with.
#[derive(Clone, Debug)]
pub struct NativeModelConfig {
    pub name: String,
    pub model_path: String,
    pub template_hint: Option<String>,
    pub ctx_size: u32,
    pub threads: i32,
    pub gpu_layers: i32,
    pub batch_size: Option<u32>,
    pub ubatch_size: Option<u32>,
    pub offload_kqv: Option<bool>,
    pub seed: u32,
}

/// The seed of every model.
pub const SEED: u32 = 42;

impl NativeModelConfig {
    /// What a model is loaded with in a run.
    pub fn of_backend(b: &ResolvedBackend, threads: i32, gpu_layers: i32) -> (r: NativeModelConfig)
        ensures
            r.name@ == b.name@,
            r.model_path@ == b.model_path@,
            r.template_hint.deep_view() == b.template_hint.deep_view(),
            r.ctx_size == b.ctx_size,
            r.threads == (match b.threads {
                Some(n) => n,
                None => threads,
            }),
            r.gpu_layers == (match b.gpu_layers {
                Some(n) => n,
                None => gpu_layers,
            }),
            r.batch_size == b.batch_size,
            r.ubatch_size == b.ubatch_size,
            r.offload_kqv == b.offload_kqv,
            r.seed == SEED,
    {
        NativeModelConfig {
            name: b.name.clone(),
            model_path: b.model_path.clone(),
            template_hint: clone_opt(&b.template_hint),
            ctx_size: b.ctx_size,
            threads: match b.threads {
                Some(n) => n,
                None => threads,
            },
            gpu_layers: match b.gpu_layers {
                Some(n) => n,
                None => gpu_layers,
            },
            batch_size: b.batch_size,
            ubatch_size: b.ubatch_size,
            offload_kqv: b.offload_kqv,
            seed: SEED,
        }
    }

    /// How many layers are put on the graphics card, where that is set: all of them for -1.
    pub fn offloaded_layers(&self) -> (r: Option<u32>)
        ensures
            r == (if self.gpu_layers == -1 {
                Some(9999u32)
            } else if self.gpu_layers >= 0 {
                Some(self.gpu_layers as u32)
            } else {
                None
            }),
    {
        if self.gpu_layers == -1 {
            Some(9999)
        } else if self.gpu_layers >= 0 {
            Some(self.gpu_layers as u32)
        } else {
            None
        }
    }

    /// The sizes of a batch, and of the parts in which it is computed.
    pub fn batch_sizes(&self) -> (r: (u32, u32))
        ensures
            r.0 == within(size_or(self.batch_size, 512), 8, 65536),
            r.1 == least(within(size_or(self.ubatch_size, r.0), 1, 65536), r.0),
    {
        let n: u32 = clamped(
            match self.batch_size {
                Some(n) => n,
                None => 512,
            },
            8,
            65536,
        );
        let u: u32 = clamped(
            match self.ubatch_size {
                Some(u) => u,
                None => n,
            },
            1,
            65536,
        );
        (
            n,
            if u > n {
                n
            } else {
                u
            },
        )
    }
}

/// A number that is set, or another one.
pub open spec fn size_or(n: Option<u32>, other: u32) -> u32 {
    match n {
        Some(n) => n,
        None => other,
    }
}

/// The number between two bounds that is next to `n`.
pub open spec fn within(n: u32, low: u32, high: u32) -> u32 {
    if n < low {
        low
    } else if n > high {
        high
    } else {
        n
    }
}

/// The lesser of two numbers.
pub open spec fn least(a: u32, b: u32) -> u32 {
    if a > b {
        b
    } else {
        a
    }
}

fn clamped(n: u32, low: u32, high: u32) -> (r: u32)
    ensures
        r == within(n, low, high),
{
    if n < low {
        low
    } else if n > high {
        high
    } else {
        n
    }
}

/// The size of the context of a model: as asked for, within what the model was trained on, and
/// never under 256. Nothing asked for is what it was trained on, or 4096.
pub open spec fn context_size_of(asked: u32, trained: u32) -> u32 {
    let n = if asked != 0 {
        asked
    } else if trained > 4096 {
        trained
    } else {
        4096
    };
    let n = if trained > 0 && n > trained {
        trained
    } else {
        n
    };
    if n < 256 {
        256
    } else {
        n
    }
}

/// The size of the context of a model that was trained on `trained`.
pub fn context_size(asked: u32, trained: u32) -> (r: u32)
    ensures
        r == context_size_of(asked, trained),
{
    let n: u32 = if asked != 0 {
        asked
    } else if trained > 4096 {
        trained
    } else {
        4096
    };
    let n: u32 = if trained > 0 && n > trained {
        trained
    } else {
        n
    };
    if n < 256 {
        256
    } else {
        n
    }
}

/// Why nothing can be generated from a prompt.
#[derive(Clone, Copy, Debug, PartialEq, Eq, Structural)]
pub enum PromptError {
    Empty,
    TooLong { tokens: usize, context: usize },
    NoBatch,
}

/// How many tokens may be generated after a prompt.
pub open spec fn room_of(tokens: usize, context: usize, batch: usize, max_tokens: usize) -> Result<
    usize,
    PromptError,
> {
    if tokens == 0 {
        Err(PromptError::Empty)
    } else if tokens + 1 >= context {
        Err(PromptError::TooLong { tokens, context })
    } else if batch == 0 {
        Err(PromptError::NoBatch)
    } else if max_tokens <= context - tokens - 1 {
        Ok(max_tokens)
    } else {
        Ok((context - tokens - 1) as usize)
    }
}

/// How many tokens may be generated after a prompt of some tokens.
pub fn generation_room(tokens: usize, context: usize, batch: usize, max_tokens: usize) -> (r: Result<
    usize,
    PromptError,
>)
    ensures
        r == room_of(tokens, context, batch, max_tokens),
{
    if tokens == 0 {
        return Err(PromptError::Empty);
    }
    if context == 0 || tokens >= context - 1 {
        return Err(PromptError::TooLong { tokens, context });
    }
    if batch == 0 {
        return Err(PromptError::NoBatch);
    }
    let room: usize = context - tokens - 1;
    Ok(
        if max_tokens <= room {
            max_tokens
        } else {
            room
        },
    )
}

/// The batches in which a prompt is fed from `start` on, each from where to where.
pub open spec fn batches_from(start: int, tokens: nat, batch: nat) -> Seq<(int, int)>
    decreases tokens - start,
{
    if start >= tokens || batch == 0 {
        Seq::empty()
    } else {
        let end = if start + batch <= tokens {
            start + batch
        } else {
            tokens as int
        };
        seq![(start, end)] + batches_from(end, tokens, batch)
    }
}

/// The ends of the batches as integers.
pub open spec fn ends_of(v: Seq<(usize, usize)>) -> Seq<(int, int)> {
    v.map_values(|p: (usize, usize)| (p.0 as int, p.1 as int))
}

/// The batches in which a prompt is fed.
pub fn prompt_batches(tokens: usize, batch: usize) -> (r: Vec<(usize, usize)>)
    requires
        batch > 0,
    ensures
        ends_of(r@) == batches_from(0, tokens as nat, batch as nat),
{
    let mut out: Vec<(usize, usize)> = Vec::new();
    let mut start: usize = 0;
    assert(ends_of(out@) + batches_from(0, tokens as nat, batch as nat) =~= batches_from(
        0,
        tokens as nat,
        batch as nat,
    ));
    while start < tokens
        invariant
            batch > 0,
            start <= tokens,
            ends_of(out@) + batches_from(start as int, tokens as nat, batch as nat)
                == batches_from(0, tokens as nat, batch as nat),
        decreases tokens - start,
    {
        let end: usize = if batch <= tokens - start {
            start + batch
        } else {
            tokens
        };
        let ghost before = out@;
        out.push((start, end));
        assert(ends_of(out@) =~= ends_of(before).push((start as int, end as int)));
        assert(ends_of(out@) + batches_from(end as int, tokens as nat, batch as nat) =~= ends_of(
            before,
        ) + batches_from(start as int, tokens as nat, batch as nat));
        start = end;
    }
    assert(ends_of(out@) =~= batches_from(0, tokens as nat, batch as nat));
    out
}

/// The batches of a prompt follow on one another, are never empty or larger than a batch, and
/// reach to its end.
pub proof fn law_batches_cover(start: int, tokens: nat, batch: nat)
    requires
        0 <= start <= tokens,
        batch > 0,
    ensures
        ({
            let b = batches_from(start, tokens, batch);
            &&& b.len() == 0 <==> start == tokens
            &&& b.len() > 0 ==> b[0].0 == start && b.last().1 == tokens
            &&& forall|i: int|
                0 <= i < b.len() ==> (#[trigger] b[i]).0 < b[i].1 <= b[i].0 + batch
            &&& forall|i: int, j: int|
                0 <= i && j == i + 1 && j < b.len() ==> (#[trigger] b[i]).1 == (#[trigger] b[j]).0
        }),
    decreases tokens - start,
{
    if start < tokens {
        let end = if start + batch <= tokens {
            start + batch
        } else {
            tokens as int
        };
        law_batches_cover(end, tokens, batch);
        let b = batches_from(start, tokens, batch);
        let rest = batches_from(end, tokens, batch);
        assert(b == seq![(start, end)] + rest);
        assert forall|i: int| 0 <= i < b.len() implies (#[trigger] b[i]).0 < b[i].1 <= b[i].0
            + batch by {
            if i > 0 {
                assert(b[i] == rest[i - 1]);
            }
        }
        assert forall|i: int, j: int| 0 <= i && j == i + 1 && j < b.len() implies (
        #[trigger] b[i]).1 == (#[trigger] b[j]).0 by {
            assert(b[j] == rest[i]);
            if i > 0 {
                assert(b[i] == rest[i - 1]);
            }
        }
    }
}

/// A text without the white space before it.
pub open spec fn without_lead(s: Seq<char>) -> Seq<char>
    decreases s.len(),
{
    if s.len() > 0 && is_ws(s[0]) {
        without_lead(s.drop_first())
    } else {
        s
    }
}

/// Whether a prompt begins with a mark of its own for where a text begins.
pub open spec fn has_own_start(p: Seq<char>) -> bool {
    let s = without_lead(p);
    begins(s, "<s>"@) || begins(s, "<|begin_of_text|>"@) || begins(s, "<bos>"@) || begins(
        s,
        "<BOS>"@,
    ) || begins(s, "<|startoftext|>"@)
}

/// Whether the mark for where a text begins is put before a prompt.
pub fn decide_add_bos(prompt: &str) -> (r: bool)
    ensures
        r == !has_own_start(prompt@),
{
    let v: Vec<char> = to_chars(prompt);
    let mut i: usize = 0;
    assert(v@.skip(0) =~= v@);
    while i < v.len() && crate::chars::is_whitespace(v[i])
        invariant
            i <= v@.len(),
            v@ == prompt@,
            without_lead(v@.skip(i as int)) == without_lead(prompt@),
        decreases v@.len() - i,
    {
        assert(v@.skip(i as int).drop_first() =~= v@.skip(i + 1));
        i = i + 1;
    }
    let n: usize = v.len();
    let s: String = crate::chars::text_of(&v, i, n);
    assert(s@ =~= v@.skip(i as int));
    let t: &str = s.as_str();
    !(starts_with(t, "<s>") || starts_with(t, "<|begin_of_text|>") || starts_with(t, "<bos>")
        || starts_with(t, "<BOS>") || starts_with(t, "<|startoftext|>"))
}

/// How many levels up from a directory a file is found, given whether each level has it, the
/// directory itself first. At most `max_levels` levels up are looked at.
pub fn find_file_upwards(has_it: &Vec<bool>, max_levels: usize) -> (r: Option<usize>)
    ensures
        match r {
            Some(k) => k <= max_levels && k < has_it@.len() && has_it@[k as int] && forall|j: int|
                0 <= j < k ==> !(#[trigger] has_it@[j]),
            None => forall|j: int|
                0 <= j < has_it@.len() && j <= max_levels ==> !(#[trigger] has_it@[j]),
        },
{
    let mut k: usize = 0;
    while k < has_it.len()
        invariant
            k <= has_it@.len(),
            forall|j: int| 0 <= j < k ==> !(#[trigger] has_it@[j]),
        decreases has_it@.len() - k,
    {
        if k > max_levels {
            return None;
        }
        if has_it[k] {
            return Some(k);
        }
        k = k + 1;
    }
    None
}

/// The context is as large as is asked, but no larger than the model was trained for, and at least 256.
/// Where nothing is asked, it is what the model was trained for, and at least 4096 where that is not
/// told.
pub proof fn law_context_size(asked: u32, trained: u32)
    ensures
        asked >= 256 && (trained == 0 || asked <= trained) ==> context_size_of(asked, trained)
            == asked,
        asked > trained >= 256 ==> context_size_of(asked, trained) == trained,
        asked == 0 && trained >= 256 ==> context_size_of(asked, trained) == trained,
        asked == 0 && trained == 0 ==> context_size_of(asked, trained) == 4096,
        context_size_of(asked, trained) >= 256,
{
}

/// A prompt that leaves room in the context gets as many tokens for the reply as are asked, or as there
/// is room for. One that does not is refused, and so is an empty one.
pub proof fn law_room_for_the_reply(tokens: usize, context: usize, batch: usize, max_tokens: usize)
    ensures
        0 < tokens && tokens + 1 < context && batch > 0 ==> (room_of(
            tokens,
            context,
            batch,
            max_tokens,
        ) matches Ok(n) && n <= max_tokens && tokens + n < context && (n == max_tokens || tokens + n
            + 1 == context)),
        tokens == 0 || tokens + 1 >= context || batch == 0 ==> room_of(
            tokens,
            context,
            batch,
            max_tokens,
        ) is Err,
{
}

} // verus!
