//! The package of a Word document: a zip archive of named entries.

use crate::chars::{
    byte_len, byte_length, clone_text, ends, ends_with, lemma_byte_len, lowercase, lowercase_text,
};
use crate::docx::error::{DocxError, DocxErrorV};
use crate::docx::xml::result_view;
use crate::vecs::push_deep;
use std::io::{Cursor, Read, Write};
use vstd::prelude::*;
use vstd::utf8::*;
use zip::write::SimpleFileOptions;
use zip::{CompressionMethod, DateTime, ZipArchive, ZipWriter};

verus! {

/// The entries of a package in their order.
pub struct DocxPackage {
    pub entries: Vec<DocxEntry>,
}

/// One entry of a package. The compression is the method's number in the zip format; the time is
/// the date and the time of day in the format of MS-DOS.
pub struct DocxEntry {
    pub name: String,
    pub data: Vec<u8>,
    pub compression: u16,
    pub last_modified: (u16, u16),
    pub unix_mode: Option<u32>,
    pub is_dir: bool,
}

/// The model of a [`DocxEntry`].
#[verifier::ext_equal]
pub struct EntryV {
    pub name: Seq<char>,
    pub data: Seq<u8>,
    pub compression: u16,
    pub last_modified: (u16, u16),
    pub unix_mode: Option<u32>,
    pub is_dir: bool,
}

impl DeepView for DocxEntry {
    type V = EntryV;

    open spec fn deep_view(&self) -> EntryV {
        EntryV {
            name: self.name@,
            data: self.data@,
            compression: self.compression,
            last_modified: self.last_modified,
            unix_mode: self.unix_mode,
            is_dir: self.is_dir,
        }
    }
}

impl DeepView for DocxPackage {
    type V = Seq<EntryV>;

    open spec fn deep_view(&self) -> Seq<EntryV> {
        self.entries.deep_view()
    }
}

#[verifier::external_type_specification]
#[verifier::external_body]
#[verifier::reject_recursive_types(T)]
pub struct ExCursor<T>(Cursor<T>);

#[verifier::external_type_specification]
#[verifier::external_body]
#[verifier::reject_recursive_types(R)]
pub struct ExZipArchive<R>(ZipArchive<R>);

/// What the entries of an archive are read as, or why it is no archive.
pub uninterp spec fn zip_contents(bytes: Seq<u8>) -> Result<
    Seq<Result<EntryV, Seq<char>>>,
    Seq<char>,
>;

/// What the entries of an opened archive are read as.
pub uninterp spec fn archive_entries(a: ZipArchive<Cursor<&[u8]>>) -> Seq<
    Result<EntryV, Seq<char>>,
>;

/// What `open_zip` returns.
pub open spec fn zip_opened(
    contents: Result<Seq<Result<EntryV, Seq<char>>>, Seq<char>>,
    r: Result<ZipArchive<Cursor<&[u8]>>, String>,
) -> bool {
    match r {
        Ok(a) => contents == Ok::<_, Seq<char>>(archive_entries(a)),
        Err(e) => contents == Err::<Seq<Result<EntryV, Seq<char>>>, _>(e@),
    }
}

/// `zip::ZipArchive::new` on a byte string.
#[verifier::external_body]
fn open_zip<'a>(bytes: &'a [u8]) -> (r: Result<ZipArchive<Cursor<&'a [u8]>>, String>)
    ensures
        zip_opened(zip_contents(bytes@), r),
{
    ZipArchive::new(Cursor::new(bytes)).map_err(|e| e.to_string())
}

/// `zip::ZipArchive::len`: the number of entries.
#[verifier::external_body]
fn zip_len(a: &ZipArchive<Cursor<&[u8]>>) -> (n: usize)
    ensures
        n == archive_entries(*a).len(),
{
    a.len()
}

/// Whether a name is that of a directory.
pub open spec fn directory_name(name: Seq<char>) -> bool {
    ends(name, "/"@) || ends(name, "\\"@)
}

/// How many days a month has.
pub open spec fn days_of(year: int, month: int) -> int {
    if month == 4 || month == 6 || month == 9 || month == 11 {
        30
    } else if month == 2 {
        if year % 4 == 0 && (year % 100 != 0 || year % 400 == 0) {
            29
        } else {
            28
        }
    } else {
        31
    }
}

/// Whether a date and a time are ones that an archive keeps as they are: the date is one of the
/// calendar, counted from 1980 on, and the time one of a day, in steps of two seconds.
pub open spec fn time_kept(t: (u16, u16)) -> bool {
    let year = 1980 + t.0 as int / 512;
    let month = t.0 as int / 32 % 16;
    let day = t.0 as int % 32;
    &&& 1 <= month <= 12
    &&& 1 <= day <= days_of(year, month)
    &&& t.1 as int / 2048 <= 23
    &&& t.1 as int / 32 % 64 <= 59
    &&& t.1 as int % 32 <= 29
}

/// What holds of an entry that is read from an archive: its time is one that an archive keeps, and
/// it is a directory if its name is that of one.
pub open spec fn entry_read(e: EntryV) -> bool {
    time_kept(e.last_modified) && e.is_dir == directory_name(e.name)
}

/// Whether entries may be read from an archive.
pub open spec fn entries_read(entries: Seq<EntryV>) -> bool {
    forall|i: int| 0 <= i < entries.len() ==> entry_read(#[trigger] entries[i])
}

/// `zip::ZipArchive::by_index`, with the unpacked data of the entry. Reading an entry leaves the
/// archive's contents as they are. A time that is no date is read as the format's first one.
#[verifier::external_body]
#[allow(deprecated)]
fn read_zip_entry(a: &mut ZipArchive<Cursor<&[u8]>>, i: usize) -> (r: Result<DocxEntry, String>)
    requires
        i < archive_entries(*old(a)).len(),
    ensures
        archive_entries(*final(a)) == archive_entries(*old(a)),
        result_view(r) == archive_entries(*old(a))[i as int],
        r matches Ok(e) ==> entry_read(e.deep_view()),
{
    let mut f = a.by_index(i).map_err(|e| e.to_string())?;
    let mut data = Vec::new();
    f.read_to_end(&mut data).map_err(|e| e.to_string())?;
    let compression = match f.compression() {
        CompressionMethod::Stored => 0,
        CompressionMethod::Deflated => 8,
        CompressionMethod::Unsupported(code) => code,
        _ => 0,
    };
    let (name, unix_mode, is_dir) = (f.name().to_string(), f.unix_mode(), f.is_dir());
    let last_modified = f.last_modified().unwrap_or_default().into();
    Ok(DocxEntry { name, data, compression, last_modified, unix_mode, is_dir })
}

/// The entries that were read, or the first fault among them.
pub open spec fn all_entries(items: Seq<Result<EntryV, Seq<char>>>) -> Result<Seq<EntryV>, DocxErrorV>
    decreases items.len(),
{
    if items.len() == 0 {
        Ok(Seq::empty())
    } else {
        match all_entries(items.drop_last()) {
            Err(e) => Err(e),
            Ok(before) => match items.last() {
                Err(m) => Err(DocxErrorV::Unpack(m)),
                Ok(e) => Ok(before.push(e)),
            },
        }
    }
}

/// The package that a byte string is read as.
pub open spec fn package_of(bytes: Seq<u8>) -> Result<Seq<EntryV>, DocxErrorV> {
    match zip_contents(bytes) {
        Err(m) => Err(DocxErrorV::Unpack(m)),
        Ok(items) => all_entries(items),
    }
}

proof fn lemma_all_entries_fault(items: Seq<Result<EntryV, Seq<char>>>, n: int)
    requires
        0 <= n <= items.len(),
        all_entries(items.take(n)) is Err,
    ensures
        all_entries(items) == all_entries(items.take(n)),
    decreases items.len() - n,
{
    if n < items.len() {
        assert(items.take(n + 1).drop_last() =~= items.take(n));
        lemma_all_entries_fault(items, n + 1);
    } else {
        assert(items.take(n) =~= items);
    }
}

/// An archive that is being written: a `zip::ZipWriter` that writes to memory.
#[verifier::external_body]
pub struct ZipSink {
    w: ZipWriter<Cursor<Vec<u8>>>,
}

/// An item of an archive that is being written.
#[verifier::ext_equal]
pub struct ZipItemV {
    pub directory: bool,
    pub name: Seq<char>,
    pub data: Seq<u8>,
    pub compression: u16,
    pub last_modified: (u16, u16),
    pub unix_mode: Option<u32>,
}

/// The items that were handed to an archive writer.
pub uninterp spec fn items_written(w: ZipSink) -> Seq<ZipItemV>;

/// Whether an archive that holds `items` takes one item more, or why not.
pub uninterp spec fn zip_takes(items: Seq<ZipItemV>, item: ZipItemV) -> Result<(), Seq<char>>;

/// The bytes of the archive that holds `items`, or why there are none.
pub uninterp spec fn zip_bytes(items: Seq<ZipItemV>) -> Result<Seq<u8>, Seq<char>>;

/// `zip::ZipWriter::new`: an archive without items.
#[verifier::external_body]
fn new_zip() -> (w: ZipSink)
    ensures
        items_written(w) == Seq::<ZipItemV>::empty(),
{
    ZipSink { w: ZipWriter::new(Cursor::new(Vec::new())) }
}

/// What adding `item` does to an archive writer; `takes` is whether it is taken.
pub open spec fn item_added(
    takes: Result<(), Seq<char>>,
    before: Seq<ZipItemV>,
    after: Seq<ZipItemV>,
    item: ZipItemV,
    r: Result<(), String>,
) -> bool {
    match r {
        Ok(_) => takes is Ok && after == before.push(item),
        Err(e) => takes == Err::<(), Seq<char>>(e@),
    }
}

/// The item of a directory or a file.
pub open spec fn zip_item(directory: bool, e: EntryV, data: Seq<u8>) -> ZipItemV {
    ZipItemV {
        directory,
        name: e.name,
        data,
        compression: e.compression,
        last_modified: e.last_modified,
        unix_mode: e.unix_mode,
    }
}

/// The name under which an archive keeps an item: that of a directory ends in a slash or a
/// backslash.
pub open spec fn stored_name(directory: bool, name: Seq<char>) -> Seq<char> {
    if directory && !directory_name(name) {
        name + "/"@
    } else {
        name
    }
}

/// Whether the name of an item is short enough for an archive.
pub open spec fn name_fits(directory: bool, name: Seq<char>) -> bool {
    byte_len(stored_name(directory, name)) <= 65535
}

/// `zip::ZipWriter::add_directory` with the entry's method, time and permissions. A time that is
/// no date counts as the format's first one.
#[verifier::external_body]
#[allow(deprecated)]
fn add_zip_directory(z: &mut ZipSink, e: &DocxEntry) -> (r: Result<(), String>)
    requires
        name_fits(true, e.name@),
    ensures
        item_added(
            zip_takes(items_written(*old(z)), zip_item(true, e.deep_view(), Seq::empty())),
            items_written(*old(z)),
            items_written(*final(z)),
            zip_item(true, e.deep_view(), Seq::empty()),
            r,
        ),
{
    let method = CompressionMethod::from_u16(e.compression);
    let time = DateTime::try_from(e.last_modified).unwrap_or_default();
    let mut opts = SimpleFileOptions::default().compression_method(method).last_modified_time(time);
    if let Some(mode) = e.unix_mode {
        opts = opts.unix_permissions(mode);
    }
    z.w.add_directory(e.name.as_str(), opts).map_err(|x| x.to_string())
}

/// `zip::ZipWriter::start_file` with the entry's method, time and permissions, and `write_all` of
/// `data`. A time that is no date counts as the format's first one.
#[verifier::external_body]
#[allow(deprecated)]
fn add_zip_file(z: &mut ZipSink, e: &DocxEntry, data: &[u8]) -> (r: Result<
    (),
    String,
>)
    requires
        name_fits(false, e.name@),
    ensures
        item_added(
            zip_takes(items_written(*old(z)), zip_item(false, e.deep_view(), data@)),
            items_written(*old(z)),
            items_written(*final(z)),
            zip_item(false, e.deep_view(), data@),
            r,
        ),
{
    let method = CompressionMethod::from_u16(e.compression);
    let time = DateTime::try_from(e.last_modified).unwrap_or_default();
    let mut opts = SimpleFileOptions::default().compression_method(method).last_modified_time(time);
    if let Some(mode) = e.unix_mode {
        opts = opts.unix_permissions(mode);
    }
    z.w.start_file(e.name.as_str(), opts).map_err(|x| x.to_string())?;
    z.w.write_all(data).map_err(|x| x.to_string())
}

/// Whether an archive is read as the items that were written to it: each under the name that the
/// archive keeps it by, with its data and its method. Directories are stored.
pub open spec fn archive_holds(
    items: Seq<ZipItemV>,
    contents: Result<Seq<Result<EntryV, Seq<char>>>, Seq<char>>,
) -> bool {
    match contents {
        Err(_) => false,
        Ok(list) => list.len() == items.len() && forall|i: int|
            0 <= i < items.len() ==> match #[trigger] list[i] {
                Err(_) => false,
                Ok(e) => {
                    &&& e.name == stored_name(items[i].directory, items[i].name)
                    &&& e.data == items[i].data
                    &&& time_kept(items[i].last_modified) ==> e.last_modified
                        == items[i].last_modified
                    &&& e.is_dir == directory_name(e.name)
                    &&& e.compression == if items[i].directory {
                        0
                    } else {
                        items[i].compression
                    }
                },
            },
    }
}

/// `zip::ZipWriter::finish`: the bytes of the archive. `zip::ZipArchive` reads from them the names,
/// the data, the methods and the times of the items that were written. Of permissions, and of times
/// that are no dates, nothing is said.
#[verifier::external_body]
fn finish_zip(z: ZipSink) -> (r: Result<Vec<u8>, String>)
    ensures
        finished(zip_bytes(items_written(z)), r),
        r matches Ok(b) ==> archive_holds(items_written(z), zip_contents(b@)),
{
    z.w.finish().map(|c| c.into_inner()).map_err(|e| e.to_string())
}

/// What `finish_zip` returns.
pub open spec fn finished(
    bytes: Result<Seq<u8>, Seq<char>>,
    r: Result<Vec<u8>, String>,
) -> bool {
    match r {
        Ok(b) => bytes == Ok::<_, Seq<char>>(b@),
        Err(e) => bytes == Err::<Seq<u8>, _>(e@),
    }
}

/// The data to write under `name`: the replacement, if there is one, or `data`.
pub open spec fn replaced_data(
    replacements: Seq<(Seq<char>, Seq<u8>)>,
    name: Seq<char>,
    data: Seq<u8>,
) -> Seq<u8>
    decreases replacements.len(),
{
    if replacements.len() == 0 {
        data
    } else if replacements[0].0 == name {
        replacements[0].1
    } else {
        replaced_data(replacements.drop_first(), name, data)
    }
}

/// Whether an entry stands for a directory.
pub open spec fn dir_entry(e: EntryV) -> bool {
    e.is_dir || ends(e.name, "/"@)
}

/// The item that an entry is written as.
pub open spec fn item_of(replacements: Seq<(Seq<char>, Seq<u8>)>, e: EntryV) -> ZipItemV {
    if dir_entry(e) {
        zip_item(true, e, Seq::empty())
    } else {
        zip_item(false, e, replaced_data(replacements, e.name, e.data))
    }
}

/// The items of the first entries up to the first that the archive does not take.
pub open spec fn items_of(replacements: Seq<(Seq<char>, Seq<u8>)>, entries: Seq<EntryV>) -> Result<
    Seq<ZipItemV>,
    DocxErrorV,
>
    decreases entries.len(),
{
    if entries.len() == 0 {
        Ok(Seq::empty())
    } else {
        match items_of(replacements, entries.drop_last()) {
            Err(e) => Err(e),
            Ok(items) => {
                let e = entries.last();
                let item = item_of(replacements, e);
                if !name_fits(dir_entry(e), e.name) {
                    Err(DocxErrorV::LongName { entry: e.name })
                } else {
                    match zip_takes(items, item) {
                        Err(m) => Err(DocxErrorV::Pack(m)),
                        Ok(_) => Ok(items.push(item)),
                    }
                }
            },
        }
    }
}

/// The bytes that a package is written as.
pub open spec fn packed(replacements: Seq<(Seq<char>, Seq<u8>)>, entries: Seq<EntryV>) -> Result<
    Seq<u8>,
    DocxErrorV,
> {
    match items_of(replacements, entries) {
        Err(e) => Err(e),
        Ok(items) => match zip_bytes(items) {
            Ok(b) => Ok(b),
            Err(m) => Err(DocxErrorV::Pack(m)),
        },
    }
}

/// Whether a package is read as the entries that were written: each under the name that the archive
/// keeps it by, with its data, or what replaces it, and its method.
pub open spec fn reads_back(
    replacements: Seq<(Seq<char>, Seq<u8>)>,
    entries: Seq<EntryV>,
    package: Result<Seq<EntryV>, DocxErrorV>,
) -> bool {
    match package {
        Err(_) => false,
        Ok(back) => back.len() == entries.len() && forall|i: int|
            0 <= i < entries.len() ==> entry_reads_back(
                replacements,
                entries[i],
                #[trigger] back[i],
            ),
    }
}

/// Whether an entry is read as it was written.
pub open spec fn entry_reads_back(
    replacements: Seq<(Seq<char>, Seq<u8>)>,
    e: EntryV,
    back: EntryV,
) -> bool {
    &&& back.is_dir == directory_name(back.name)
    &&& time_kept(e.last_modified) ==> back.last_modified == e.last_modified
    &&& if dir_entry(e) {
        back.name == stored_name(true, e.name) && back.data.len() == 0 && back.compression == 0
    } else {
        back.name == e.name && back.data == replaced_data(replacements, e.name, e.data)
            && back.compression == e.compression
    }
}

proof fn lemma_items_at(replacements: Seq<(Seq<char>, Seq<u8>)>, entries: Seq<EntryV>)
    requires
        items_of(replacements, entries) is Ok,
    ensures
        ({
            let items = items_of(replacements, entries)->Ok_0;
            items.len() == entries.len() && forall|i: int|
                0 <= i < entries.len() ==> #[trigger] items[i] == item_of(replacements, entries[i])
        }),
    decreases entries.len(),
{
    if entries.len() > 0 {
        lemma_items_at(replacements, entries.drop_last());
        let front = items_of(replacements, entries.drop_last())->Ok_0;
        let items = items_of(replacements, entries)->Ok_0;
        assert forall|i: int| 0 <= i < entries.len() implies #[trigger] items[i] == item_of(
            replacements,
            entries[i],
        ) by {
            if i < entries.len() - 1 {
                assert(items[i] == front[i]);
                assert(entries.drop_last()[i] == entries[i]);
            }
        }
    }
}

proof fn lemma_all_read(list: Seq<Result<EntryV, Seq<char>>>)
    requires
        forall|i: int| 0 <= i < list.len() ==> (#[trigger] list[i]) is Ok,
    ensures
        all_entries(list) is Ok,
        all_entries(list)->Ok_0.len() == list.len(),
        forall|i: int|
            0 <= i < list.len() ==> #[trigger] all_entries(list)->Ok_0[i] == list[i]->Ok_0,
    decreases list.len(),
{
    if list.len() > 0 {
        let front = list.drop_last();
        assert forall|i: int| 0 <= i < front.len() implies (#[trigger] front[i]) is Ok by {
            assert(front[i] == list[i]);
        }
        lemma_all_read(front);
        assert(list.last() == list[list.len() - 1]);
        assert forall|i: int| 0 <= i < list.len() implies #[trigger] all_entries(list)->Ok_0[i]
            == list[i]->Ok_0 by {
            if i < front.len() {
                assert(all_entries(list)->Ok_0[i] == all_entries(front)->Ok_0[i]);
            }
        }
    }
}

proof fn lemma_reads_back(
    replacements: Seq<(Seq<char>, Seq<u8>)>,
    entries: Seq<EntryV>,
    bytes: Seq<u8>,
)
    requires
        items_of(replacements, entries) is Ok,
        archive_holds(items_of(replacements, entries)->Ok_0, zip_contents(bytes)),
    ensures
        reads_back(replacements, entries, package_of(bytes)),
{
    let items = items_of(replacements, entries)->Ok_0;
    let list = zip_contents(bytes)->Ok_0;
    lemma_items_at(replacements, entries);
    assert forall|i: int| 0 <= i < list.len() implies (#[trigger] list[i]) is Ok by {
        assert(items[i] == item_of(replacements, entries[i]));
    }
    lemma_all_read(list);
    let back = all_entries(list)->Ok_0;
    assert forall|i: int| 0 <= i < entries.len() implies entry_reads_back(
        replacements,
        entries[i],
        #[trigger] back[i],
    ) by {
        assert(items[i] == item_of(replacements, entries[i]));
        assert(list[i] is Ok);
        assert(back[i] == list[i]->Ok_0);
    }
}

/// The deep view of a result that holds bytes.
pub open spec fn bytes_result(r: Result<Vec<u8>, DocxError>) -> Result<Seq<u8>, DocxErrorV> {
    match r {
        Ok(b) => Ok(b@),
        Err(e) => Err(e.deep_view()),
    }
}

/// The names and data of a list of replacements.
pub open spec fn replacements_view(r: Vec<(String, Vec<u8>)>) -> Seq<(Seq<char>, Seq<u8>)> {
    r@.map_values(|kv: (String, Vec<u8>)| (kv.0@, kv.1@))
}

proof fn lemma_items_fault(
    replacements: Seq<(Seq<char>, Seq<u8>)>,
    entries: Seq<EntryV>,
    n: int,
)
    requires
        0 <= n <= entries.len(),
        items_of(replacements, entries.take(n)) is Err,
    ensures
        items_of(replacements, entries) == items_of(replacements, entries.take(n)),
    decreases entries.len() - n,
{
    if n < entries.len() {
        assert(entries.take(n + 1).drop_last() =~= entries.take(n));
        lemma_items_fault(replacements, entries, n + 1);
    } else {
        assert(entries.take(n) =~= entries);
    }
}

/// Whether a name, in lower case, ends in `.xml`.
pub open spec fn xml_name(name: Seq<char>) -> bool {
    ends(lowercase(name), ".xml"@)
}

/// Whether a name, in lower case, ends in `.xml`.
pub fn is_xml_name(name: &str) -> (r: bool)
    ensures
        r == xml_name(name@),
{
    let low: String = lowercase_text(name);
    ends_with(low.as_str(), ".xml")
}

/// Whether an entry stands for a directory.
pub fn is_dir_entry(e: &DocxEntry) -> (r: bool)
    ensures
        r == dir_entry(e.deep_view()),
{
    e.is_dir || ends_with(e.name.as_str(), "/")
}

fn fits_archive(e: &DocxEntry) -> (r: bool)
    ensures
        r == name_fits(dir_entry(e.deep_view()), e.name@),
{
    let n: usize = byte_length(e.name.as_str());
    if is_dir_entry(e) && !(ends_with(e.name.as_str(), "/") || ends_with(e.name.as_str(), "\\")) {
        proof {
            lemma_byte_len(e.name@, "/"@);
            reveal_strlit("/");
            reveal_with_fuel(encode_utf8, 2);
            assert("/"@.drop_first() =~= Seq::<char>::empty());
            assert(encode_utf8("/"@).len() == 1);
        }
        n < 65535
    } else {
        n <= 65535
    }
}

/// The entries whose names end in `.xml`.
pub open spec fn xml_only(entries: Seq<EntryV>) -> Seq<EntryV>
    decreases entries.len(),
{
    if entries.len() == 0 {
        Seq::empty()
    } else if xml_name(entries.last().name) {
        xml_only(entries.drop_last()).push(entries.last())
    } else {
        xml_only(entries.drop_last())
    }
}

fn replacement_for<'a>(
    replacements: &'a Vec<(String, Vec<u8>)>,
    name: &str,
    data: &'a Vec<u8>,
) -> (r: &'a Vec<u8>)
    ensures
        r@ == replaced_data(replacements_view(*replacements), name@, data@),
{
    let ghost model = replacements_view(*replacements);
    let mut i: usize = 0;
    assert(model.skip(0) =~= model);
    while i < replacements.len()
        invariant
            i <= replacements@.len(),
            model == replacements_view(*replacements),
            replaced_data(model.skip(i as int), name@, data@) == replaced_data(model, name@, data@),
        decreases replacements@.len() - i,
    {
        if crate::chars::str_eq(replacements[i].0.as_str(), name) {
            return &replacements[i].1;
        }
        assert(model.skip(i as int).drop_first() =~= model.skip(i + 1));
        i = i + 1;
    }
    data
}

impl DocxPackage {
    /// Unpacks a package.
    pub fn read(bytes: &[u8]) -> (r: Result<DocxPackage, DocxError>)
        ensures
            result_view(r) == package_of(bytes@),
            r matches Ok(p) ==> entries_read(p.deep_view()),
    {
        let mut zip = match open_zip(bytes) {
            Ok(a) => a,
            Err(m) => return Err(DocxError::Unpack(m)),
        };
        let ghost items = archive_entries(zip);
        let n: usize = zip_len(&zip);
        let mut entries: Vec<DocxEntry> = Vec::new();
        let mut i: usize = 0;
        assert(items.take(0) =~= Seq::<Result<EntryV, Seq<char>>>::empty());
        assert(entries.deep_view() =~= Seq::<EntryV>::empty());
        while i < n
            invariant
                i <= n == items.len(),
                archive_entries(zip) == items,
                package_of(bytes@) == all_entries(items),
                all_entries(items.take(i as int)) == Ok::<_, DocxErrorV>(entries.deep_view()),
                entries_read(entries.deep_view()),
            decreases n - i,
        {
            let e = read_zip_entry(&mut zip, i);
            assert(items.take(i + 1).drop_last() =~= items.take(i as int));
            match e {
                Ok(ent) => push_deep(&mut entries, ent),
                Err(m) => {
                    proof {
                        lemma_all_entries_fault(items, i + 1);
                    }
                    return Err(DocxError::Unpack(m));
                },
            }
            i = i + 1;
        }
        assert(items.take(i as int) =~= items);
        Ok(DocxPackage { entries })
    }

    /// Packs the entries, with the data of some of them replaced.
    pub fn write_with_replacements(&self, replacements: &Vec<(String, Vec<u8>)>) -> (r: Result<
        Vec<u8>,
        DocxError,
    >)
        ensures
            bytes_result(r) == packed(replacements_view(*replacements), self.deep_view()),
            r matches Ok(b) ==> reads_back(
                replacements_view(*replacements),
                self.deep_view(),
                package_of(b@),
            ),
    {
        let ghost model = self.entries.deep_view();
        let ghost repl = replacements_view(*replacements);
        let mut zout = new_zip();
        let mut i: usize = 0;
        assert(model.take(0) =~= Seq::<EntryV>::empty());
        while i < self.entries.len()
            invariant
                i <= self.entries@.len(),
                model == self.entries.deep_view(),
                repl == replacements_view(*replacements),
                items_of(repl, model.take(i as int)) == Ok::<_, DocxErrorV>(items_written(zout)),
            decreases self.entries@.len() - i,
        {
            let ent: &DocxEntry = &self.entries[i];
            assert(model[i as int] == ent.deep_view());
            assert(model.take(i + 1).drop_last() =~= model.take(i as int));
            if !fits_archive(ent) {
                proof {
                    lemma_items_fault(repl, model, i + 1);
                }
                return Err(DocxError::LongName { entry: clone_text(&ent.name) });
            }
            let added = if is_dir_entry(ent) {
                add_zip_directory(&mut zout, ent)
            } else {
                let data: &Vec<u8> = replacement_for(replacements, ent.name.as_str(), &ent.data);
                add_zip_file(&mut zout, ent, data.as_slice())
            };
            match added {
                Ok(_) => {},
                Err(m) => {
                    proof {
                        lemma_items_fault(repl, model, i + 1);
                    }
                    return Err(DocxError::Pack(m));
                },
            }
            i = i + 1;
        }
        assert(model.take(i as int) =~= model);
        match finish_zip(zout) {
            Ok(b) => {
                proof {
                    lemma_reads_back(repl, model, b@);
                }
                Ok(b)
            },
            Err(m) => Err(DocxError::Pack(m)),
        }
    }

    /// The entries whose names end in `.xml`, in their order.
    pub fn xml_entries(&self) -> (r: Vec<&DocxEntry>)
        ensures
            r.deep_view() == xml_only(self.deep_view()),
    {
        let ghost model = self.entries.deep_view();
        let mut out: Vec<&DocxEntry> = Vec::new();
        let mut i: usize = 0;
        assert(model.take(0) =~= Seq::<EntryV>::empty());
        assert(out.deep_view() =~= Seq::<EntryV>::empty());
        while i < self.entries.len()
            invariant
                i <= self.entries@.len(),
                model == self.entries.deep_view(),
                out.deep_view() == xml_only(model.take(i as int)),
            decreases self.entries@.len() - i,
        {
            let ent: &DocxEntry = &self.entries[i];
            assert(model[i as int] == ent.deep_view());
            assert(model.take(i + 1).drop_last() =~= model.take(i as int));
            if is_xml_name(ent.name.as_str()) {
                push_deep(&mut out, ent);
            }
            i = i + 1;
        }
        assert(model.take(i as int) =~= model);
        out
    }
}

} // verus!
