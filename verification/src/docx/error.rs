//! Why a document cannot be read, changed or written.

use crate::docx::xml::{XmlError, XmlErrorV};
use vstd::prelude::*;

verus! {

/// What went wrong with a document.
#[derive(Clone, Debug)]
pub enum DocxError {
    /// The package cannot be unpacked. Holds the archive reader's words.
    Unpack(String),
    /// The package cannot be packed. Holds the archive writer's words.
    Pack(String),
    /// The package has no `word/document.xml`.
    MissingDocument,
    /// A part cannot be read as XML.
    Xml { part: String, error: XmlError },
    /// A masked part still holds text that is no placeholder.
    MaskNotPure { part: String, text: String },
    /// Two of the files that are put together stem from different documents.
    PrefixMismatch { left: String, right: String },
    /// The smallest slot id is not 1.
    SlotIdsStart { min_id: usize },
    /// The largest slot id is not the number of slots.
    SlotIdsGap { max_id: usize, slots: usize },
    /// The number of slot texts is not the largest slot id.
    SlotTextCount { texts: usize, expected: usize },
    /// The data of an entry cannot be recovered.
    EntryData { entry: String, fault: DataFault },
    /// A slot does not fit the masked document.
    Slot { id: usize, part: String, event_index: usize, why: SlotFault },
    /// A placeholder is left after all slots were filled.
    Leftover { part: String, text: String },
    /// Two packages are not the same document.
    Differs { entry: String, what: Difference },
    /// An element that is to be dropped is never closed.
    Unterminated { part: String, element: String },
    /// The filter rules are of a version that is not known.
    FilterVersion { version: u32 },
    /// There is no text for a slot.
    MissingSlotText { id: usize },
    /// The name of an entry is too long for an archive.
    LongName { entry: String },
}

/// Why the data of a masked entry cannot be recovered.
#[derive(Clone, Debug)]
pub enum DataFault {
    /// The Base64 text is malformed. Holds the decoder's words.
    Base64(String),
    /// The data is said to be in the blobs, and there are none.
    NoBlobs,
    /// The data would lie outside the blobs.
    OutOfRange { offset: u64, length: u64, blobs: usize },
    /// The data has another digest than the one on record.
    Digest { expected: String, got: String },
}

/// Why a slot does not fit.
#[derive(Clone, Copy, Debug, PartialEq, Eq, Structural)]
pub enum SlotFault {
    NoText,
    NoPart,
    NoEvent,
    WrongEvent,
    NoAttrName,
    NoAttr,
    NotPlaceholder,
}

/// In what two packages differ.
#[derive(Clone, Copy, Debug, PartialEq, Eq, Structural)]
pub enum Difference {
    Count,
    Name,
    Compression,
    Timestamp,
    IsDir,
    Bytes,
    Xml,
}

/// The model of a [`DocxError`].
pub enum DocxErrorV {
    Unpack(Seq<char>),
    Pack(Seq<char>),
    MissingDocument,
    Xml { part: Seq<char>, error: XmlErrorV },
    MaskNotPure { part: Seq<char>, text: Seq<char> },
    PrefixMismatch { left: Seq<char>, right: Seq<char> },
    SlotIdsStart { min_id: nat },
    SlotIdsGap { max_id: nat, slots: nat },
    SlotTextCount { texts: nat, expected: nat },
    EntryData { entry: Seq<char>, fault: DataFaultV },
    Slot { id: nat, part: Seq<char>, event_index: nat, why: SlotFault },
    Leftover { part: Seq<char>, text: Seq<char> },
    Differs { entry: Seq<char>, what: Difference },
    Unterminated { part: Seq<char>, element: Seq<char> },
    FilterVersion { version: u32 },
    MissingSlotText { id: nat },
    LongName { entry: Seq<char> },
}

/// The model of a [`DataFault`].
pub enum DataFaultV {
    Base64(Seq<char>),
    NoBlobs,
    OutOfRange { offset: nat, length: nat, blobs: nat },
    Digest { expected: Seq<char>, got: Seq<char> },
}

impl DeepView for DataFault {
    type V = DataFaultV;

    open spec fn deep_view(&self) -> DataFaultV {
        match self {
            DataFault::Base64(m) => DataFaultV::Base64(m@),
            DataFault::NoBlobs => DataFaultV::NoBlobs,
            DataFault::OutOfRange { offset, length, blobs } => DataFaultV::OutOfRange {
                offset: *offset as nat,
                length: *length as nat,
                blobs: *blobs as nat,
            },
            DataFault::Digest { expected, got } => DataFaultV::Digest {
                expected: expected@,
                got: got@,
            },
        }
    }
}

impl DeepView for DocxError {
    type V = DocxErrorV;

    open spec fn deep_view(&self) -> DocxErrorV {
        match self {
            DocxError::Unpack(m) => DocxErrorV::Unpack(m@),
            DocxError::Pack(m) => DocxErrorV::Pack(m@),
            DocxError::MissingDocument => DocxErrorV::MissingDocument,
            DocxError::Xml { part, error } => DocxErrorV::Xml {
                part: part@,
                error: error.deep_view(),
            },
            DocxError::MaskNotPure { part, text } => DocxErrorV::MaskNotPure {
                part: part@,
                text: text@,
            },
            DocxError::PrefixMismatch { left, right } => DocxErrorV::PrefixMismatch {
                left: left@,
                right: right@,
            },
            DocxError::SlotIdsStart { min_id } => DocxErrorV::SlotIdsStart {
                min_id: *min_id as nat,
            },
            DocxError::SlotIdsGap { max_id, slots } => DocxErrorV::SlotIdsGap {
                max_id: *max_id as nat,
                slots: *slots as nat,
            },
            DocxError::SlotTextCount { texts, expected } => DocxErrorV::SlotTextCount {
                texts: *texts as nat,
                expected: *expected as nat,
            },
            DocxError::EntryData { entry, fault } => DocxErrorV::EntryData {
                entry: entry@,
                fault: fault.deep_view(),
            },
            DocxError::Slot { id, part, event_index, why } => DocxErrorV::Slot {
                id: *id as nat,
                part: part@,
                event_index: *event_index as nat,
                why: *why,
            },
            DocxError::Leftover { part, text } => DocxErrorV::Leftover { part: part@, text: text@ },
            DocxError::Differs { entry, what } => DocxErrorV::Differs { entry: entry@, what: *what },
            DocxError::Unterminated { part, element } => DocxErrorV::Unterminated {
                part: part@,
                element: element@,
            },
            DocxError::FilterVersion { version } => DocxErrorV::FilterVersion { version: *version },
            DocxError::MissingSlotText { id } => DocxErrorV::MissingSlotText { id: *id as nat },
            DocxError::LongName { entry } => DocxErrorV::LongName { entry: entry@ },
        }
    }
}

} // verus!
