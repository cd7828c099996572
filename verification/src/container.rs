//! The container itself: signature, global flags, and the run of chunks.

use vstd::prelude::*;
use crate::error::PbzxError;
use crate::payload::{
    ends_with, has_lzma_footer, has_lzma_magic, lzma_magic, lzma_magic_footer,
    lzma_unpack_item_data_if_needed, starts_with, unpacked, unrecoverable_with,
    xz_stream_decoded, CompressedPayloadUnrecoverable,
};
use crate::source::{be_value, cmp_str, lemma_be_value_fits, read_u64_be, read_vec, ByteSource};

verus! {

/// One decoded chunk.
#[derive(Debug)]
pub struct PbzxEntry {
    /// The chunk's flag word as found in the stream.
    pub flags: u64,
    /// The chunk's payload, decoded where it was an XZ stream.
    pub data: Vec<u8>,
    /// Whether `data` is the output of the XZ decoder.
    pub lzma: bool,
}

/// A decoded container.
pub struct PbzxFile {
    /// The global flag word.
    pub flags: u64,
    /// The chunks in stream order.
    pub entries: Vec<PbzxEntry>,
}

/// The mathematical content of a [`PbzxEntry`].
pub struct EntryModel {
    pub flags: u64,
    pub data: Seq<u8>,
    pub lzma: bool,
}

/// The mathematical content of a [`PbzxFile`].
pub struct FileModel {
    pub flags: u64,
    pub entries: Seq<EntryModel>,
}

/// One chunk as it stands in the stream, before its payload is inspected.
pub struct FrameModel {
    pub flags: u64,
    pub raw: Seq<u8>,
    pub next: nat,
}

impl View for PbzxEntry {
    type V = EntryModel;

    open spec fn view(&self) -> EntryModel {
        EntryModel { flags: self.flags, data: self.data@, lzma: self.lzma }
    }
}

/// What there is to report about an entry: one that was not decoded although
/// its payload opens with the XZ signature either lacks the footer or was
/// rejected by the decoder.
pub open spec fn unrecoverable_of(entry: EntryModel) -> Option<CompressedPayloadUnrecoverable> {
    if entry.lzma || !starts_with(entry.data, lzma_magic()) {
        None
    } else if !ends_with(entry.data, lzma_magic_footer()) {
        Some(CompressedPayloadUnrecoverable::FooterAbsent)
    } else {
        Some(CompressedPayloadUnrecoverable::DecodeFailed)
    }
}

impl PbzxEntry {
    /// Tells whether the payload looked compressed and was kept as it is all
    /// the same, and why.
    pub fn unrecoverable(&self) -> (found: Option<CompressedPayloadUnrecoverable>)
        ensures
            found == unrecoverable_of(self@),
    {
        if self.lzma || !has_lzma_magic(&self.data) {
            None
        } else if !has_lzma_footer(&self.data) {
            Some(CompressedPayloadUnrecoverable::FooterAbsent)
        } else {
            Some(CompressedPayloadUnrecoverable::DecodeFailed)
        }
    }
}

/// The models of a run of entries, in order.
pub open spec fn entries_model(entries: Seq<PbzxEntry>) -> Seq<EntryModel> {
    Seq::new(entries.len(), |i: int| entries[i]@)
}

impl View for PbzxFile {
    type V = FileModel;

    open spec fn view(&self) -> FileModel {
        FileModel { flags: self.flags, entries: entries_model(self.entries@) }
    }
}

/// The model of a decode's outcome.
pub open spec fn outcome_model(r: Result<PbzxFile, PbzxError>) -> Result<FileModel, PbzxError> {
    match r {
        Ok(file) => Ok(file@),
        Err(e) => Err(e),
    }
}

/// The model of a frame read's outcome.
pub open spec fn frame_outcome_model(r: Result<(u64, Vec<u8>, u64), PbzxError>) -> Result<
    FrameModel,
    PbzxError,
> {
    match r {
        Ok(frame) => Ok(FrameModel { flags: frame.0, raw: frame.1@, next: frame.2 as nat }),
        Err(e) => Err(e),
    }
}

/// The container signature, `pbzx` in ASCII.
pub open spec fn pbzx_magic() -> Seq<u8> {
    seq![0x70u8, 0x62u8, 0x7Au8, 0x78u8]
}

/// Whether a chunk's flags announce a further chunk: the current marker bit
/// or the legacy one is set.
pub open spec fn continues(flags: u64) -> bool {
    0 != flags & (0x800000u64 | 0x01000000u64)
}

/// Whether a declared payload length is acceptable for a chunk whose header
/// starts at `offset`: strictly below the budget left there plus sixteen.
/// The comparison is made in unbounded integers, so a hint smaller than the
/// offset simply leaves a bound below sixteen.
pub open spec fn fits_budget(declared: u64, offset: nat, hint: u64) -> bool {
    declared + offset < hint + 16
}

/// Whether too little of the budget is left at `offset` to go on: eight bytes
/// or fewer. A chunk header takes sixteen bytes, so a run that goes on with
/// nine to fifteen bytes of budget left does not end here: it fails on its
/// next chunk, on the header read or on the length check.
pub open spec fn budget_exhausted(offset: nat, hint: u64) -> bool {
    hint - offset <= 8
}

/// The budget left at `offset`, zero where the offset has passed the hint.
pub open spec fn budget_left(offset: nat, hint: u64) -> u64 {
    if offset <= hint {
        (hint - offset) as u64
    } else {
        0
    }
}

/// The signature check on the bytes `rest`: its outcome, and how many bytes
/// it consumes.
pub open spec fn magic_checked(rest: Seq<u8>) -> (Result<(), PbzxError>, nat) {
    if rest.len() < 4 {
        (Err(PbzxError::SourceReadFailure), 0)
    } else if rest.take(4) != pbzx_magic() {
        (Err(PbzxError::MagicMismatch), 4)
    } else {
        (Ok(()), 4)
    }
}

/// What is left of `rest` once the signature check has run.
pub open spec fn magic_passed(rest: Seq<u8>) -> Seq<u8> {
    rest.skip(magic_checked(rest).1 as int)
}

/// Reading one chunk from the bytes `rest`, whose first byte stands at
/// `offset` in the stream: the frame or the error, and how many bytes of
/// `rest` are consumed on the way.
pub open spec fn frame_read(rest: Seq<u8>, hint: u64, offset: nat, index: nat) -> (
    Result<FrameModel, PbzxError>,
    nat,
) {
    let flags = be_value(rest) as u64;
    let declared = be_value(rest.skip(8)) as u64;
    if rest.len() < 8 {
        (Err(PbzxError::SourceReadFailure), 0)
    } else if rest.len() < 16 {
        (Err(PbzxError::SourceReadFailure), 8)
    } else if !fits_budget(declared, offset, hint) {
        (
            Err(
                PbzxError::TruncatedOrCorruptChunk {
                    index: index as usize,
                    declared,
                    remaining: budget_left(offset, hint),
                },
            ),
            16,
        )
    } else if rest.len() < 16 + declared {
        (Err(PbzxError::SourceReadFailure), 16)
    } else {
        (
            Ok(
                FrameModel {
                    flags,
                    raw: rest.subrange(16, 16 + declared),
                    next: (offset + 16 + declared) as nat,
                },
            ),
            (16 + declared) as nat,
        )
    }
}

/// The entry a frame becomes once its payload has been inspected.
pub open spec fn entry_of(flags: u64, raw: Seq<u8>) -> EntryModel {
    EntryModel { flags, data: unpacked(raw).0, lzma: unpacked(raw).1 }
}

/// What an entry reports is what the detector found in the chunk's raw
/// payload.
pub proof fn lemma_entry_reports_its_payload(flags: u64, raw: Seq<u8>)
    ensures
        unrecoverable_of(entry_of(flags, raw)) == unrecoverable_with(raw, xz_stream_decoded(raw)),
{
}

/// Reading chunks from the bytes `rest` until one stops the run, with `acc`
/// the entries gathered before: all the entries or the error, and how many
/// bytes of `rest` are consumed on the way.
pub open spec fn chunks_read(rest: Seq<u8>, hint: u64, offset: nat, acc: Seq<EntryModel>) -> (
    Result<Seq<EntryModel>, PbzxError>,
    nat,
)
    decreases rest.len(),
{
    let step = frame_read(rest, hint, offset, acc.len());
    match step.0 {
        Err(e) => (Err(e), step.1),
        Ok(frame) => {
            let entries = acc.push(entry_of(frame.flags, frame.raw));
            if !continues(frame.flags) || budget_exhausted(frame.next, hint) {
                (Ok(entries), step.1)
            } else {
                let tail = chunks_read(rest.skip(step.1 as int), hint, frame.next, entries);
                (tail.0, step.1 + tail.1)
            }
        },
    }
}

/// Decoding the stream `rest` against the length hint `hint`: the container
/// or the error, and how many bytes of `rest` are consumed on the way.
pub open spec fn decoded(rest: Seq<u8>, hint: u64) -> (Result<FileModel, PbzxError>, nat) {
    let magic = magic_checked(rest);
    match magic.0 {
        Err(e) => (Err(e), magic.1),
        Ok(_) => if rest.len() < 12 {
            (Err(PbzxError::SourceReadFailure), 4)
        } else {
            let flags = be_value(rest.skip(4)) as u64;
            let chunks = chunks_read(rest.skip(12), hint, 12, Seq::empty());
            match chunks.0 {
                Err(e) => (Err(e), 12 + chunks.1),
                Ok(entries) => (Ok(FileModel { flags, entries }), 12 + chunks.1),
            }
        },
    }
}

/// A stream whose first four bytes are not the signature is refused as such,
/// with exactly those four bytes consumed.
pub proof fn lemma_magic_enforced(stream: Seq<u8>, hint: u64)
    requires
        stream.len() >= 4,
        stream.take(4) != pbzx_magic(),
    ensures
        decoded(stream, hint) == (Err::<FileModel, PbzxError>(PbzxError::MagicMismatch), 4nat),
{
}

/// A chunk whose declared length does not fit the budget is refused with the
/// chunk's index, the declared length and the budget left, and nothing behind
/// its sixteen header bytes is consumed.
pub proof fn lemma_oversized_chunk_refused(
    rest: Seq<u8>,
    hint: u64,
    offset: nat,
    acc: Seq<EntryModel>,
)
    requires
        rest.len() >= 16,
        !fits_budget(be_value(rest.skip(8)) as u64, offset, hint),
    ensures
        chunks_read(rest, hint, offset, acc) == (
            Err::<Seq<EntryModel>, PbzxError>(
                PbzxError::TruncatedOrCorruptChunk {
                    index: acc.len() as usize,
                    declared: be_value(rest.skip(8)) as u64,
                    remaining: budget_left(offset, hint),
                },
            ),
            16nat,
        ),
{
}

/// A stream whose first chunk declares a length that does not fit the budget
/// fails on that chunk, twenty-eight bytes into the stream.
pub proof fn lemma_oversized_first_chunk_refused(stream: Seq<u8>, hint: u64)
    requires
        stream.len() >= 28,
        stream.take(4) == pbzx_magic(),
        !fits_budget(be_value(stream.skip(20)) as u64, 12, hint),
    ensures
        decoded(stream, hint) == (
            Err::<FileModel, PbzxError>(
                PbzxError::TruncatedOrCorruptChunk {
                    index: 0,
                    declared: be_value(stream.skip(20)) as u64,
                    remaining: budget_left(12, hint),
                },
            ),
            28nat,
        ),
{
    assert(stream.skip(12).skip(8) =~= stream.skip(20));
    lemma_oversized_chunk_refused(stream.skip(12), hint, 12, Seq::empty());
}

/// The chunk reader never consumes more than the bytes it is given, and a
/// run that succeeds has gathered at least one entry more than it began with.
pub proof fn lemma_chunks_read_bounds(rest: Seq<u8>, hint: u64, offset: nat, acc: Seq<EntryModel>)
    ensures
        chunks_read(rest, hint, offset, acc).1 <= rest.len(),
        chunks_read(rest, hint, offset, acc).0 matches Ok(entries) ==> entries.len() > acc.len(),
    decreases rest.len(),
{
    lemma_be_value_fits(rest);
    lemma_be_value_fits(rest.skip(8));
    let step = frame_read(rest, hint, offset, acc.len());
    if let Ok(frame) = step.0 {
        let entries = acc.push(entry_of(frame.flags, frame.raw));
        if !(!continues(frame.flags) || budget_exhausted(frame.next, hint)) {
            lemma_chunks_read_bounds(rest.skip(step.1 as int), hint, frame.next, entries);
        }
    }
}

/// A decode never consumes more than the stream holds, and a container that
/// decodes has at least one entry.
pub proof fn lemma_decoded_bounds(stream: Seq<u8>, hint: u64)
    ensures
        decoded(stream, hint).1 <= stream.len(),
        decoded(stream, hint).0 matches Ok(file) ==> file.entries.len() >= 1,
{
    if stream.len() >= 12 {
        lemma_chunks_read_bounds(stream.skip(12), hint, 12, Seq::empty());
    }
}

/// Reads the four signature bytes and compares them with `pbzx`.
pub fn check_magic(src: &mut ByteSource) -> (r: Result<(), PbzxError>)
    requires
        old(src).wf(),
    ensures
        final(src).wf(),
        final(src).bytes() == old(src).bytes(),
        r == magic_checked(old(src).remaining()).0,
        final(src).consumed() == old(src).consumed() + magic_checked(old(src).remaining()).1,
        final(src).remaining() == magic_passed(old(src).remaining()),
{
    let ghost rest = src.remaining();
    assert(rest.skip(0) =~= rest);
    let pbzx_magic = match read_vec(src, 4) {
        Ok(bytes) => bytes,
        Err(e) => {
            return Err(e);
        },
    };
    let expected: [u8; 4] = [0x70, 0x62, 0x7A, 0x78];
    assert(expected@ =~= self::pbzx_magic());
    if cmp_str(&pbzx_magic, expected.as_slice()) {
        Ok(())
    } else {
        Err(PbzxError::MagicMismatch)
    }
}

/// Whether a chunk's flags announce a further chunk.
pub fn has_continuation_flag(item_flags: u64) -> (set: bool)
    ensures
        set == continues(item_flags),
{
    0 != item_flags & (0x800000u64 | 0x01000000u64)
}

/// Whether the declared length stays strictly below the budget left at
/// `offset` plus sixteen.
pub fn length_fits(item_length: u64, offset: u64, file_len_hint: u64) -> (fits: bool)
    ensures
        fits == fits_budget(item_length, offset as nat, file_len_hint),
{
    (item_length as u128) + (offset as u128) < (file_len_hint as u128) + 16
}

/// Whether eight bytes or fewer of the budget are left at `offset`.
pub fn size_is_exhausted(offset: u64, file_len_hint: u64) -> (exhausted: bool)
    ensures
        exhausted == budget_exhausted(offset as nat, file_len_hint),
{
    file_len_hint <= offset || file_len_hint - offset <= 8
}

/// The budget left at `offset`, zero where the offset has passed the hint.
pub fn bytes_left(offset: u64, file_len_hint: u64) -> (left: u64)
    ensures
        left == budget_left(offset as nat, file_len_hint),
{
    if offset <= file_len_hint {
        file_len_hint - offset
    } else {
        0
    }
}

/// Reads one chunk: its flags, its declared length, and, once the length has
/// been held against the budget, its payload. Hands back the flags, the raw
/// payload and the offset behind the chunk.
///
/// `offset` counts bytes already taken from `src`, so it cannot exceed what
/// `src` has given out; that keeps the new offset within a 64-bit word.
pub fn read_frame(src: &mut ByteSource, file_len_hint: u64, offset: u64, index: usize) -> (r:
    Result<(u64, Vec<u8>, u64), PbzxError>)
    requires
        old(src).wf(),
        offset <= old(src).consumed(),
    ensures
        final(src).wf(),
        final(src).bytes() == old(src).bytes(),
        frame_outcome_model(r) == frame_read(
            old(src).remaining(),
            file_len_hint,
            offset as nat,
            index as nat,
        ).0,
        final(src).consumed() == old(src).consumed() + frame_read(
            old(src).remaining(),
            file_len_hint,
            offset as nat,
            index as nat,
        ).1,
        final(src).remaining() == old(src).remaining().skip(
            frame_read(old(src).remaining(), file_len_hint, offset as nat, index as nat).1 as int,
        ),
{
    let ghost rest = src.remaining();
    proof {
        lemma_be_value_fits(rest);
        lemma_be_value_fits(rest.skip(8));
        assert(rest.skip(0) =~= rest);
    }
    let begin: usize = src.position();
    let item_flags = match read_u64_be(src) {
        Ok(word) => word,
        Err(e) => {
            return Err(e);
        },
    };
    let item_length = match read_u64_be(src) {
        Ok(word) => word,
        Err(e) => {
            return Err(e);
        },
    };
    assert(src.remaining() =~= rest.skip(16));
    if !length_fits(item_length, offset, file_len_hint) {
        return Err(
            PbzxError::TruncatedOrCorruptChunk {
                index,
                declared: item_length,
                remaining: bytes_left(offset, file_len_hint),
            },
        );
    }
    let avail: usize = src.remaining_len();
    if item_length > avail as u64 {
        return Err(PbzxError::SourceReadFailure);
    }
    let item_data_raw = match read_vec(src, item_length as usize) {
        Ok(bytes) => bytes,
        Err(e) => {
            return Err(e);
        },
    };
    let taken: usize = src.position() - begin;
    assert(item_data_raw@ =~= rest.subrange(16, 16 + item_length));
    assert(src.remaining() =~= rest.skip(16 + item_length));
    Ok((item_flags, item_data_raw, offset + taken as u64))
}

/// Decodes one container from `src`: the signature, the global flags, and
/// chunks for as long as each announces another and more than eight bytes of
/// the budget `file_len_hint` are left behind it.
pub fn proces(src: &mut ByteSource, file_len_hint: u64) -> (r: Result<PbzxFile, PbzxError>)
    requires
        old(src).wf(),
    ensures
        final(src).wf(),
        final(src).bytes() == old(src).bytes(),
        outcome_model(r) == decoded(old(src).remaining(), file_len_hint).0,
        final(src).consumed() == old(src).consumed() + decoded(
            old(src).remaining(),
            file_len_hint,
        ).1,
{
    let ghost stream = src.remaining();
    let ghost start = src.consumed();
    match check_magic(src) {
        Ok(_) => {},
        Err(e) => {
            return Err(e);
        },
    }
    proof {
        lemma_be_value_fits(stream.skip(4));
    }
    let file_flags = match read_u64_be(src) {
        Ok(word) => word,
        Err(e) => {
            return Err(e);
        },
    };
    assert(src.remaining() =~= stream.skip(12));
    let ghost total = chunks_read(stream.skip(12), file_len_hint, 12, Seq::empty());
    let mut entries: Vec<PbzxEntry> = Vec::new();
    let mut offset: u64 = 12;
    let mut done: bool = false;
    assert(entries_model(entries@) =~= Seq::empty());
    while !done
        invariant
            src.wf(),
            src.bytes() == old(src).bytes(),
            src.consumed() >= start + 12,
            stream == old(src).remaining(),
            start == old(src).consumed(),
            decoded(stream, file_len_hint).1 == 12 + total.1,
            decoded(stream, file_len_hint).0 == match total.0 {
                Err(e) => Err::<FileModel, PbzxError>(e),
                Ok(found) => Ok(FileModel { flags: file_flags, entries: found }),
            },
            offset <= src.consumed(),
            !done ==> total.0 == chunks_read(
                src.remaining(),
                file_len_hint,
                offset as nat,
                entries_model(entries@),
            ).0,
            !done ==> start + 12 + total.1 == src.consumed() + chunks_read(
                src.remaining(),
                file_len_hint,
                offset as nat,
                entries_model(entries@),
            ).1,
            done ==> total.0 == Ok::<Seq<EntryModel>, PbzxError>(entries_model(entries@)),
            done ==> start + 12 + total.1 == src.consumed(),
        decreases src.remaining().len() + (if done { 0int } else { 1int }),
    {
        let ghost before = entries_model(entries@);
        let ghost rest = src.remaining();
        let (item_flags, item_data_raw, next) = match read_frame(
            src,
            file_len_hint,
            offset,
            entries.len(),
        ) {
            Ok(frame) => frame,
            Err(e) => {
                return Err(e);
            },
        };
        let (item_data, is_lzma) = lzma_unpack_item_data_if_needed(item_data_raw);
        let entry = PbzxEntry { flags: item_flags, data: item_data, lzma: is_lzma };
        entries.push(entry);
        assert(entries_model(entries@) =~= before.push(entry_of(item_flags, item_data_raw@)));
        offset = next;
        if !has_continuation_flag(item_flags) || size_is_exhausted(offset, file_len_hint) {
            done = true;
        }
    }
    Ok(PbzxFile { flags: file_flags, entries })
}

} // verus!
