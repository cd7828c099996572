//! The wire form of a container, and the law that decoding undoes it.

use vstd::prelude::*;
use crate::container::{
    budget_exhausted, chunks_read, continues, decoded, entry_of, frame_read, pbzx_magic,
    EntryModel, FileModel, FrameModel,
};
use crate::error::PbzxError;
use crate::payload::{lzma_magic, starts_with};
use crate::source::{be_bytes, lemma_be_round_trip, lemma_be_value_prefix};

verus! {

/// One chunk on the wire: flags, payload length, payload.
pub open spec fn frame_bytes(flags: u64, payload: Seq<u8>) -> Seq<u8> {
    be_bytes(flags) + be_bytes(payload.len() as u64) + payload
}

/// A run of chunks on the wire, each given by its flags and payload.
pub open spec fn frames_bytes(chunks: Seq<(u64, Seq<u8>)>) -> Seq<u8>
    decreases chunks.len(),
{
    if chunks.len() == 0 {
        Seq::empty()
    } else {
        frame_bytes(chunks[0].0, chunks[0].1) + frames_bytes(chunks.skip(1))
    }
}

/// A whole container on the wire.
pub open spec fn container_bytes(flags: u64, chunks: Seq<(u64, Seq<u8>)>) -> Seq<u8> {
    pbzx_magic() + be_bytes(flags) + frames_bytes(chunks)
}

/// The entries that a run of chunks decodes to.
pub open spec fn entries_of(chunks: Seq<(u64, Seq<u8>)>) -> Seq<EntryModel> {
    Seq::new(chunks.len(), |i: int| entry_of(chunks[i].0, chunks[i].1))
}

/// At least one chunk, and every chunk but the last announces a successor.
pub open spec fn well_chained(chunks: Seq<(u64, Seq<u8>)>) -> bool {
    &&& chunks.len() >= 1
    &&& !continues(chunks.last().0)
    &&& forall|i: int| 0 <= i < chunks.len() - 1 ==> continues(#[trigger] chunks[i].0)
}

/// Reading a chunk's wire form, whatever follows it, gives the chunk back,
/// provided its length fits the budget.
pub proof fn lemma_frame_round_trip(
    flags: u64,
    payload: Seq<u8>,
    more: Seq<u8>,
    hint: u64,
    offset: nat,
    index: nat,
)
    requires
        payload.len() <= u64::MAX,
        payload.len() + offset < hint + 16,
    ensures
        frame_bytes(flags, payload).len() == 16 + payload.len(),
        frame_read(frame_bytes(flags, payload) + more, hint, offset, index) == (
            Ok::<FrameModel, PbzxError>(
                FrameModel { flags, raw: payload, next: offset + 16 + payload.len() },
            ),
            16 + payload.len(),
        ),
{
    let rest = frame_bytes(flags, payload) + more;
    let declared = payload.len() as u64;
    lemma_be_round_trip(flags);
    lemma_be_round_trip(declared);
    assert(rest.take(8) =~= be_bytes(flags).take(8));
    assert(rest.skip(8).take(8) =~= be_bytes(declared).take(8));
    lemma_be_value_prefix(rest, be_bytes(flags));
    lemma_be_value_prefix(rest.skip(8), be_bytes(declared));
    assert(rest.subrange(16, 16 + payload.len() as int) =~= payload);
}

/// Reading the wire form of a well-chained run of chunks, with a budget that
/// ends where the run ends, yields one entry per chunk, in order, and
/// consumes the whole run.
pub proof fn lemma_frames_round_trip(
    chunks: Seq<(u64, Seq<u8>)>,
    hint: u64,
    offset: nat,
    acc: Seq<EntryModel>,
)
    requires
        well_chained(chunks),
        offset + frames_bytes(chunks).len() == hint,
    ensures
        chunks_read(frames_bytes(chunks), hint, offset, acc) == (
            Ok::<Seq<EntryModel>, PbzxError>(acc + entries_of(chunks)),
            frames_bytes(chunks).len(),
        ),
    decreases chunks.len(),
{
    let flags = chunks[0].0;
    let payload = chunks[0].1;
    let tail = chunks.skip(1);
    let rest = frames_bytes(chunks);
    let size = 16 + payload.len();
    lemma_be_round_trip(flags);
    lemma_be_round_trip(payload.len() as u64);
    assert(rest == frame_bytes(flags, payload) + frames_bytes(tail));
    lemma_frame_round_trip(flags, payload, frames_bytes(tail), hint, offset, acc.len());
    assert(rest.skip(size as int) =~= frames_bytes(tail));
    let entry = entry_of(flags, payload);
    if tail.len() == 0 {
        assert(chunks.last() == chunks[0]);
        assert(acc + entries_of(chunks) =~= acc.push(entry));
    } else {
        assert(continues(chunks[0].0));
        lemma_be_round_trip(tail[0].0);
        lemma_be_round_trip(tail[0].1.len() as u64);
        assert(frames_bytes(tail) == frame_bytes(tail[0].0, tail[0].1) + frames_bytes(
            tail.skip(1),
        ));
        assert(!budget_exhausted(offset + size, hint));
        assert(tail.last() == chunks.last());
        assert forall|i: int| 0 <= i < tail.len() - 1 implies continues(#[trigger] tail[i].0) by {
            assert(tail[i] == chunks[i + 1]);
        }
        lemma_frames_round_trip(tail, hint, offset + size, acc.push(entry));
        assert forall|i: int| 0 <= i < tail.len() implies #[trigger] entries_of(tail)[i]
            == entries_of(chunks)[i + 1] by {
            assert(tail[i] == chunks[i + 1]);
        }
        assert(acc.push(entry) + entries_of(tail) =~= acc + entries_of(chunks));
    }
}

/// Decoding the wire form of a container whose chunks are well chained, with
/// the length of that wire form as the hint, yields the global flags and one
/// entry per chunk, in the order given, each with its chunk's flags and its
/// chunk's payload as the payload detector leaves it; the whole stream is
/// consumed.
pub proof fn lemma_container_round_trip(flags: u64, chunks: Seq<(u64, Seq<u8>)>)
    requires
        well_chained(chunks),
        container_bytes(flags, chunks).len() <= u64::MAX,
    ensures
        decoded(container_bytes(flags, chunks), container_bytes(flags, chunks).len() as u64) == (
            Ok::<FileModel, PbzxError>(FileModel { flags, entries: entries_of(chunks) }),
            container_bytes(flags, chunks).len(),
        ),
{
    let stream = container_bytes(flags, chunks);
    let hint = stream.len() as u64;
    lemma_be_round_trip(flags);
    assert(stream.take(4) =~= pbzx_magic());
    assert(stream.skip(4).take(8) =~= be_bytes(flags).take(8));
    lemma_be_value_prefix(stream.skip(4), be_bytes(flags));
    assert(stream.skip(12) =~= frames_bytes(chunks));
    lemma_frames_round_trip(chunks, hint, 12, Seq::empty());
    assert(Seq::<EntryModel>::empty() + entries_of(chunks) =~= entries_of(chunks));
}

/// The entries that a run of chunks decodes to where no payload is touched.
pub open spec fn plain_entries_of(chunks: Seq<(u64, Seq<u8>)>) -> Seq<EntryModel> {
    Seq::new(chunks.len(), |i: int| EntryModel { flags: chunks[i].0, data: chunks[i].1, lzma: false })
}

/// Where no payload opens with the XZ signature, decoding the wire form of a
/// well-chained container gives every chunk back exactly as it was written:
/// as many entries as chunks, in order, each with its flags and its payload.
pub proof fn lemma_plain_container_round_trip(flags: u64, chunks: Seq<(u64, Seq<u8>)>)
    requires
        well_chained(chunks),
        container_bytes(flags, chunks).len() <= u64::MAX,
        forall|i: int| 0 <= i < chunks.len() ==> !starts_with(#[trigger] chunks[i].1, lzma_magic()),
    ensures
        decoded(container_bytes(flags, chunks), container_bytes(flags, chunks).len() as u64) == (
            Ok::<FileModel, PbzxError>(FileModel { flags, entries: plain_entries_of(chunks) }),
            container_bytes(flags, chunks).len(),
        ),
{
    lemma_container_round_trip(flags, chunks);
    assert(entries_of(chunks) =~= plain_entries_of(chunks));
}

} // verus!
