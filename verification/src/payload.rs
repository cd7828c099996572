//! Detection and decoding of an XZ stream embedded in a chunk's payload.

use vstd::prelude::*;

verus! {

/// The six bytes every XZ stream opens with.
pub open spec fn lzma_magic() -> Seq<u8> {
    seq![0xFDu8, 0x37u8, 0x7Au8, 0x58u8, 0x5Au8, 0x00u8]
}

/// The two bytes every XZ stream closes with.
pub open spec fn lzma_magic_footer() -> Seq<u8> {
    seq![0x59u8, 0x5Au8]
}

/// `bytes` opens with `prefix`.
pub open spec fn starts_with(bytes: Seq<u8>, prefix: Seq<u8>) -> bool {
    prefix.len() <= bytes.len() && bytes.take(prefix.len() as int) == prefix
}

/// `bytes` closes with `suffix`.
pub open spec fn ends_with(bytes: Seq<u8>, suffix: Seq<u8>) -> bool {
    suffix.len() <= bytes.len() && bytes.skip(bytes.len() - suffix.len()) == suffix
}

/// `payload` carries both the opening and the closing XZ signature.
pub open spec fn looks_compressed(payload: Seq<u8>) -> bool {
    starts_with(payload, lzma_magic()) && ends_with(payload, lzma_magic_footer())
}

/// What liblzma's stream decoder makes of `stream`: the plain bytes, or
/// nothing where it rejects the stream.
pub uninterp spec fn xz_stream_decoded(stream: Seq<u8>) -> Option<Seq<u8>>;

/// The contents of an optional buffer.
pub open spec fn decoded_view(decoded: Option<Vec<u8>>) -> Option<Seq<u8>> {
    match decoded {
        Some(plain) => Some(plain@),
        None => None,
    }
}

/// The payload an entry ends up with, given what the decoder made of the raw
/// payload: the decoded bytes where both signatures are present and the
/// decoder succeeded, the raw payload in every other case.
pub open spec fn unpack_with(payload: Seq<u8>, decoded: Option<Seq<u8>>) -> (Seq<u8>, bool) {
    if looks_compressed(payload) {
        match decoded {
            Some(plain) => (plain, true),
            None => (payload, false),
        }
    } else {
        (payload, false)
    }
}

/// Why a payload that opens with the XZ signature was kept as it is. Neither
/// case stops a decode: the entry keeps the raw payload.
#[derive(Debug, Clone, Copy, PartialEq, Eq, Structural)]
pub enum CompressedPayloadUnrecoverable {
    /// The payload does not close with the XZ footer, so no decoding was
    /// attempted.
    FooterAbsent,
    /// Both signatures are present, but the decoder rejected the payload.
    DecodeFailed,
}

/// What there is to report about a raw payload, given what the decoder made
/// of it: nothing where it lacks the opening signature or was decoded.
pub open spec fn unrecoverable_with(payload: Seq<u8>, decoded: Option<Seq<u8>>) -> Option<
    CompressedPayloadUnrecoverable,
> {
    if !starts_with(payload, lzma_magic()) {
        None
    } else if !ends_with(payload, lzma_magic_footer()) {
        Some(CompressedPayloadUnrecoverable::FooterAbsent)
    } else if decoded is None {
        Some(CompressedPayloadUnrecoverable::DecodeFailed)
    } else {
        None
    }
}

/// The payload an entry ends up with.
pub open spec fn unpacked(payload: Seq<u8>) -> (Seq<u8>, bool) {
    unpack_with(payload, xz_stream_decoded(payload))
}

/// Whether `data` opens with `prefix`.
pub fn has_prefix(data: &Vec<u8>, prefix: &[u8]) -> (found: bool)
    ensures
        found == starts_with(data@, prefix@),
{
    if prefix.len() > data.len() {
        return false;
    }
    let mut i: usize = 0;
    while i < prefix.len()
        invariant
            i <= prefix.len() <= data.len(),
            forall|k: int| 0 <= k < i ==> data@[k] == prefix@[k],
        decreases prefix.len() - i,
    {
        if data[i] != prefix[i] {
            assert(data@.take(prefix@.len() as int)[i as int] == data@[i as int]);
            return false;
        }
        i = i + 1;
    }
    assert(data@.take(prefix@.len() as int) =~= prefix@);
    true
}

/// Whether `data` closes with `suffix`.
pub fn has_suffix(data: &Vec<u8>, suffix: &[u8]) -> (found: bool)
    ensures
        found == ends_with(data@, suffix@),
{
    if suffix.len() > data.len() {
        return false;
    }
    let base: usize = data.len() - suffix.len();
    let mut i: usize = 0;
    while i < suffix.len()
        invariant
            i <= suffix.len() <= data.len(),
            base == data.len() - suffix.len(),
            forall|k: int| 0 <= k < i ==> data@[base + k] == suffix@[k],
        decreases suffix.len() - i,
    {
        if data[base + i] != suffix[i] {
            assert(data@.skip(base as int)[i as int] == data@[base + i]);
            return false;
        }
        i = i + 1;
    }
    assert(data@.skip(base as int) =~= suffix@);
    true
}

/// Whether `item_data` opens with the XZ signature.
pub fn has_lzma_magic(item_data: &Vec<u8>) -> (found: bool)
    ensures
        found == starts_with(item_data@, lzma_magic()),
{
    let magic: [u8; 6] = [0xFD, 0x37, 0x7A, 0x58, 0x5A, 0x00];
    assert(magic@ =~= lzma_magic());
    has_prefix(item_data, magic.as_slice())
}

/// Whether `item_data` closes with the XZ footer.
pub fn has_lzma_footer(item_data: &Vec<u8>) -> (found: bool)
    ensures
        found == ends_with(item_data@, lzma_magic_footer()),
{
    let footer: [u8; 2] = [0x59, 0x5A];
    assert(footer@ =~= lzma_magic_footer());
    has_suffix(item_data, footer.as_slice())
}

/// Whether `item_data` carries both XZ signatures.
pub fn is_lzma_framed(item_data: &Vec<u8>) -> (framed: bool)
    ensures
        framed == looks_compressed(item_data@),
{
    has_lzma_magic(item_data) && has_lzma_footer(item_data)
}

/// `lzma::decompress`: runs liblzma's decoder over the whole of `stream` and
/// collects its output. The result is the named value `xz_stream_decoded`;
/// nothing is claimed about which streams decode.
#[verifier::external_body]
fn xz_decompress(stream: &Vec<u8>) -> (out: Option<Vec<u8>>)
    ensures
        decoded_view(out) == xz_stream_decoded(stream@),
{
    lzma::decompress(stream.as_slice()).ok()
}

/// Chooses between the raw payload and what the decoder made of it.
pub fn unpack_item_data_with(item_data: Vec<u8>, decoded: Option<Vec<u8>>) -> (r: (Vec<u8>, bool))
    ensures
        (r.0@, r.1) == unpack_with(item_data@, decoded_view(decoded)),
{
    if !is_lzma_framed(&item_data) {
        return (item_data, false);
    }
    match decoded {
        Some(plain) => (plain, true),
        None => (item_data, false),
    }
}

/// Decodes the payload where it is an XZ stream and hands it back untouched
/// where it is not, or where the decoder rejects it.
pub fn lzma_unpack_item_data_if_needed(item_data: Vec<u8>) -> (r: (Vec<u8>, bool))
    ensures
        (r.0@, r.1) == unpacked(item_data@),
{
    if !is_lzma_framed(&item_data) {
        return (item_data, false);
    }
    let decoded = xz_decompress(&item_data);
    unpack_item_data_with(item_data, decoded)
}

/// A payload without the opening signature passes through unchanged, however
/// often it is run through the detector.
pub proof fn lemma_detection_idempotent(payload: Seq<u8>)
    requires
        !starts_with(payload, lzma_magic()),
    ensures
        unpacked(payload) == (payload, false),
        unpacked(unpacked(payload).0) == (payload, false),
{
}

/// A payload that lacks either signature, or that the decoder rejects, is
/// kept as it is and not marked as compressed.
pub proof fn lemma_fallback_keeps_payload(payload: Seq<u8>)
    requires
        !starts_with(payload, lzma_magic()) || !ends_with(payload, lzma_magic_footer())
            || xz_stream_decoded(payload) is None,
    ensures
        unpacked(payload) == (payload, false),
{
}

/// A payload with both signatures that the decoder accepts is replaced by the
/// decoder's output and marked as compressed.
pub proof fn lemma_success_replaces_payload(payload: Seq<u8>, plain: Seq<u8>)
    requires
        looks_compressed(payload),
        xz_stream_decoded(payload) == Some(plain),
    ensures
        unpacked(payload) == (plain, true),
{
}

} // verus!
