use pbzx::container::{
    bytes_left, check_magic, has_continuation_flag, length_fits, read_frame, size_is_exhausted,
};
use pbzx::source::read_u64_be;
use pbzx::{
    cmp_str, proces, read_vec, ByteSource, CompressedPayloadUnrecoverable, PbzxEntry, PbzxError,
};

const CONTINUES: u64 = 0x800000;
const CONTINUES_LEGACY: u64 = 0x01000000;

fn xz_of_greeting() -> Vec<u8> {
    vec![
        253, 55, 122, 88, 90, 0, 0, 4, 230, 214, 180, 70, 2, 0, 33, 1, 22, 0, 0, 0, 116, 47, 229,
        163, 1, 0, 10, 104, 101, 108, 108, 111, 44, 32, 112, 98, 122, 120, 0, 0, 153, 39, 237, 5,
        34, 44, 249, 93, 0, 1, 35, 11, 194, 27, 253, 9, 31, 182, 243, 125, 1, 0, 0, 0, 0, 4, 89,
        90,
    ]
}

fn header(flags: u64) -> Vec<u8> {
    let mut out = b"pbzx".to_vec();
    out.extend_from_slice(&flags.to_be_bytes());
    out
}

fn push_chunk(out: &mut Vec<u8>, flags: u64, declared: u64, payload: &[u8]) {
    out.extend_from_slice(&flags.to_be_bytes());
    out.extend_from_slice(&declared.to_be_bytes());
    out.extend_from_slice(payload);
}

fn container(flags: u64, chunks: &[(u64, Vec<u8>)]) -> Vec<u8> {
    let mut out = header(flags);
    for (chunk_flags, payload) in chunks {
        push_chunk(&mut out, *chunk_flags, payload.len() as u64, payload);
    }
    out
}

#[test]
fn single_chunk_round_trip() {
    let stream = container(0, &[(0, b"hello".to_vec())]);
    assert_eq!(stream.len(), 33);
    let hint = stream.len() as u64;
    let mut src = ByteSource::new(stream);
    let file = proces(&mut src, hint).unwrap();
    assert_eq!(file.flags, 0);
    assert_eq!(file.entries.len(), 1);
    assert_eq!(file.entries[0].flags, 0);
    assert_eq!(file.entries[0].data, b"hello".to_vec());
    assert!(!file.entries[0].lzma);
    assert_eq!(src.position(), 33);
    assert_eq!(src.remaining_len(), 0);
}

#[test]
fn global_flags_are_read_big_endian() {
    let stream = container(0x0102_0304_0506_0708, &[(0xFFFF_0000_0000_0001, vec![9])]);
    let hint = stream.len() as u64;
    let mut src = ByteSource::new(stream);
    let file = proces(&mut src, hint).unwrap();
    assert_eq!(file.flags, 0x0102_0304_0506_0708);
    assert_eq!(file.entries[0].flags, 0xFFFF_0000_0000_0001);
    assert_eq!(file.entries[0].data, vec![9]);
}

#[test]
fn continuation_yields_every_chunk_in_order() {
    let chunks = vec![
        (CONTINUES, b"first".to_vec()),
        (CONTINUES_LEGACY | 7, b"second chunk".to_vec()),
        (CONTINUES | CONTINUES_LEGACY, Vec::new()),
        (3, b"last".to_vec()),
    ];
    let stream = container(42, &chunks);
    let total = stream.len();
    let mut src = ByteSource::new(stream);
    let file = proces(&mut src, total as u64).unwrap();
    assert_eq!(file.flags, 42);
    assert_eq!(file.entries.len(), 4);
    for (entry, (flags, payload)) in file.entries.iter().zip(chunks.iter()) {
        assert_eq!(entry.flags, *flags);
        assert_eq!(&entry.data, payload);
        assert!(!entry.lzma);
    }
    assert_eq!(src.position(), total);
}

#[test]
fn chunks_behind_the_last_one_are_left_unread() {
    let mut stream = container(0, &[(0, b"only".to_vec())]);
    let end_of_first = stream.len();
    push_chunk(&mut stream, 0, 5, b"extra");
    let hint = stream.len() as u64;
    let mut src = ByteSource::new(stream);
    let file = proces(&mut src, hint).unwrap();
    assert_eq!(file.entries.len(), 1);
    assert_eq!(file.entries[0].data, b"only".to_vec());
    assert_eq!(src.position(), end_of_first);
}

#[test]
fn magic_mismatch_is_refused_after_four_bytes() {
    let mut stream = container(0, &[(0, b"hello".to_vec())]);
    stream[3] = b'y';
    let hint = stream.len() as u64;
    let mut src = ByteSource::new(stream);
    assert_eq!(proces(&mut src, hint).err(), Some(PbzxError::MagicMismatch));
    assert_eq!(src.position(), 4);
    assert_eq!(src.remaining_len(), 29);
}

#[test]
fn check_magic_accepts_the_signature_only() {
    let mut good = ByteSource::new(b"pbzx and more".to_vec());
    assert_eq!(check_magic(&mut good), Ok(()));
    assert_eq!(good.position(), 4);
    let mut bad = ByteSource::new(b"xzbp and more".to_vec());
    assert_eq!(check_magic(&mut bad), Err(PbzxError::MagicMismatch));
    assert_eq!(bad.position(), 4);
    let mut short = ByteSource::new(b"pbz".to_vec());
    assert_eq!(check_magic(&mut short), Err(PbzxError::SourceReadFailure));
    assert_eq!(short.position(), 0);
}

#[test]
fn oversized_first_chunk_is_refused() {
    let mut stream = header(0);
    push_chunk(&mut stream, 0, 100, b"hello");
    let hint = stream.len() as u64;
    assert_eq!(hint, 33);
    let mut src = ByteSource::new(stream);
    assert_eq!(
        proces(&mut src, hint).err(),
        Some(PbzxError::TruncatedOrCorruptChunk { index: 0, declared: 100, remaining: 21 })
    );
    assert_eq!(src.position(), 28);
}

#[test]
fn oversized_second_chunk_reports_its_index() {
    let mut stream = container(0, &[(CONTINUES, b"0123456789".to_vec())]);
    push_chunk(&mut stream, 0, u64::MAX, b"tail");
    let hint = stream.len() as u64;
    assert_eq!(hint, 12 + 26 + 20);
    let mut src = ByteSource::new(stream);
    assert_eq!(
        proces(&mut src, hint).err(),
        Some(PbzxError::TruncatedOrCorruptChunk { index: 1, declared: u64::MAX, remaining: 20 })
    );
    assert_eq!(src.position(), 12 + 26 + 16);
}

#[test]
fn declared_length_must_stay_strictly_below_the_bound() {
    // With a hint of 40 the first chunk's bound is 40 - 12 + 16 = 44.
    let mut at_bound = header(0);
    push_chunk(&mut at_bound, 0, 44, &[0u8; 44]);
    let mut src = ByteSource::new(at_bound);
    assert_eq!(
        proces(&mut src, 40).err(),
        Some(PbzxError::TruncatedOrCorruptChunk { index: 0, declared: 44, remaining: 28 })
    );

    let mut below_bound = header(0);
    push_chunk(&mut below_bound, 0, 43, &[7u8; 43]);
    let mut src = ByteSource::new(below_bound);
    let file = proces(&mut src, 40).unwrap();
    assert_eq!(file.entries.len(), 1);
    assert_eq!(file.entries[0].data, vec![7u8; 43]);
}

#[test]
fn a_payload_the_source_cannot_deliver_is_a_read_failure() {
    let mut stream = header(0);
    push_chunk(&mut stream, 0, 10, b"short");
    let mut src = ByteSource::new(stream);
    assert_eq!(proces(&mut src, 1000).err(), Some(PbzxError::SourceReadFailure));
    assert_eq!(src.position(), 28);
}

#[test]
fn short_streams_are_read_failures() {
    let mut empty = ByteSource::new(Vec::new());
    assert_eq!(proces(&mut empty, 0).err(), Some(PbzxError::SourceReadFailure));
    assert_eq!(empty.position(), 0);

    let mut magic_only = ByteSource::new(b"pbzx".to_vec());
    assert_eq!(proces(&mut magic_only, 4).err(), Some(PbzxError::SourceReadFailure));
    assert_eq!(magic_only.position(), 4);

    let mut no_chunk = ByteSource::new(header(5));
    assert_eq!(proces(&mut no_chunk, 12).err(), Some(PbzxError::SourceReadFailure));
    assert_eq!(no_chunk.position(), 12);

    let mut half_header = header(5);
    half_header.extend_from_slice(&[0u8; 12]);
    let mut src = ByteSource::new(half_header);
    assert_eq!(proces(&mut src, 24).err(), Some(PbzxError::SourceReadFailure));
    assert_eq!(src.position(), 20);
}

#[test]
fn a_budget_of_eight_bytes_ends_the_run() {
    let mut stream = container(0, &[(CONTINUES, b"abc".to_vec())]);
    stream.extend_from_slice(&[0u8; 8]);
    let hint = stream.len() as u64;
    assert_eq!(hint, 31 + 8);
    let mut src = ByteSource::new(stream);
    let file = proces(&mut src, hint).unwrap();
    assert_eq!(file.entries.len(), 1);
    assert_eq!(file.entries[0].flags, CONTINUES);
    assert_eq!(src.position(), 31);
}

#[test]
fn a_budget_of_nine_bytes_goes_on_and_fails_on_the_header() {
    let mut stream = container(0, &[(CONTINUES, b"abc".to_vec())]);
    stream.extend_from_slice(&[0u8; 9]);
    let hint = stream.len() as u64;
    let mut src = ByteSource::new(stream);
    assert_eq!(proces(&mut src, hint).err(), Some(PbzxError::SourceReadFailure));
    assert_eq!(src.position(), 31 + 8);
}

#[test]
fn a_budget_of_nine_bytes_goes_on_where_the_source_holds_more() {
    let mut stream = container(0, &[(CONTINUES_LEGACY, b"abc".to_vec())]);
    push_chunk(&mut stream, 0, 2, b"zz");
    let mut src = ByteSource::new(stream);
    let file = proces(&mut src, 31 + 9).unwrap();
    assert_eq!(file.entries.len(), 2);
    assert_eq!(file.entries[1].data, b"zz".to_vec());
}

#[test]
fn a_hint_below_the_offset_leaves_a_small_bound() {
    let mut fits = header(0);
    push_chunk(&mut fits, CONTINUES, 3, b"abc");
    push_chunk(&mut fits, 0, 0, b"");
    let mut src = ByteSource::new(fits);
    let file = proces(&mut src, 0).unwrap();
    assert_eq!(file.entries.len(), 1);
    assert_eq!(file.entries[0].data, b"abc".to_vec());

    let mut too_long = header(0);
    push_chunk(&mut too_long, 0, 4, b"abcd");
    let mut src = ByteSource::new(too_long);
    assert_eq!(
        proces(&mut src, 0).err(),
        Some(PbzxError::TruncatedOrCorruptChunk { index: 0, declared: 4, remaining: 0 })
    );
}

#[test]
fn a_compressed_chunk_is_unpacked_in_place() {
    let chunks = vec![(CONTINUES, xz_of_greeting()), (0, b"plain".to_vec())];
    let stream = container(1, &chunks);
    let hint = stream.len() as u64;
    let mut src = ByteSource::new(stream);
    let file = proces(&mut src, hint).unwrap();
    assert_eq!(file.entries.len(), 2);
    assert_eq!(file.entries[0].data, b"hello, pbzx".to_vec());
    assert!(file.entries[0].lzma);
    assert_eq!(file.entries[1].data, b"plain".to_vec());
    assert!(!file.entries[1].lzma);
}

#[test]
fn a_corrupt_compressed_chunk_does_not_stop_the_decode() {
    let mut broken = xz_of_greeting();
    broken[30] ^= 0xFF;
    let chunks = vec![(CONTINUES, broken.clone()), (0, b"after".to_vec())];
    let stream = container(1, &chunks);
    let hint = stream.len() as u64;
    let mut src = ByteSource::new(stream);
    let file = proces(&mut src, hint).unwrap();
    assert_eq!(file.entries.len(), 2);
    assert_eq!(file.entries[0].data, broken);
    assert!(!file.entries[0].lzma);
    assert_eq!(file.entries[1].data, b"after".to_vec());
}

#[test]
fn read_frame_hands_back_flags_payload_and_new_offset() {
    let mut bytes = Vec::new();
    push_chunk(&mut bytes, 0xAB, 4, b"data");
    bytes.extend_from_slice(b"rest");
    let mut src = ByteSource::new(bytes);
    let (flags, raw, next) = read_frame(&mut src, 100, 0, 0).unwrap();
    assert_eq!(flags, 0xAB);
    assert_eq!(raw, b"data".to_vec());
    assert_eq!(next, 20);
    assert_eq!(src.position(), 20);
    assert_eq!(src.remaining_len(), 4);
}

#[test]
fn read_frame_refuses_before_reading_the_payload() {
    let mut bytes = Vec::new();
    push_chunk(&mut bytes, 0, 50, &[1u8; 50]);
    let mut src = ByteSource::new(bytes);
    assert_eq!(
        read_frame(&mut src, 30, 0, 5).err(),
        Some(PbzxError::TruncatedOrCorruptChunk { index: 5, declared: 50, remaining: 30 })
    );
    assert_eq!(src.position(), 16);
}

#[test]
fn read_vec_is_exact_or_nothing() {
    let mut src = ByteSource::new(vec![1, 2, 3, 4, 5]);
    assert_eq!(read_vec(&mut src, 2), Ok(vec![1, 2]));
    assert_eq!(src.position(), 2);
    assert_eq!(read_vec(&mut src, 4), Err(PbzxError::SourceReadFailure));
    assert_eq!(src.position(), 2);
    assert_eq!(read_vec(&mut src, 0), Ok(Vec::new()));
    assert_eq!(read_vec(&mut src, 3), Ok(vec![3, 4, 5]));
    assert_eq!(src.remaining_len(), 0);
    assert_eq!(read_vec(&mut src, 1), Err(PbzxError::SourceReadFailure));
}

#[test]
fn read_u64_be_puts_the_first_byte_highest() {
    let mut src = ByteSource::new(vec![1, 2, 3, 4, 5, 6, 7, 8, 0, 0, 0, 0, 0, 0, 1, 0, 9]);
    assert_eq!(read_u64_be(&mut src), Ok(0x0102_0304_0506_0708));
    assert_eq!(read_u64_be(&mut src), Ok(256));
    assert_eq!(src.position(), 16);
    assert_eq!(read_u64_be(&mut src), Err(PbzxError::SourceReadFailure));
    assert_eq!(src.position(), 16);
}

#[test]
fn cmp_str_compares_contents() {
    assert!(cmp_str(&b"pbzx".to_vec(), b"pbzx"));
    assert!(!cmp_str(&b"pbzy".to_vec(), b"pbzx"));
    assert!(!cmp_str(&b"pbz".to_vec(), b"pbzx"));
    assert!(!cmp_str(&b"pbzxx".to_vec(), b"pbzx"));
    assert!(cmp_str(&Vec::new(), b""));
}

#[test]
fn continuation_is_either_marker_bit() {
    assert!(has_continuation_flag(0x800000));
    assert!(has_continuation_flag(0x01000000));
    assert!(has_continuation_flag(0x01800000));
    assert!(has_continuation_flag(u64::MAX));
    assert!(!has_continuation_flag(0));
    assert!(!has_continuation_flag(0x400000));
    assert!(!has_continuation_flag(0x02000000));
    assert!(!has_continuation_flag(!0x01800000u64));
}

#[test]
fn budget_arithmetic_has_no_wrap_around() {
    assert!(length_fits(43, 12, 40));
    assert!(!length_fits(44, 12, 40));
    assert!(length_fits(3, 12, 0));
    assert!(!length_fits(4, 12, 0));
    assert!(length_fits(u64::MAX, 15, u64::MAX));
    assert!(!length_fits(u64::MAX, 16, u64::MAX));
    assert!(length_fits(u64::MAX, 0, u64::MAX));
    assert!(!length_fits(u64::MAX, u64::MAX, u64::MAX));

    assert!(size_is_exhausted(32, 40));
    assert!(!size_is_exhausted(31, 40));
    assert!(size_is_exhausted(40, 40));
    assert!(size_is_exhausted(41, 40));
    assert!(size_is_exhausted(u64::MAX, 0));
    assert!(!size_is_exhausted(0, u64::MAX));

    assert_eq!(bytes_left(12, 40), 28);
    assert_eq!(bytes_left(40, 40), 0);
    assert_eq!(bytes_left(41, 40), 0);
    assert_eq!(bytes_left(0, u64::MAX), u64::MAX);
}

#[test]
fn entries_report_payloads_kept_despite_the_signature() {
    let mut broken = xz_of_greeting();
    broken[30] ^= 0xFF;
    let mut cut = xz_of_greeting();
    cut.truncate(40);
    let chunks = vec![
        (CONTINUES, xz_of_greeting()),
        (CONTINUES, broken),
        (CONTINUES, cut),
        (0, b"plain".to_vec()),
    ];
    let stream = container(0, &chunks);
    let hint = stream.len() as u64;
    let mut src = ByteSource::new(stream);
    let file = proces(&mut src, hint).unwrap();
    assert_eq!(file.entries.len(), 4);
    assert_eq!(file.entries[0].unrecoverable(), None);
    assert_eq!(
        file.entries[1].unrecoverable(),
        Some(CompressedPayloadUnrecoverable::DecodeFailed)
    );
    assert_eq!(
        file.entries[2].unrecoverable(),
        Some(CompressedPayloadUnrecoverable::FooterAbsent)
    );
    assert_eq!(file.entries[3].unrecoverable(), None);
}

#[test]
fn a_decoded_entry_reports_nothing_whatever_its_data_holds() {
    let entry = PbzxEntry { flags: 0, data: xz_of_greeting(), lzma: true };
    assert_eq!(entry.unrecoverable(), None);
    let entry = PbzxEntry { flags: 0, data: xz_of_greeting(), lzma: false };
    assert_eq!(entry.unrecoverable(), Some(CompressedPayloadUnrecoverable::DecodeFailed));
}
