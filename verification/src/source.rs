//! The byte source a decode reads from, and the primitive reads on it.

use vstd::prelude::*;
use byteorder::{BigEndian, ByteOrder};
use crate::error::PbzxError;

verus! {

/// A forward-only source of bytes held in memory.
pub struct ByteSource {
    data: Vec<u8>,
    pos: usize,
}

impl ByteSource {
    /// The read position never passes the end of the data.
    pub closed spec fn wf(&self) -> bool {
        self.pos <= self.data.len()
    }

    /// Everything the source has held, read or not.
    pub closed spec fn bytes(&self) -> Seq<u8> {
        self.data@
    }

    /// How many bytes have been read so far.
    pub closed spec fn consumed(&self) -> nat {
        self.pos as nat
    }

    /// The bytes that have not been read yet.
    pub open spec fn remaining(&self) -> Seq<u8> {
        self.bytes().skip(self.consumed() as int)
    }

    /// A source positioned at the first byte of `data`.
    pub fn new(data: Vec<u8>) -> (s: Self)
        ensures
            s.wf(),
            s.bytes() == data@,
            s.consumed() == 0,
            s.remaining() == data@,
    {
        let s = ByteSource { data, pos: 0 };
        assert(s.remaining() =~= data@);
        s
    }

    /// Number of bytes read so far.
    pub fn position(&self) -> (n: usize)
        requires
            self.wf(),
        ensures
            n == self.consumed(),
    {
        self.pos
    }

    /// Number of bytes still unread.
    pub fn remaining_len(&self) -> (n: usize)
        requires
            self.wf(),
        ensures
            n == self.remaining().len(),
    {
        self.data.len() - self.pos
    }
}

/// Reads exactly `len` bytes, or fails without consuming anything when the
/// source holds fewer.
pub fn read_vec(file: &mut ByteSource, len: usize) -> (r: Result<Vec<u8>, PbzxError>)
    requires
        old(file).wf(),
    ensures
        final(file).wf(),
        final(file).bytes() == old(file).bytes(),
        len <= old(file).remaining().len() ==> r is Ok
            && r->Ok_0@ == old(file).remaining().take(len as int)
            && final(file).consumed() == old(file).consumed() + len
            && final(file).remaining() == old(file).remaining().skip(len as int),
        len > old(file).remaining().len() ==> r == Err::<Vec<u8>, PbzxError>(
            PbzxError::SourceReadFailure,
        ) && final(file).consumed() == old(file).consumed()
            && final(file).remaining() == old(file).remaining(),
{
    let avail: usize = file.data.len() - file.pos;
    if len > avail {
        return Err(PbzxError::SourceReadFailure);
    }
    let start: usize = file.pos;
    let mut buf: Vec<u8> = Vec::new();
    let mut i: usize = 0;
    while i < len
        invariant
            i <= len,
            start + len <= file.data.len(),
            file.pos == start,
            file.data@ == old(file).data@,
            buf@ == file.data@.subrange(start as int, start + i),
        decreases len - i,
    {
        buf.push(file.data[start + i]);
        i = i + 1;
        assert(buf@ =~= file.data@.subrange(start as int, start + i));
    }
    file.pos = start + len;
    assert(buf@ =~= old(file).remaining().take(len as int));
    assert(file.remaining() =~= old(file).remaining().skip(len as int));
    Ok(buf)
}

/// Whether `buf` and `sstr` hold the same bytes.
pub fn cmp_str(buf: &Vec<u8>, sstr: &[u8]) -> (same: bool)
    ensures
        same == (buf@ == sstr@),
{
    if buf.len() != sstr.len() {
        return false;
    }
    let mut i: usize = 0;
    while i < buf.len()
        invariant
            i <= buf.len(),
            buf.len() == sstr.len(),
            forall|k: int| 0 <= k < i ==> buf@[k] == sstr@[k],
        decreases buf.len() - i,
    {
        if buf[i] != sstr[i] {
            return false;
        }
        i = i + 1;
    }
    assert(buf@ =~= sstr@);
    true
}

/// The number that eight bytes spell, most significant byte first.
#[verifier::opaque]
pub open spec fn be_value(b: Seq<u8>) -> nat
    recommends
        b.len() >= 8,
{
    (b[0] as nat) * 0x100_0000_0000_0000 + (b[1] as nat) * 0x1_0000_0000_0000 + (b[2] as nat)
        * 0x100_0000_0000 + (b[3] as nat) * 0x1_0000_0000 + (b[4] as nat) * 0x100_0000 + (
    b[5] as nat) * 0x1_0000 + (b[6] as nat) * 0x100 + (b[7] as nat)
}

/// The eight bytes that spell `x`, most significant byte first.
#[verifier::opaque]
pub open spec fn be_bytes(x: u64) -> Seq<u8> {
    seq![
        ((x / 0x100_0000_0000_0000) % 0x100) as u8,
        ((x / 0x1_0000_0000_0000) % 0x100) as u8,
        ((x / 0x100_0000_0000) % 0x100) as u8,
        ((x / 0x1_0000_0000) % 0x100) as u8,
        ((x / 0x100_0000) % 0x100) as u8,
        ((x / 0x1_0000) % 0x100) as u8,
        ((x / 0x100) % 0x100) as u8,
        (x % 0x100) as u8,
    ]
}

/// Writing a number out and reading it back gives the number.
pub proof fn lemma_be_round_trip(x: u64)
    ensures
        be_bytes(x).len() == 8,
        be_value(be_bytes(x)) == x,
{
    reveal(be_value);
    reveal(be_bytes);
    let q1: int = (x / 0x100) as int;
    let q2: int = q1 / 0x100;
    let q3: int = q2 / 0x100;
    let q4: int = q3 / 0x100;
    let q5: int = q4 / 0x100;
    let q6: int = q5 / 0x100;
    let q7: int = q6 / 0x100;
    assert(q2 == x / 0x1_0000);
    assert(q3 == x / 0x100_0000);
    assert(q4 == x / 0x1_0000_0000);
    assert(q5 == x / 0x100_0000_0000);
    assert(q6 == x / 0x1_0000_0000_0000);
    assert(q7 == x / 0x100_0000_0000_0000);
    assert(q7 < 0x100);
    assert(x == (x % 0x100) + 0x100 * q1);
    assert(q1 == (q1 % 0x100) + 0x100 * q2);
    assert(q2 == (q2 % 0x100) + 0x100 * q3);
    assert(q3 == (q3 % 0x100) + 0x100 * q4);
    assert(q4 == (q4 % 0x100) + 0x100 * q5);
    assert(q5 == (q5 % 0x100) + 0x100 * q6);
    assert(q6 == (q6 % 0x100) + 0x100 * q7);
    let b = be_bytes(x);
    assert(b[7] == x % 0x100);
    assert(b[6] == q1 % 0x100);
    assert(b[5] == q2 % 0x100);
    assert(b[4] == q3 % 0x100);
    assert(b[3] == q4 % 0x100);
    assert(b[2] == q5 % 0x100);
    assert(b[1] == q6 % 0x100);
    assert(b[0] == q7);
}

/// Eight bytes read most significant first always fit a 64-bit word.
pub proof fn lemma_be_value_fits(b: Seq<u8>)
    ensures
        be_value(b) <= u64::MAX,
{
    reveal(be_value);
}

/// Only the first eight bytes count towards the value.
pub proof fn lemma_be_value_prefix(a: Seq<u8>, b: Seq<u8>)
    requires
        a.len() >= 8,
        b.len() >= 8,
        a.take(8) == b.take(8),
    ensures
        be_value(a) == be_value(b),
{
    reveal(be_value);
    assert forall|i: int| 0 <= i < 8 implies a[i] == b[i] by {
        assert(a.take(8)[i] == a[i]);
        assert(b.take(8)[i] == b[i]);
    }
}

/// `byteorder::BigEndian::read_u64`: the big-endian value of the first eight
/// bytes of `buf`. The outside function panics on a shorter buffer, which the
/// precondition rules out.
#[verifier::external_body]
fn big_endian_u64(buf: &[u8]) -> (x: u64)
    requires
        buf@.len() >= 8,
    ensures
        x == be_value(buf@),
{
    BigEndian::read_u64(buf)
}

/// Reads one big-endian 64-bit word, or fails without consuming anything when
/// fewer than eight bytes are left.
pub fn read_u64_be(file: &mut ByteSource) -> (r: Result<u64, PbzxError>)
    requires
        old(file).wf(),
    ensures
        final(file).wf(),
        final(file).bytes() == old(file).bytes(),
        old(file).remaining().len() >= 8 ==> r == Ok::<u64, PbzxError>(
            be_value(old(file).remaining()) as u64,
        ) && final(file).consumed() == old(file).consumed() + 8
            && final(file).remaining() == old(file).remaining().skip(8),
        old(file).remaining().len() < 8 ==> r == Err::<u64, PbzxError>(
            PbzxError::SourceReadFailure,
        ) && final(file).consumed() == old(file).consumed()
            && final(file).remaining() == old(file).remaining(),
{
    let ghost rest = file.remaining();
    match read_vec(file, 8) {
        Ok(word) => {
            proof {
                assert(word@.take(8) =~= rest.take(8));
                lemma_be_value_prefix(word@, rest);
            }
            Ok(big_endian_u64(word.as_slice()))
        },
        Err(e) => Err(e),
    }
}

} // verus!
