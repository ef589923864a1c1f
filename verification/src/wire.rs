//! Reading and writing of TLVs.

use vstd::arithmetic::div_mod::lemma_fundamental_div_mod_converse;
use vstd::arithmetic::mul::{lemma_mul_inequality, lemma_mul_is_distributive_add_other_way};
use vstd::prelude::*;

use crate::bytes::{be16, lemma_be16, lemma_number_of_eight, lemma_number_of_four, lemma_number_of_three, lemma_number_of_two, number_of, put_bytes, put_u16};

verus! {

broadcast use crate::bytes::group_be_len;

/// The type and the length of a TLV, one byte each.
pub const TLV_HDR_SIZE: usize = 2;

/// Why a TLV cannot be decoded.
#[derive(Clone, Copy, Debug, Eq, PartialEq, Structural)]
pub enum TlvDecodeError {
    /// The length in the header does not fit the type.
    InvalidLength(u8),
    /// The bytes end before the TLV does.
    ReadOutOfBounds,
}

/// Bytes that are read from the front.
#[derive(Debug)]
pub struct Bytes {
    data: Vec<u8>,
    pos: usize,
}

impl View for Bytes {
    type V = Seq<u8>;

    /// The bytes that have not been read yet.
    closed spec fn view(&self) -> Seq<u8> {
        self.data@.skip(self.pos as int)
    }
}

impl Bytes {
    #[verifier::type_invariant]
    spec fn within(self) -> bool {
        self.pos <= self.data@.len()
    }

    pub fn new(data: Vec<u8>) -> (buf: Self)
        ensures
            buf@ == data@,
    {
        assert(data@.skip(0) =~= data@);
        Bytes { data, pos: 0 }
    }

    /// Returns how many bytes have not been read yet.
    pub fn remaining(&self) -> (n: usize)
        ensures
            n == self@.len(),
    {
        proof {
            use_type_invariant(self);
        }
        self.data.len() - self.pos
    }

    /// Reads `n` bytes.
    pub fn try_copy_to_bytes(&mut self, n: usize) -> (bytes: Result<Vec<u8>, TlvDecodeError>)
        ensures
            match bytes {
                Ok(b) => n <= old(self)@.len() && b@ == old(self)@.take(n as int) && final(self)@ == old(self)@.skip(n as int),
                Err(e) => old(self)@.len() < n && e == TlvDecodeError::ReadOutOfBounds && final(self)@ == old(self)@,
            },
    {
        proof {
            use_type_invariant(&*self);
        }
        let ghost before = self@;
        if self.data.len() - self.pos < n {
            return Err(TlvDecodeError::ReadOutOfBounds);
        }
        let mut bytes: Vec<u8> = Vec::new();
        let start: usize = self.pos;
        for i in 0..n
            invariant
                self.pos == start,
                start + n <= self.data.len(),
                before == self.data@.skip(start as int),
                bytes@ == before.take(i as int),
        {
            bytes.push(self.data[start + i]);
            assert(before.take(i + 1) =~= before.take(i as int).push(before[i as int]));
        }
        self.pos = start + n;
        assert(self@ =~= before.skip(n as int));
        Ok(bytes)
    }

    /// Reads one byte.
    pub fn try_get_u8(&mut self) -> (value: Result<u8, TlvDecodeError>)
        ensures
            match value {
                Ok(v) => 1 <= old(self)@.len() && v == old(self)@[0] && final(self)@ == old(self)@.skip(1),
                Err(e) => old(self)@.len() < 1 && e == TlvDecodeError::ReadOutOfBounds && final(self)@ == old(self)@,
            },
    {
        match self.try_copy_to_bytes(1) {
            Ok(b) => Ok(b[0]),
            Err(e) => Err(e),
        }
    }

    /// Reads a 16-bit number.
    pub fn try_get_u16(&mut self) -> (value: Result<u16, TlvDecodeError>)
        ensures
            match value {
                Ok(v) => 2 <= old(self)@.len() && v == number_of(old(self)@.take(2)) && final(self)@ == old(self)@.skip(2),
                Err(e) => old(self)@.len() < 2 && e == TlvDecodeError::ReadOutOfBounds && final(self)@ == old(self)@,
            },
    {
        match self.try_copy_to_bytes(2) {
            Ok(b) => {
                proof {
                    lemma_number_of_two(b@);
                }
                Ok(b[0] as u16 * 0x100 + b[1] as u16)
            },
            Err(e) => Err(e),
        }
    }

    /// Reads a 24-bit number.
    pub fn try_get_u24(&mut self) -> (value: Result<u32, TlvDecodeError>)
        ensures
            match value {
                Ok(v) => 3 <= old(self)@.len() && v == number_of(old(self)@.take(3)) && final(self)@ == old(self)@.skip(3),
                Err(e) => old(self)@.len() < 3 && e == TlvDecodeError::ReadOutOfBounds && final(self)@ == old(self)@,
            },
    {
        match self.try_copy_to_bytes(3) {
            Ok(b) => {
                proof {
                    lemma_number_of_three(b@);
                }
                Ok(b[0] as u32 * 0x1_0000 + b[1] as u32 * 0x100 + b[2] as u32)
            },
            Err(e) => Err(e),
        }
    }

    /// Reads a 32-bit number.
    pub fn try_get_u32(&mut self) -> (value: Result<u32, TlvDecodeError>)
        ensures
            match value {
                Ok(v) => 4 <= old(self)@.len() && v == number_of(old(self)@.take(4)) && final(self)@ == old(self)@.skip(4),
                Err(e) => old(self)@.len() < 4 && e == TlvDecodeError::ReadOutOfBounds && final(self)@ == old(self)@,
            },
    {
        match self.try_copy_to_bytes(4) {
            Ok(b) => {
                proof {
                    lemma_number_of_four(b@);
                }
                Ok(b[0] as u32 * 0x100_0000 + b[1] as u32 * 0x1_0000 + b[2] as u32 * 0x100 + b[3] as u32)
            },
            Err(e) => Err(e),
        }
    }

    /// Reads a 64-bit number.
    pub fn try_get_u64(&mut self) -> (value: Result<u64, TlvDecodeError>)
        ensures
            match value {
                Ok(v) => 8 <= old(self)@.len() && v == number_of(old(self)@.take(8)) && final(self)@ == old(self)@.skip(8),
                Err(e) => old(self)@.len() < 8 && e == TlvDecodeError::ReadOutOfBounds && final(self)@ == old(self)@,
            },
    {
        match self.try_copy_to_bytes(8) {
            Ok(b) => {
                let high: u64 = b[0] as u64 * 0x100_0000 + b[1] as u64 * 0x1_0000 + b[2] as u64 * 0x100 + b[3] as u64;
                let low: u64 = b[4] as u64 * 0x100_0000 + b[5] as u64 * 0x1_0000 + b[6] as u64 * 0x100 + b[7] as u64;
                proof {
                    lemma_number_of_eight(b@);
                    lemma_number_of_four(b@.take(4));
                    lemma_number_of_four(b@.skip(4));
                }
                Ok(high * 0x1_0000_0000 + low)
            },
            Err(e) => Err(e),
        }
    }
}

/// An entry of fixed width that a TLV holds several of.
pub trait Record: Sized {
    /// How many bytes an entry takes.
    spec fn width() -> nat;

    /// The entry that `width` bytes spell out.
    spec fn of(bytes: Seq<u8>) -> Self;

    /// The bytes that an entry is written as.
    spec fn bytes(self) -> Seq<u8>;

    /// Whether the fields of an entry fit the bits that they are written to.
    spec fn fits(self) -> bool;

    /// How many bytes are read when only `n`, fewer than `width`, are there.
    spec fn part(n: nat) -> nat;

    /// An entry takes some bytes, always the same number, and what fits is
    /// read as it was written.
    proof fn lemma_record(self)
        ensures
            0 < Self::width() <= 0x100,
            self.bytes().len() == Self::width(),
            self.fits() ==> Self::of(self.bytes()) == self,
    ;

    /// Reads an entry.
    fn decode(buf: &mut Bytes) -> (entry: Result<Self, TlvDecodeError>)
        ensures
            match entry {
                Ok(e) => Self::width() <= old(buf)@.len() && e == Self::of(old(buf)@.take(Self::width() as int)) && final(buf)@ == old(buf)@.skip(Self::width() as int),
                Err(e) => old(buf)@.len() < Self::width() && e == TlvDecodeError::ReadOutOfBounds && final(buf)@ == old(buf)@.skip(Self::part(old(buf)@.len()) as int) && Self::part(old(buf)@.len()) <= old(buf)@.len(),
            },
    ;

    /// Writes an entry.
    fn encode(&self, buf: &mut Vec<u8>)
        ensures
            final(buf)@ == old(buf)@ + self.bytes(),
    ;
}

/// The bytes of the entry at a place in a list.
pub open spec fn record_at<R: Record>(s: Seq<u8>, i: int) -> Seq<u8> {
    s.subrange(i * R::width(), i * R::width() + R::width())
}

/// The first `n` entries that bytes spell out.
pub open spec fn records_of<R: Record>(s: Seq<u8>, n: nat) -> Seq<R> {
    Seq::new(n, |i: int| R::of(record_at::<R>(s, i)))
}

/// The bytes that a list of entries is written as.
pub open spec fn records_bytes<R: Record>(list: Seq<R>) -> Seq<u8>
    decreases list.len(),
{
    if list.len() == 0 {
        Seq::empty()
    } else {
        records_bytes(list.drop_last()) + list.last().bytes()
    }
}

/// How many bytes are read when `n` are there, fewer than the list takes.
pub open spec fn records_part<R: Record>(n: nat) -> int {
    n as int / R::width() as int * R::width() + R::part((n as int % R::width() as int) as nat)
}

/// A list takes a multiple of what an entry takes.
pub proof fn lemma_records_len<R: Record>(list: Seq<R>)
    ensures
        records_bytes(list).len() == list.len() * R::width(),
    decreases list.len(),
{
    if list.len() > 0 {
        lemma_records_len(list.drop_last());
        list.last().lemma_record();
        lemma_mul_is_distributive_add_other_way(R::width() as int, list.len() - 1, 1);
    } else {
        assert(0 * R::width() == 0);
    }
}

/// What fits is read as it was written.
pub proof fn lemma_records_round_trip<R: Record>(list: Seq<R>)
    requires
        forall|i: int| 0 <= i < list.len() ==> (#[trigger] list[i]).fits(),
    ensures
        records_of::<R>(records_bytes(list), list.len()) == list,
    decreases list.len(),
{
    let s = records_bytes(list);
    let w = R::width() as int;
    lemma_records_len(list);
    if list.len() > 0 {
        let q = list.drop_last();
        let t = records_bytes(q);
        let last = list.len() - 1;
        lemma_records_round_trip(q);
        lemma_records_len(q);
        list.last().lemma_record();
        lemma_mul_is_distributive_add_other_way(w, last, 1);
        assert forall|i: int| 0 <= i < list.len() implies R::of(record_at::<R>(s, i)) == list[i] by {
            if i < last {
                lemma_mul_inequality(i + 1, last, w);
                lemma_mul_is_distributive_add_other_way(w, i, 1);
                assert(0 <= i * w) by (nonlinear_arith)
                    requires
                        0 <= i,
                        0 < w,
                ;
                assert(record_at::<R>(s, i) =~= record_at::<R>(t, i));
                assert(records_of::<R>(t, q.len())[i] == q[i]);
            } else {
                assert(record_at::<R>(s, i) =~= list.last().bytes());
            }
        }
        assert(records_of::<R>(s, list.len()) =~= list);
    } else {
        assert(records_of::<R>(s, list.len()) =~= list);
    }
}

/// Reads `n` entries.
pub fn decode_records<R: Record>(buf: &mut Bytes, n: usize) -> (list: Result<Vec<R>, TlvDecodeError>)
    ensures
        match list {
            Ok(l) => n * R::width() <= old(buf)@.len() && l@ == records_of::<R>(old(buf)@, n as nat) && final(buf)@ == old(buf)@.skip(n * R::width() as int),
            Err(e) => old(buf)@.len() < n * R::width() && e == TlvDecodeError::ReadOutOfBounds && final(buf)@ == old(buf)@.skip(records_part::<R>(old(buf)@.len())),
        },
{
    let ghost s = buf@;
    let ghost w = R::width() as int;
    let mut list: Vec<R> = Vec::new();
    proof {
        R::of(s).lemma_record();
        assert(0 * w == 0);
        assert(s.skip(0) =~= s);
        assert(records_of::<R>(s, 0) =~= Seq::empty());
    }
    for i in 0..n
        invariant
            s == old(buf)@,
            w == R::width(),
            0 < w,
            i * w <= s.len(),
            buf@ == s.skip(i * w),
            list@ == records_of::<R>(s, i as nat),
    {
        let ghost now = buf@;
        assert(0 <= i * w) by (nonlinear_arith)
            requires
                0 <= i,
                0 < w,
        ;
        proof {
            lemma_mul_is_distributive_add_other_way(w, i as int, 1);
        }
        match R::decode(buf) {
            Ok(entry) => {
                list.push(entry);
                proof {
                    assert(now.take(w) =~= record_at::<R>(s, i as int));
                    assert(now.skip(w) =~= s.skip((i + 1) * w));
                    assert(list@ =~= records_of::<R>(s, (i + 1) as nat));
                }
            },
            Err(e) => {
                proof {
                    let left = s.len() - i * w;
                    lemma_mul_inequality(i + 1, n as int, w);
                    lemma_fundamental_div_mod_converse(s.len() as int, w, i as int, left);
                    assert(s.len() < n * w);
                    assert(now.len() == left);
                    assert(s.len() as int / w == i && s.len() as int % w == left);
                    assert(records_part::<R>(s.len()) == i * w + R::part(now.len()));
                    assert(now.skip(R::part(now.len()) as int) =~= s.skip(i * w + R::part(now.len())));
                }
                return Err(e);
            },
        }
    }
    Ok(list)
}

/// Writes a list of entries.
pub fn encode_records<R: Record>(buf: &mut Vec<u8>, list: &Vec<R>)
    ensures
        final(buf)@ == old(buf)@ + records_bytes(list@),
{
    let ghost before = buf@;
    assert(list@.take(0) =~= Seq::empty());
    for i in 0..list.len()
        invariant
            buf@ == before + records_bytes(list@.take(i as int)),
    {
        list[i].encode(buf);
        proof {
            let now = list@.take(i + 1);
            assert(now.drop_last() =~= list@.take(i as int));
            assert(now.last() == list@[i as int]);
            assert(buf@ =~= before + records_bytes(now));
        }
    }
    assert(list@.take(list@.len() as int) =~= list@);
}

impl Record for u16 {
    open spec fn width() -> nat {
        2
    }

    open spec fn of(bytes: Seq<u8>) -> u16 {
        number_of(bytes) as u16
    }

    open spec fn bytes(self) -> Seq<u8> {
        be16(self as int)
    }

    open spec fn fits(self) -> bool {
        true
    }

    open spec fn part(n: nat) -> nat {
        0
    }

    proof fn lemma_record(self) {
        lemma_be16(self as int);
    }

    fn decode(buf: &mut Bytes) -> (entry: Result<u16, TlvDecodeError>) {
        let ghost before = buf@;
        let entry = buf.try_get_u16();
        assert(before.skip(0) =~= before);
        entry
    }

    fn encode(&self, buf: &mut Vec<u8>) {
        put_u16(buf, *self);
    }
}

/// A TLV with its header. The length is cut to one byte.
pub open spec fn tlv(kind: u8, body: Seq<u8>) -> Seq<u8> {
    seq![kind, (body.len() % 0x100) as u8] + body
}

/// Appends a TLV with its header.
pub fn put_tlv(buf: &mut Vec<u8>, kind: u8, body: &Vec<u8>)
    ensures
        final(buf)@ == old(buf)@ + tlv(kind, body@),
{
    let ghost before = buf@;
    buf.push(kind);
    buf.push((body.len() % 0x100) as u8);
    put_bytes(buf, body);
    assert(buf@ =~= before + tlv(kind, body@));
}

} // verus!
