//! Numbers in network byte order.

use vstd::prelude::*;

verus! {

/// The low 16 bits of a number, most significant byte first.
#[verifier::opaque]
pub open spec fn be16(n: int) -> Seq<u8> {
    seq![(n / 0x100 % 0x100) as u8, (n % 0x100) as u8]
}

/// The low 24 bits of a number, most significant byte first.
#[verifier::opaque]
pub open spec fn be24(n: int) -> Seq<u8> {
    seq![(n / 0x1_0000 % 0x100) as u8, (n / 0x100 % 0x100) as u8, (n % 0x100) as u8]
}

/// The low 32 bits of a number, most significant byte first.
#[verifier::opaque]
pub open spec fn be32(n: int) -> Seq<u8> {
    seq![
        (n / 0x100_0000 % 0x100) as u8,
        (n / 0x1_0000 % 0x100) as u8,
        (n / 0x100 % 0x100) as u8,
        (n % 0x100) as u8,
    ]
}

/// The low 64 bits of a number, most significant byte first.
pub open spec fn be64(n: int) -> Seq<u8> {
    be32(n / 0x1_0000_0000) + be32(n % 0x1_0000_0000)
}

pub broadcast proof fn lemma_be16_len(n: int)
    ensures
        #[trigger] be16(n).len() == 2,
{
    reveal(be16);
}

pub broadcast proof fn lemma_be24_len(n: int)
    ensures
        #[trigger] be24(n).len() == 3,
{
    reveal(be24);
}

pub broadcast proof fn lemma_be32_len(n: int)
    ensures
        #[trigger] be32(n).len() == 4,
{
    reveal(be32);
}

/// How many bytes numbers take.
pub broadcast group group_be_len {
    lemma_be16_len,
    lemma_be24_len,
    lemma_be32_len,
}

/// The number that a byte sequence spells out, most significant byte first.
pub open spec fn number_of(s: Seq<u8>) -> int
    decreases s.len(),
{
    if s.len() == 0 {
        0
    } else {
        number_of(s.drop_last()) * 0x100 + s.last()
    }
}

/// Two bytes spell out a number below 2^16.
pub proof fn lemma_number_of_two(s: Seq<u8>)
    requires
        s.len() == 2,
    ensures
        number_of(s) == s[0] * 0x100 + s[1],
        be16(number_of(s)) == s,
{
    reveal(be16);
    reveal_with_fuel(number_of, 3);
    assert(s.drop_last().last() == s[0]);
    assert(be16(number_of(s)) =~= s);
}

/// Three bytes spell out a number below 2^24.
pub proof fn lemma_number_of_three(s: Seq<u8>)
    requires
        s.len() == 3,
    ensures
        number_of(s) == s[0] * 0x1_0000 + s[1] * 0x100 + s[2],
        be24(number_of(s)) == s,
{
    reveal(be24);
    reveal_with_fuel(number_of, 4);
    assert(s.drop_last().last() == s[1]);
    assert(s.drop_last().drop_last().last() == s[0]);
    let n = number_of(s);
    assert(n / 0x1_0000 % 0x100 == s[0]);
    assert(n / 0x100 % 0x100 == s[1]);
    assert(n % 0x100 == s[2]);
    assert(be24(n) =~= s);
}

/// Four bytes spell out a number below 2^32.
pub proof fn lemma_number_of_four(s: Seq<u8>)
    requires
        s.len() == 4,
    ensures
        number_of(s) == s[0] * 0x100_0000 + s[1] * 0x1_0000 + s[2] * 0x100 + s[3],
        be32(number_of(s)) == s,
{
    reveal(be32);
    reveal_with_fuel(number_of, 5);
    assert(s.drop_last().last() == s[2]);
    assert(s.drop_last().drop_last().last() == s[1]);
    assert(s.drop_last().drop_last().drop_last().last() == s[0]);
    let n = number_of(s);
    assert(n / 0x100_0000 % 0x100 == s[0]);
    assert(n / 0x1_0000 % 0x100 == s[1]);
    assert(n / 0x100 % 0x100 == s[2]);
    assert(n % 0x100 == s[3]);
    assert(be32(n) =~= s);
}

/// A 16-bit number is determined by its bytes.
pub proof fn lemma_be16(n: int)
    requires
        0 <= n < 0x1_0000,
    ensures
        number_of(be16(n)) == n,
{
    reveal(be16);
    lemma_number_of_two(be16(n));
    assert(n / 0x100 % 0x100 * 0x100 + n % 0x100 == n);
}

/// A 24-bit number is determined by its bytes.
pub proof fn lemma_be24(n: int)
    requires
        0 <= n < 0x100_0000,
    ensures
        number_of(be24(n)) == n,
{
    reveal(be24);
    lemma_number_of_three(be24(n));
    assert(n / 0x1_0000 % 0x100 * 0x1_0000 + n / 0x100 % 0x100 * 0x100 + n % 0x100 == n);
}

/// A 32-bit number is determined by its bytes.
pub proof fn lemma_be32(n: int)
    requires
        0 <= n < 0x1_0000_0000,
    ensures
        number_of(be32(n)) == n,
{
    reveal(be32);
    lemma_number_of_four(be32(n));
    assert(n / 0x100_0000 % 0x100 * 0x100_0000 + n / 0x1_0000 % 0x100 * 0x1_0000 + n / 0x100 % 0x100 * 0x100 + n % 0x100
        == n);
}

/// Eight bytes spell out what their two halves do.
pub proof fn lemma_number_of_eight(s: Seq<u8>)
    requires
        s.len() == 8,
    ensures
        number_of(s) == number_of(s.take(4)) * 0x1_0000_0000 + number_of(s.skip(4)),
        0 <= number_of(s.take(4)) < 0x1_0000_0000,
        0 <= number_of(s.skip(4)) < 0x1_0000_0000,
{
    lemma_number_of_four(s.take(4));
    lemma_number_of_four(s.skip(4));
    reveal_with_fuel(number_of, 5);
    assert(s.drop_last().drop_last().drop_last().drop_last() =~= s.take(4));
    assert(s.drop_last().last() == s[6]);
    assert(s.drop_last().drop_last().last() == s[5]);
    assert(s.drop_last().drop_last().drop_last().last() == s[4]);
}

/// A 64-bit number is determined by its bytes.
pub proof fn lemma_be64(n: int)
    requires
        0 <= n < 0x1_0000_0000_0000_0000,
    ensures
        number_of(be64(n)) == n,
{
    broadcast use group_be_len;

    let s = be64(n);
    let a = be32(n / 0x1_0000_0000);
    let b = be32(n % 0x1_0000_0000);
    lemma_number_of_eight(s);
    assert((a + b).take(4) =~= a);
    assert((a + b).skip(4) =~= b);
    lemma_be32(n / 0x1_0000_0000);
    lemma_be32(n % 0x1_0000_0000);
}

/// Where two sequences agree, so do their parts of one length.
pub proof fn lemma_split(a: Seq<u8>, b: Seq<u8>, x: Seq<u8>, y: Seq<u8>)
    requires
        a + x == b + y,
        a.len() == b.len(),
    ensures
        a == b,
        x == y,
{
    assert((a + x).take(a.len() as int) =~= a);
    assert((b + y).take(b.len() as int) =~= b);
    assert((a + x).skip(a.len() as int) =~= x);
    assert((b + y).skip(b.len() as int) =~= y);
}

/// Putting sequences together is associative.
pub proof fn lemma_together(a: Seq<u8>, b: Seq<u8>, c: Seq<u8>)
    ensures
        (a + b) + c == a + (b + c),
{
    assert((a + b) + c =~= a + (b + c));
}

/// Appends bytes.
pub fn put_bytes(buf: &mut Vec<u8>, bytes: &[u8])
    ensures
        final(buf)@ == old(buf)@ + bytes@,
{
    let ghost before = buf@;
    assert(bytes@.take(0) =~= Seq::empty());
    for i in 0..bytes.len()
        invariant
            buf@ == before + bytes@.take(i as int),
    {
        buf.push(bytes[i]);
        assert(bytes@.take(i + 1) =~= bytes@.take(i as int).push(bytes@[i as int]));
        assert(buf@ =~= before + bytes@.take(i + 1));
    }
    assert(bytes@.take(bytes@.len() as int) =~= bytes@);
}

/// Appends a 16-bit number.
pub fn put_u16(buf: &mut Vec<u8>, n: u16)
    ensures
        final(buf)@ == old(buf)@ + be16(n as int),
{
    proof {
        reveal(be16);
    }
    let ghost before = buf@;
    buf.push((n / 0x100) as u8);
    buf.push((n % 0x100) as u8);
    assert(buf@ =~= before + be16(n as int));
}

/// Appends the low 24 bits of a number.
pub fn put_u24(buf: &mut Vec<u8>, n: u32)
    ensures
        final(buf)@ == old(buf)@ + be24(n as int),
{
    proof {
        reveal(be24);
    }
    let ghost before = buf@;
    buf.push((n / 0x1_0000 % 0x100) as u8);
    buf.push((n / 0x100 % 0x100) as u8);
    buf.push((n % 0x100) as u8);
    assert(buf@ =~= before + be24(n as int));
}

/// Appends a 32-bit number.
pub fn put_u32(buf: &mut Vec<u8>, n: u32)
    ensures
        final(buf)@ == old(buf)@ + be32(n as int),
{
    proof {
        reveal(be32);
    }
    let ghost before = buf@;
    buf.push((n / 0x100_0000) as u8);
    buf.push((n / 0x1_0000 % 0x100) as u8);
    buf.push((n / 0x100 % 0x100) as u8);
    buf.push((n % 0x100) as u8);
    assert(buf@ =~= before + be32(n as int));
}

/// Appends a 64-bit number.
pub fn put_u64(buf: &mut Vec<u8>, n: u64)
    ensures
        final(buf)@ == old(buf)@ + be64(n as int),
{
    broadcast use group_be_len;

    let ghost before = buf@;
    put_u32(buf, (n / 0x1_0000_0000) as u32);
    put_u32(buf, (n % 0x1_0000_0000) as u32);
    assert(buf@ =~= before + be64(n as int));
}

} // verus!
