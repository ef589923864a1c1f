//! Hexadecimal text for identifiers and addresses.

use vstd::prelude::*;
use vstd::string::StringExecFns;

verus! {

/// The lower-case hexadecimal digit of a value below sixteen.
pub open spec fn hex_digit(d: int) -> char {
    if d < 10 {
        ('0' as int + d) as char
    } else {
        ('a' as int + (d - 10)) as char
    }
}

/// The two lower-case hexadecimal digits of a byte.
pub open spec fn hex_byte(b: u8) -> Seq<char> {
    seq![hex_digit(b as int / 16), hex_digit(b as int % 16)]
}

/// The hexadecimal digits of a sequence of bytes, two for each.
pub open spec fn hex_bytes(s: Seq<u8>) -> Seq<char>
    decreases s.len(),
{
    if s.len() == 0 {
        Seq::empty()
    } else {
        hex_bytes(s.drop_last()) + hex_byte(s.last())
    }
}

fn digit_text(d: u8) -> (text: &'static str)
    requires
        d < 16,
    ensures
        text@ == seq![hex_digit(d as int)],
{
    proof {
        reveal_strlit("0");
        reveal_strlit("1");
        reveal_strlit("2");
        reveal_strlit("3");
        reveal_strlit("4");
        reveal_strlit("5");
        reveal_strlit("6");
        reveal_strlit("7");
        reveal_strlit("8");
        reveal_strlit("9");
        reveal_strlit("a");
        reveal_strlit("b");
        reveal_strlit("c");
        reveal_strlit("d");
        reveal_strlit("e");
        reveal_strlit("f");
    }
    let text: &'static str = match d {
        0 => "0",
        1 => "1",
        2 => "2",
        3 => "3",
        4 => "4",
        5 => "5",
        6 => "6",
        7 => "7",
        8 => "8",
        9 => "9",
        10 => "a",
        11 => "b",
        12 => "c",
        13 => "d",
        14 => "e",
        _ => "f",
    };
    assert(text@ =~= seq![hex_digit(d as int)]);
    text
}

/// Appends the two hexadecimal digits of a byte.
pub fn push_hex_byte(text: &mut String, byte: u8)
    ensures
        final(text)@ == old(text)@ + hex_byte(byte),
{
    text.append(digit_text(byte / 16));
    text.append(digit_text(byte % 16));
    assert(text@ =~= old(text)@ + hex_byte(byte));
}

/// Appends the hexadecimal digits of each byte in turn.
pub fn push_hex_bytes(text: &mut String, bytes: &[u8])
    ensures
        final(text)@ == old(text)@ + hex_bytes(bytes@),
{
    assert(text@ =~= old(text)@ + hex_bytes(bytes@.take(0)));
    for i in 0..bytes.len()
        invariant
            text@ == old(text)@ + hex_bytes(bytes@.take(i as int)),
    {
        push_hex_byte(text, bytes[i]);
        proof {
            assert(bytes@.take(i + 1).drop_last() =~= bytes@.take(i as int));
            assert(text@ =~= old(text)@ + hex_bytes(bytes@.take(i + 1)));
        }
    }
    assert(bytes@.take(bytes@.len() as int) =~= bytes@);
}

} // verus!
