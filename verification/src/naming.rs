//! Names for classes that a pointer refers to without naming them.

use vstd::prelude::*;
use vstd::string::StringExecFns;

verus! {

/// The upper-case hexadecimal digit of a value below 16.
pub open spec fn hex_digit(d: nat) -> char {
    if d == 0 {
        '0'
    } else if d == 1 {
        '1'
    } else if d == 2 {
        '2'
    } else if d == 3 {
        '3'
    } else if d == 4 {
        '4'
    } else if d == 5 {
        '5'
    } else if d == 6 {
        '6'
    } else if d == 7 {
        '7'
    } else if d == 8 {
        '8'
    } else if d == 9 {
        '9'
    } else if d == 10 {
        'A'
    } else if d == 11 {
        'B'
    } else if d == 12 {
        'C'
    } else if d == 13 {
        'D'
    } else if d == 14 {
        'E'
    } else {
        'F'
    }
}

/// The upper-case hexadecimal numeral of `n`, without prefix or leading zeros.
pub open spec fn upper_hex(n: nat) -> Seq<char>
    decreases n,
{
    if n < 16 {
        seq![hex_digit(n)]
    } else {
        upper_hex(n / 16).push(hex_digit(n % 16))
    }
}

/// The name of the class made up for an unnamed pointer at `offset`: the
/// letter `C` and the offset as an upper-case hexadecimal numeral.
pub open spec fn placeholder_name(offset: nat) -> Seq<char> {
    seq!['C'] + upper_hex(offset)
}

/// Different numbers have different numerals.
pub proof fn lemma_upper_hex_injective(a: nat, b: nat)
    requires
        upper_hex(a) == upper_hex(b),
    ensures
        a == b,
    decreases a,
{
    let ha = upper_hex(a);
    let hb = upper_hex(b);
    if a < 16 && b < 16 {
        assert(ha[0] == hb[0]);
    } else if a >= 16 && b >= 16 {
        assert(ha.drop_last() =~= upper_hex(a / 16));
        assert(hb.drop_last() =~= upper_hex(b / 16));
        assert(ha.last() == hex_digit(a % 16));
        assert(hb.last() == hex_digit(b % 16));
        lemma_upper_hex_injective(a / 16, b / 16);
    } else if a >= 16 {
        lemma_upper_hex_len(a / 16);
        assert(ha.len() >= 2);
        assert(hb.len() == 1);
    } else {
        lemma_upper_hex_len(b / 16);
        assert(hb.len() >= 2);
        assert(ha.len() == 1);
    }
}

/// A numeral has at least one digit.
pub proof fn lemma_upper_hex_len(n: nat)
    ensures
        upper_hex(n).len() >= 1,
    decreases n,
{
    if n >= 16 {
        lemma_upper_hex_len(n / 16);
    }
}

/// Pointers at different offsets get different placeholder names.
pub proof fn lemma_placeholder_names_differ(a: nat, b: nat)
    requires
        a != b,
    ensures
        placeholder_name(a) != placeholder_name(b),
{
    if placeholder_name(a) == placeholder_name(b) {
        assert(placeholder_name(a).subrange(1, placeholder_name(a).len() as int) =~= upper_hex(a));
        assert(placeholder_name(b).subrange(1, placeholder_name(b).len() as int) =~= upper_hex(b));
        lemma_upper_hex_injective(a, b);
    }
}

/// The text of one upper-case hexadecimal digit.
fn digit_text(d: usize) -> (text: &'static str)
    requires
        d < 16,
    ensures
        text@ == seq![hex_digit(d as nat)],
{
    proof {
        reveal_strlit("0");
        reveal_strlit("1");
        reveal_strlit("2");
        reveal_strlit("3");
        reveal_strlit("4");
        reveal_strlit("5");
        reveal_strlit("6");
        reveal_strlit("7");
        reveal_strlit("8");
        reveal_strlit("9");
        reveal_strlit("A");
        reveal_strlit("B");
        reveal_strlit("C");
        reveal_strlit("D");
        reveal_strlit("E");
        reveal_strlit("F");
    }
    let text = match d {
        0 => "0",
        1 => "1",
        2 => "2",
        3 => "3",
        4 => "4",
        5 => "5",
        6 => "6",
        7 => "7",
        8 => "8",
        9 => "9",
        10 => "A",
        11 => "B",
        12 => "C",
        13 => "D",
        14 => "E",
        _ => "F",
    };
    assert(text@ =~= seq![hex_digit(d as nat)]);
    text
}

/// Writes the upper-case hexadecimal numeral of `n` behind `text`.
fn push_upper_hex(text: &mut String, n: usize)
    ensures
        final(text)@ == old(text)@ + upper_hex(n as nat),
    decreases n,
{
    if n >= 16 {
        push_upper_hex(text, n / 16);
    }
    text.append(digit_text(n % 16));
    proof {
        if n >= 16 {
            assert(final(text)@ =~= old(text)@ + upper_hex((n / 16) as nat).push(
                hex_digit((n % 16) as nat),
            ));
        }
    }
}

/// The name of the class made up for an unnamed pointer at `offset`.
pub fn placeholder(offset: usize) -> (name: String)
    ensures
        name@ == placeholder_name(offset as nat),
{
    proof {
        reveal_strlit("C");
    }
    let mut name = "C".to_owned();
    assert(name@ =~= seq!['C']);
    push_upper_hex(&mut name, offset);
    name
}

} // verus!
