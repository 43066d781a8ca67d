//! Numbers as text: the address of an allocation as a label, and the name of
//! a dump file.

use vstd::prelude::*;
use vstd::string::StringExecFns;

verus! {

/// The character that stands for a digit below sixteen.
pub open spec fn digit_char(d: nat) -> char {
    if d == 0 {
        '0'
    } else if d == 1 {
        '1'
    } else if d == 2 {
        '2'
    } else if d == 3 {
        '3'
    } else if d == 4 {
        '4'
    } else if d == 5 {
        '5'
    } else if d == 6 {
        '6'
    } else if d == 7 {
        '7'
    } else if d == 8 {
        '8'
    } else if d == 9 {
        '9'
    } else if d == 10 {
        'a'
    } else if d == 11 {
        'b'
    } else if d == 12 {
        'c'
    } else if d == 13 {
        'd'
    } else if d == 14 {
        'e'
    } else {
        'f'
    }
}

/// `n` in base sixteen, lower case, without leading zeros.
pub open spec fn hex(n: nat) -> Seq<char>
    decreases n,
{
    if n < 16 {
        seq![digit_char(n)]
    } else {
        hex(n / 16).push(digit_char(n % 16))
    }
}

/// `n` in base ten, without leading zeros.
pub open spec fn decimal(n: nat) -> Seq<char>
    decreases n,
{
    if n < 10 {
        seq![digit_char(n)]
    } else {
        decimal(n / 10).push(digit_char(n % 10))
    }
}

/// The text that labels an allocation: `0x`, then its address in base
/// sixteen.
pub open spec fn pointer_text(addr: usize) -> Seq<char> {
    seq!['0', 'x'] + hex(addr as nat)
}

/// The name of the file that a dump made at `millis` milliseconds after the
/// Unix epoch is written to.
pub open spec fn file_name(millis: u128) -> Seq<char> {
    seq!['m', 'e', 'm', '.'] + decimal(millis as nat) + seq!['.', 'p', 'b']
}

/// One digit as a string slice.
fn digit_str(d: u8) -> (s: &'static str)
    requires
        d < 16,
    ensures
        s@ == seq![digit_char(d as nat)],
{
    proof {
        reveal_strlit("0");
        reveal_strlit("1");
        reveal_strlit("2");
        reveal_strlit("3");
        reveal_strlit("4");
        reveal_strlit("5");
        reveal_strlit("6");
        reveal_strlit("7");
        reveal_strlit("8");
        reveal_strlit("9");
        reveal_strlit("a");
        reveal_strlit("b");
        reveal_strlit("c");
        reveal_strlit("d");
        reveal_strlit("e");
        reveal_strlit("f");
    }
    let s = if d == 0 {
        "0"
    } else if d == 1 {
        "1"
    } else if d == 2 {
        "2"
    } else if d == 3 {
        "3"
    } else if d == 4 {
        "4"
    } else if d == 5 {
        "5"
    } else if d == 6 {
        "6"
    } else if d == 7 {
        "7"
    } else if d == 8 {
        "8"
    } else if d == 9 {
        "9"
    } else if d == 10 {
        "a"
    } else if d == 11 {
        "b"
    } else if d == 12 {
        "c"
    } else if d == 13 {
        "d"
    } else if d == 14 {
        "e"
    } else {
        "f"
    };
    assert(s@ =~= seq![digit_char(d as nat)]);
    s
}

/// Renders the label of the allocation at `addr`.
pub fn pointer_label(addr: usize) -> (text: String)
    ensures
        text@ == pointer_text(addr),
{
    let mut n: usize = addr;
    let mut digits = String::from_str(digit_str((n % 16) as u8));
    n = n / 16;
    while n > 0
        invariant
            hex(addr as nat) == if n == 0 {
                digits@
            } else {
                hex(n as nat) + digits@
            },
        decreases n,
    {
        let low = digit_str((n % 16) as u8);
        proof {
            assert(hex(n as nat) + digits@ =~= if n < 16 {
                low@ + digits@
            } else {
                hex((n / 16) as nat) + (low@ + digits@)
            });
        }
        digits = String::from_str(low).concat(digits.as_str());
        n = n / 16;
    }
    proof {
        reveal_strlit("0x");
    }
    let text = String::from_str("0x").concat(digits.as_str());
    assert(text@ =~= pointer_text(addr));
    text
}

/// Names the file for a dump made at `millis` milliseconds after the Unix
/// epoch.
pub fn dump_file_name(millis: u128) -> (name: String)
    ensures
        name@ == file_name(millis),
{
    let mut n: u128 = millis;
    let mut digits = String::from_str(digit_str((n % 10) as u8));
    n = n / 10;
    while n > 0
        invariant
            decimal(millis as nat) == if n == 0 {
                digits@
            } else {
                decimal(n as nat) + digits@
            },
        decreases n,
    {
        let low = digit_str((n % 10) as u8);
        proof {
            assert(decimal(n as nat) + digits@ =~= if n < 10 {
                low@ + digits@
            } else {
                decimal((n / 10) as nat) + (low@ + digits@)
            });
        }
        digits = String::from_str(low).concat(digits.as_str());
        n = n / 10;
    }
    proof {
        reveal_strlit("mem.");
        reveal_strlit(".pb");
    }
    let name = String::from_str("mem.").concat(digits.as_str()).concat(".pb");
    assert(name@ =~= file_name(millis));
    name
}

/// Different digits have different characters.
proof fn lemma_digit_char_injective(a: nat, b: nat)
    requires
        a < 16,
        b < 16,
        digit_char(a) == digit_char(b),
    ensures
        a == b,
{
}

/// A number of two or more digits has a longer text than a single digit.
proof fn lemma_hex_len(n: nat)
    ensures
        hex(n).len() >= 1,
        n >= 16 ==> hex(n).len() >= 2,
    decreases n,
{
    if n >= 16 {
        lemma_hex_len(n / 16);
    }
}

/// Different numbers have different texts in base sixteen.
pub proof fn lemma_hex_injective(a: nat, b: nat)
    requires
        hex(a) == hex(b),
    ensures
        a == b,
    decreases a,
{
    lemma_hex_len(a);
    lemma_hex_len(b);
    if a < 16 && b < 16 {
        assert(hex(a)[0] == digit_char(a));
        assert(hex(b)[0] == digit_char(b));
        lemma_digit_char_injective(a, b);
    } else if a >= 16 && b >= 16 {
        let x = hex(a / 16).push(digit_char(a % 16));
        let y = hex(b / 16).push(digit_char(b % 16));
        assert(x.drop_last() =~= hex(a / 16));
        assert(y.drop_last() =~= hex(b / 16));
        assert(x.last() == digit_char(a % 16));
        assert(y.last() == digit_char(b % 16));
        lemma_digit_char_injective(a % 16, b % 16);
        lemma_hex_injective(a / 16, b / 16);
    }
}

/// Different addresses have different labels.
pub proof fn lemma_pointer_text_injective(a: usize, b: usize)
    ensures
        pointer_text(a) == pointer_text(b) ==> a == b,
{
    if pointer_text(a) == pointer_text(b) {
        let prefix = seq!['0', 'x'];
        assert((prefix + hex(a as nat)).subrange(2, (2 + hex(a as nat).len()) as int) =~= hex(
            a as nat,
        ));
        assert((prefix + hex(b as nat)).subrange(2, (2 + hex(b as nat).len()) as int) =~= hex(
            b as nat,
        ));
        lemma_hex_injective(a as nat, b as nat);
    }
}

} // verus!
