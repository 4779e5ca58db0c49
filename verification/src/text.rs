//! Numbers and session tokens as text.

use vstd::prelude::*;
use vstd::string::StringExecFns;
use vstd::string::StrSliceExecFns;

verus! {

/// The character of a digit below ten.
pub open spec fn digit_char(d: int) -> char {
    if d == 0 {
        '0'
    } else if d == 1 {
        '1'
    } else if d == 2 {
        '2'
    } else if d == 3 {
        '3'
    } else if d == 4 {
        '4'
    } else if d == 5 {
        '5'
    } else if d == 6 {
        '6'
    } else if d == 7 {
        '7'
    } else if d == 8 {
        '8'
    } else {
        '9'
    }
}

/// A number in decimal digits, without leading zeros.
pub open spec fn decimal(n: nat) -> Seq<char>
    decreases n,
{
    if n < 10 {
        seq![digit_char(n as int)]
    } else {
        decimal(n / 10).push(digit_char((n % 10) as int))
    }
}

fn digit_text(d: u64) -> (s: &'static str)
    requires
        d < 10,
    ensures
        s@ == seq![digit_char(d as int)],
{
    let s = if d == 0 {
        "0"
    } else if d == 1 {
        "1"
    } else if d == 2 {
        "2"
    } else if d == 3 {
        "3"
    } else if d == 4 {
        "4"
    } else if d == 5 {
        "5"
    } else if d == 6 {
        "6"
    } else if d == 7 {
        "7"
    } else if d == 8 {
        "8"
    } else {
        "9"
    };
    proof {
        reveal_strlit("0");
        reveal_strlit("1");
        reveal_strlit("2");
        reveal_strlit("3");
        reveal_strlit("4");
        reveal_strlit("5");
        reveal_strlit("6");
        reveal_strlit("7");
        reveal_strlit("8");
        reveal_strlit("9");
        assert(s@ =~= seq![digit_char(d as int)]);
    }
    s
}

/// Writes a number in decimal digits.
pub fn number_text(n: u64) -> (s: String)
    ensures
        s@ == decimal(n as nat),
    decreases n,
{
    if n < 10 {
        String::from_str(digit_text(n))
    } else {
        let mut s = number_text(n / 10);
        s.append(digit_text(n % 10));
        s
    }
}

/// The character of a hexadecimal digit, letters in lower case.
pub open spec fn hex_char(d: int) -> char {
    if d < 10 {
        digit_char(d)
    } else if d == 10 {
        'a'
    } else if d == 11 {
        'b'
    } else if d == 12 {
        'c'
    } else if d == 13 {
        'd'
    } else if d == 14 {
        'e'
    } else {
        'f'
    }
}

/// The last `digits` hexadecimal digits of a number, lower case.
pub open spec fn hex_digits(n: nat, digits: nat) -> Seq<char>
    decreases digits,
{
    if digits == 0 {
        Seq::<char>::empty()
    } else {
        hex_digits(n / 16, (digits - 1) as nat).push(hex_char((n % 16) as int))
    }
}

/// A session token as text: 32 hexadecimal digits, lower case.
pub open spec fn token_text(token: u128) -> Seq<char> {
    hex_digits(token as nat, 32)
}

fn hex_text(d: u128) -> (s: &'static str)
    requires
        d < 16,
    ensures
        s@ == seq![hex_char(d as int)],
{
    if d < 10 {
        digit_text(d as u64)
    } else {
        let s = if d == 10 {
            "a"
        } else if d == 11 {
            "b"
        } else if d == 12 {
            "c"
        } else if d == 13 {
            "d"
        } else if d == 14 {
            "e"
        } else {
            "f"
        };
        proof {
            reveal_strlit("a");
            reveal_strlit("b");
            reveal_strlit("c");
            reveal_strlit("d");
            reveal_strlit("e");
            reveal_strlit("f");
            assert(s@ =~= seq![hex_char(d as int)]);
        }
        s
    }
}

fn hex_text_of(n: u128, digits: u8) -> (s: String)
    ensures
        s@ == hex_digits(n as nat, digits as nat),
    decreases digits,
{
    if digits == 0 {
        String::new()
    } else {
        let mut s = hex_text_of(n / 16, digits - 1);
        s.append(hex_text(n % 16));
        s
    }
}

/// Writes a session token as 32 hexadecimal digits.
pub fn token_to_text(token: u128) -> (s: String)
    ensures
        s@ == token_text(token),
{
    hex_text_of(token, 32)
}

/// The value of a lower-case hexadecimal digit; nothing for another
/// character.
pub open spec fn hex_value(c: char) -> Option<int> {
    if '0' <= c && c <= '9' {
        Some(c as int - '0' as int)
    } else if 'a' <= c && c <= 'f' {
        Some(c as int - 'a' as int + 10)
    } else {
        None
    }
}

/// The number that a run of lower-case hexadecimal digits writes; nothing
/// where another character stands among them.
pub open spec fn hex_number(s: Seq<char>) -> Option<nat>
    decreases s.len(),
{
    if s.len() == 0 {
        Some(0)
    } else {
        match (hex_number(s.drop_last()), hex_value(s.last())) {
            (Some(high), Some(low)) => Some((high * 16 + low) as nat),
            _ => None,
        }
    }
}

/// The session token that a text writes: the text has to be 32 lower-case
/// hexadecimal digits.
pub open spec fn parse_token_text(s: Seq<char>) -> Option<u128> {
    if s.len() == 32 && hex_number(s) is Some {
        Some(hex_number(s)->Some_0 as u128)
    } else {
        None
    }
}

/// 16 to the `k`.
pub open spec fn sixteen_to(k: nat) -> nat
    decreases k,
{
    if k == 0 {
        1
    } else {
        16 * sixteen_to((k - 1) as nat)
    }
}

/// Reads a session token from its text.
pub fn token_from_text(text: &str) -> (token: Option<u128>)
    ensures
        token == parse_token_text(text@),
{
    if !text.is_ascii() {
        proof {
            lemma_hex_is_ascii(text@);
        }
        return None;
    }
    let n = text.unicode_len();
    if n != 32 {
        return None;
    }
    let mut value: u128 = 0;
    let mut i: usize = 0;
    while i < 32
        invariant
            i <= 32,
            n == 32,
            n == text@.len(),
            text.is_ascii(),
            hex_number(text@.take(i as int)) == Some(value as nat),
            value < sixteen_to(i as nat),
        decreases 32 - i,
    {
        let b: u8 = text.get_ascii(i);
        let ghost c = text@[i as int];
        proof {
            assert('\0' <= c <= '\u{7f}');
            assert(text@.take(i + 1).drop_last() =~= text@.take(i as int));
            assert(text@.take(i + 1).last() == c);
            lemma_pow16_bound(i as nat);
        }
        let digit: u128 = if 48 <= b && b <= 57 {
            (b - 48) as u128
        } else if 97 <= b && b <= 102 {
            (b - 97 + 10) as u128
        } else {
            proof {
                assert(hex_value(c) is None);
                lemma_hex_number_prefix(text@, i + 1);
            }
            return None;
        };
        assert(hex_value(c) == Some(digit as int));
        value = value * 16 + digit;
        i = i + 1;
    }
    proof {
        assert(text@.take(32) =~= text@);
    }
    Some(value)
}

/// 16 to the `k`, for `k` below 32, leaves room for one more digit in 128
/// bits.
proof fn lemma_pow16_bound(k: nat)
    requires
        k < 32,
    ensures
        sixteen_to(k) * 16 <= 0x1_0000_0000_0000_0000_0000_0000_0000_0000,
        sixteen_to(k) > 0,
    decreases 32 - k,
{
    if k == 31 {
        assert(sixteen_to(8) == 0x1_0000_0000) by {
            reveal_with_fuel(sixteen_to, 9);
        }
        assert(sixteen_to(16) == 0x1_0000_0000_0000_0000) by {
            reveal_with_fuel(sixteen_to, 9);
        }
        assert(sixteen_to(24) == 0x1_0000_0000_0000_0000_0000_0000) by {
            reveal_with_fuel(sixteen_to, 9);
        }
        assert(sixteen_to(31) == 0x1000_0000_0000_0000_0000_0000_0000_0000) by {
            reveal_with_fuel(sixteen_to, 8);
        }
    } else {
        lemma_pow16_bound(k + 1);
    }
}

/// A text with a character that is no hexadecimal digit writes no number.
proof fn lemma_hex_number_prefix(s: Seq<char>, k: int)
    requires
        0 <= k <= s.len(),
        hex_number(s.take(k)) is None,
    ensures
        hex_number(s) is None,
    decreases s.len() - k,
{
    if k < s.len() {
        assert(s.take(k + 1).drop_last() =~= s.take(k));
        lemma_hex_number_prefix(s, k + 1);
    } else {
        assert(s.take(k) =~= s);
    }
}

/// A text that writes a hexadecimal number is ASCII.
proof fn lemma_hex_is_ascii(s: Seq<char>)
    ensures
        hex_number(s) is Some ==> vstd::utf8::is_ascii_chars(s),
    decreases s.len(),
{
    if s.len() > 0 {
        lemma_hex_is_ascii(s.drop_last());
        if hex_number(s) is Some {
            assert forall|i: int| 0 <= i < s.len() implies '\0' <= #[trigger] s[i] <= '\u{7f}' by {
                if i < s.len() - 1 {
                    assert(s.drop_last()[i] == s[i]);
                }
            }
        }
    }
}

/// The digits of a number below 16 to the `k` write that number.
proof fn lemma_hex_digits_number(n: nat, k: nat)
    requires
        n < sixteen_to(k),
    ensures
        hex_digits(n, k).len() == k,
        hex_number(hex_digits(n, k)) == Some(n),
    decreases k,
{
    if k > 0 {
        let high = n / 16;
        let low = n % 16;
        assert(high < sixteen_to((k - 1) as nat));
        lemma_hex_digits_number(high, (k - 1) as nat);
        let digits = hex_digits(n, k);
        assert(digits.drop_last() =~= hex_digits(high, (k - 1) as nat));
        assert(digits.last() == hex_char(low as int));
        assert(hex_value(hex_char(low as int)) == Some(low as int));
    }
}

/// The text of a session token reads back as that token: no two tokens
/// have the same text.
pub proof fn lemma_token_text_reads_back(token: u128)
    ensures
        parse_token_text(token_text(token)) == Some(token),
{
    assert(sixteen_to(8) == 0x1_0000_0000) by {
        reveal_with_fuel(sixteen_to, 9);
    }
    assert(sixteen_to(16) == 0x1_0000_0000_0000_0000) by {
        reveal_with_fuel(sixteen_to, 9);
    }
    assert(sixteen_to(24) == 0x1_0000_0000_0000_0000_0000_0000) by {
        reveal_with_fuel(sixteen_to, 9);
    }
    assert(sixteen_to(32) == 0x1_0000_0000_0000_0000_0000_0000_0000_0000) by {
        reveal_with_fuel(sixteen_to, 9);
    }
    lemma_hex_digits_number(token as nat, 32);
}

} // verus!
