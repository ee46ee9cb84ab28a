//! Byte strings as text: two hexadecimal digits for each byte.

use vstd::prelude::*;
use vstd::string::StringExecFns;

verus! {

/// The sixteen digits, in the order of their values.
pub open spec fn digits() -> Seq<char> {
    seq!['0', '1', '2', '3', '4', '5', '6', '7', '8', '9', 'a', 'b', 'c', 'd', 'e', 'f']
}

/// The value of a hexadecimal digit, in lower or upper case.
pub open spec fn spec_digit_value(c: char) -> Option<u8> {
    match c {
        '0' => Some(0u8),
        '1' => Some(1u8),
        '2' => Some(2u8),
        '3' => Some(3u8),
        '4' => Some(4u8),
        '5' => Some(5u8),
        '6' => Some(6u8),
        '7' => Some(7u8),
        '8' => Some(8u8),
        '9' => Some(9u8),
        'a' | 'A' => Some(10u8),
        'b' | 'B' => Some(11u8),
        'c' | 'C' => Some(12u8),
        'd' | 'D' => Some(13u8),
        'e' | 'E' => Some(14u8),
        'f' | 'F' => Some(15u8),
        _ => None,
    }
}

/// The text that stands for `bytes`: for each byte the digit of its upper
/// half and the digit of its lower half.
pub open spec fn hex_of(bytes: Seq<u8>) -> Seq<char>
    decreases bytes.len(),
{
    if bytes.len() == 0 {
        Seq::empty()
    } else {
        hex_of(bytes.drop_last()).push(digits()[(bytes.last() / 16) as int]).push(
            digits()[(bytes.last() % 16) as int],
        )
    }
}

/// The bytes that `text` stands for, where it is made of pairs of digits.
pub open spec fn bytes_of(text: Seq<char>) -> Option<Seq<u8>>
    decreases text.len(),
{
    if text.len() == 0 {
        Some(Seq::empty())
    } else if text.len() == 1 {
        None
    } else {
        match (
            bytes_of(text.take(text.len() - 2)),
            spec_digit_value(text[text.len() - 2]),
            spec_digit_value(text[text.len() - 1]),
        ) {
            (Some(bytes), Some(high), Some(low)) => Some(bytes.push((high * 16 + low) as u8)),
            _ => None,
        }
    }
}

/// The value of a hexadecimal digit, in lower or upper case.
pub fn digit_value(c: char) -> (value: Option<u8>)
    ensures
        value == spec_digit_value(c),
        value matches Some(v) ==> v < 16,
{
    match c {
        '0' => Some(0),
        '1' => Some(1),
        '2' => Some(2),
        '3' => Some(3),
        '4' => Some(4),
        '5' => Some(5),
        '6' => Some(6),
        '7' => Some(7),
        '8' => Some(8),
        '9' => Some(9),
        'a' | 'A' => Some(10),
        'b' | 'B' => Some(11),
        'c' | 'C' => Some(12),
        'd' | 'D' => Some(13),
        'e' | 'E' => Some(14),
        'f' | 'F' => Some(15),
        _ => None,
    }
}

/// The text that stands for `bytes`.
pub fn to_hex(bytes: &[u8]) -> (text: String)
    ensures
        text@ == hex_of(bytes@),
{
    let all = "0123456789abcdef";
    proof {
        reveal_strlit("0123456789abcdef");
        assert(all@ =~= digits());
    }
    let mut text = String::new();
    let mut i: usize = 0;
    while i < bytes.len()
        invariant
            i <= bytes.len(),
            all@ == digits(),
            all.is_ascii(),
            text@ == hex_of(bytes@.take(i as int)),
        decreases bytes.len() - i,
    {
        let high = (bytes[i] / 16) as usize;
        let low = (bytes[i] % 16) as usize;
        text.append(all.substring_ascii(high, high + 1));
        text.append(all.substring_ascii(low, low + 1));
        proof {
            let taken = bytes@.take(i + 1);
            assert(taken.drop_last() =~= bytes@.take(i as int));
            assert(taken.last() == bytes@[i as int]);
            assert(digits().subrange(high as int, high + 1) =~= seq![digits()[high as int]]);
            assert(digits().subrange(low as int, low + 1) =~= seq![digits()[low as int]]);
            assert(text@ =~= hex_of(taken));
        }
        i += 1;
    }
    proof {
        assert(bytes@.take(i as int) =~= bytes@);
    }
    text
}

/// A text of odd length stands for no bytes.
proof fn lemma_odd_length(text: Seq<char>)
    requires
        text.len() % 2 == 1,
    ensures
        bytes_of(text) is None,
    decreases text.len(),
{
    if text.len() > 1 {
        lemma_odd_length(text.take(text.len() - 2));
    }
}

/// Where a head of even length stands for no bytes, the whole does not either.
proof fn lemma_head_fails(text: Seq<char>, k: int)
    requires
        0 <= k <= text.len(),
        k % 2 == 0,
        text.len() % 2 == 0,
        bytes_of(text.take(k)) is None,
    ensures
        bytes_of(text) is None,
    decreases text.len() - k,
{
    if k == text.len() {
        assert(text.take(k) =~= text);
    } else {
        let shorter = text.take(text.len() - 2);
        assert(shorter.take(k) =~= text.take(k));
        lemma_head_fails(shorter, k);
    }
}

/// The bytes that `text` stands for, where it is made of pairs of digits.
pub fn from_hex(text: &str) -> (bytes: Option<Vec<u8>>)
    ensures
        match bytes {
            Some(bytes) => bytes_of(text@) == Some(bytes@),
            None => bytes_of(text@) is None,
        },
{
    let n = text.unicode_len();
    if n % 2 != 0 {
        proof {
            lemma_odd_length(text@);
        }
        return None;
    }
    let mut bytes: Vec<u8> = Vec::new();
    let mut i: usize = 0;
    while i < n
        invariant
            n == text@.len(),
            n % 2 == 0,
            i % 2 == 0,
            i <= n,
            bytes_of(text@.take(i as int)) == Some(bytes@),
        decreases n - i,
    {
        let high = digit_value(text.get_char(i));
        let low = digit_value(text.get_char(i + 1));
        proof {
            let head = text@.take(i + 2);
            assert(head.take(head.len() - 2) =~= text@.take(i as int));
            assert(head[head.len() - 2] == text@[i as int]);
            assert(head[head.len() - 1] == text@[i + 1]);
        }
        match (high, low) {
            (Some(high), Some(low)) => {
                bytes.push(high * 16 + low);
            },
            _ => {
                proof {
                    lemma_head_fails(text@, i + 2);
                }
                return None;
            },
        }
        i += 2;
    }
    proof {
        assert(text@.take(i as int) =~= text@);
    }
    Some(bytes)
}

/// Every digit has the value of its position among the digits.
proof fn lemma_digit_values(n: u8)
    requires
        n < 16,
    ensures
        spec_digit_value(digits()[n as int]) == Some(n),
{
}

/// The text that stands for some bytes stands for those bytes, and no others.
pub proof fn lemma_hex_round_trip(bytes: Seq<u8>)
    ensures
        bytes_of(hex_of(bytes)) == Some(bytes),
        hex_of(bytes).len() == 2 * bytes.len(),
    decreases bytes.len(),
{
    if bytes.len() > 0 {
        let head = bytes.drop_last();
        let last = bytes.last();
        lemma_hex_round_trip(head);
        let text = hex_of(bytes);
        assert(text.take(text.len() - 2) =~= hex_of(head));
        lemma_digit_values(last / 16);
        lemma_digit_values(last % 16);
        assert(((last / 16) * 16 + last % 16) as u8 == last);
        assert(head.push(last) =~= bytes);
    }
}

} // verus!
