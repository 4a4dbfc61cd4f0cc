//! Session tokens: generation of fresh tokens, and the canonical text form
//! in which a token travels over the wire — thirty-two lower-case
//! hexadecimal digits in five hyphen-separated groups.

use crate::authentication::Token;
use vstd::prelude::*;
use vstd::string::{StrSliceExecFns, StringExecFns};

verus! {

/// Relies on `uuid::Uuid::new_v4` and `uuid::Uuid::as_u128`: a freshly drawn
/// random 128-bit value. Nothing is assumed of the result; it depends on the
/// generator's randomness, so every caller must be correct for any value.
#[verifier::external_body]
pub fn fresh_token() -> Token {
    uuid::Uuid::new_v4().as_u128()
}

/// The character for one hexadecimal digit, lower case.
pub open spec fn nibble_char(d: int) -> char {
    if d == 0 {
        '0'
    } else if d == 1 {
        '1'
    } else if d == 2 {
        '2'
    } else if d == 3 {
        '3'
    } else if d == 4 {
        '4'
    } else if d == 5 {
        '5'
    } else if d == 6 {
        '6'
    } else if d == 7 {
        '7'
    } else if d == 8 {
        '8'
    } else if d == 9 {
        '9'
    } else if d == 10 {
        'a'
    } else if d == 11 {
        'b'
    } else if d == 12 {
        'c'
    } else if d == 13 {
        'd'
    } else if d == 14 {
        'e'
    } else {
        'f'
    }
}

/// The digit a character stands for, if it is a lower-case hexadecimal
/// digit.
pub open spec fn nibble_value(c: char) -> Option<int> {
    if c == '0' {
        Some(0int)
    } else if c == '1' {
        Some(1int)
    } else if c == '2' {
        Some(2int)
    } else if c == '3' {
        Some(3int)
    } else if c == '4' {
        Some(4int)
    } else if c == '5' {
        Some(5int)
    } else if c == '6' {
        Some(6int)
    } else if c == '7' {
        Some(7int)
    } else if c == '8' {
        Some(8int)
    } else if c == '9' {
        Some(9int)
    } else if c == 'a' {
        Some(10int)
    } else if c == 'b' {
        Some(11int)
    } else if c == 'c' {
        Some(12int)
    } else if c == 'd' {
        Some(13int)
    } else if c == 'e' {
        Some(14int)
    } else if c == 'f' {
        Some(15int)
    } else {
        None
    }
}

/// The `len` low-order hexadecimal digits of `v`, most significant first.
pub open spec fn hex_chars(v: int, len: nat) -> Seq<char>
    decreases len,
{
    if len == 0 {
        Seq::<char>::empty()
    } else {
        hex_chars(v / 16, (len - 1) as nat).push(nibble_char(v % 16))
    }
}

/// The number a sequence of hexadecimal digit characters denotes.
pub open spec fn hex_value(digits: Seq<char>) -> int
    decreases digits.len(),
{
    if digits.len() == 0 {
        0
    } else {
        hex_value(digits.drop_last()) * 16 + nibble_value(digits.last()).unwrap_or(0)
    }
}

pub open spec fn pow16(n: nat) -> int
    decreases n,
{
    if n == 0 {
        1
    } else {
        16 * pow16((n - 1) as nat)
    }
}

/// The canonical text of a token: its thirty-two hexadecimal digits, most
/// significant first, in groups of 8, 4, 4, 4 and 12, separated by hyphens.
pub open spec fn spec_token_text(t: Token) -> Seq<char> {
    let h = hex_chars(t as int, 32);
    h.subrange(0, 8) + seq!['-'] + h.subrange(8, 12) + seq!['-'] + h.subrange(12, 16)
        + seq!['-'] + h.subrange(16, 20) + seq!['-'] + h.subrange(20, 32)
}

/// The thirty-two digit characters of a well-shaped token text, hyphens
/// removed.
pub open spec fn spec_token_digits(s: Seq<char>) -> Seq<char> {
    s.subrange(0, 8) + s.subrange(9, 13) + s.subrange(14, 18) + s.subrange(19, 23) + s.subrange(
        24,
        36,
    )
}

/// Whether `s` is shaped like a token: the right length, hyphens in the
/// right places, hexadecimal digits everywhere else.
pub open spec fn spec_token_shaped(s: Seq<char>) -> bool {
    &&& s.len() == 36
    &&& s[8] == '-'
    &&& s[13] == '-'
    &&& s[18] == '-'
    &&& s[23] == '-'
    &&& forall|i: int|
        0 <= i < 32 ==> (#[trigger] nibble_value(spec_token_digits(s)[i])) is Some
}

/// The token a piece of text denotes, if it is shaped like one.
pub open spec fn spec_parse_token(s: Seq<char>) -> Option<Token> {
    if spec_token_shaped(s) {
        Some(hex_value(spec_token_digits(s)) as u128)
    } else {
        None
    }
}

proof fn lemma_hex_chars_len(v: int, len: nat)
    ensures
        hex_chars(v, len).len() == len,
    decreases len,
{
    if len > 0 {
        lemma_hex_chars_len(v / 16, (len - 1) as nat);
    }
}

proof fn lemma_pow16_pos(n: nat)
    ensures
        pow16(n) >= 1,
    decreases n,
{
    if n > 0 {
        lemma_pow16_pos((n - 1) as nat);
    }
}

proof fn lemma_hex_value_bound(digits: Seq<char>)
    ensures
        0 <= hex_value(digits) < pow16(digits.len()),
    decreases digits.len(),
{
    if digits.len() == 0 {
    } else {
        lemma_hex_value_bound(digits.drop_last());
        let prefix = hex_value(digits.drop_last());
        let d = nibble_value(digits.last()).unwrap_or(0);
        assert(0 <= d < 16);
        assert(prefix * 16 + d < pow16(digits.len())) by {
            assert(pow16(digits.len()) == 16 * pow16((digits.len() - 1) as nat));
            assert(prefix <= pow16((digits.len() - 1) as nat) - 1);
            assert(prefix * 16 <= (pow16((digits.len() - 1) as nat) - 1) * 16)
                by (nonlinear_arith)
                requires
                    prefix <= pow16((digits.len() - 1) as nat) - 1,
            ;
        }
    }
}

/// Reading back the digits of a value below `pow16(len)` gives that value.
proof fn lemma_hex_value_of_chars(v: int, len: nat)
    requires
        0 <= v < pow16(len),
    ensures
        hex_value(hex_chars(v, len)) == v,
        forall|i: int|
            0 <= i < len ==> (#[trigger] nibble_value(hex_chars(v, len)[i])) is Some,
    decreases len,
{
    if len == 0 {
    } else {
        let rest = (len - 1) as nat;
        assert(pow16(len) == 16 * pow16(rest));
        assert(0 <= v / 16 < pow16(rest)) by (nonlinear_arith)
            requires
                0 <= v < 16 * pow16(rest),
                pow16(rest) >= 1,
        {
            lemma_pow16_pos(rest);
        }
        lemma_hex_value_of_chars(v / 16, rest);
        lemma_hex_chars_len(v, len);
        lemma_hex_chars_len(v / 16, rest);
        let h = hex_chars(v, len);
        assert(h.drop_last() =~= hex_chars(v / 16, rest));
        assert(h.last() == nibble_char(v % 16));
        assert(nibble_value(nibble_char(v % 16)) == Some(v % 16));
        assert(hex_value(h) == (v / 16) * 16 + v % 16);
        assert((v / 16) * 16 + v % 16 == v) by (nonlinear_arith);
        assert forall|i: int| 0 <= i < len implies (#[trigger] nibble_value(h[i])) is Some by {
            if i < len - 1 {
                assert(h[i] == hex_chars(v / 16, rest)[i]);
            } else {
                assert(h[i] == nibble_char(v % 16));
            }
        }
    }
}

proof fn lemma_pow16_32()
    ensures
        pow16(32) == 0x1_0000_0000_0000_0000_0000_0000_0000_0000,
{
    reveal_with_fuel(pow16, 33);
}

/// The canonical text of a token is shaped like a token, and parsing it
/// gives the token back.
pub proof fn lemma_token_text_round_trip(t: Token)
    ensures
        spec_parse_token(spec_token_text(t)) == Some(t),
{
    let h = hex_chars(t as int, 32);
    let s = spec_token_text(t);
    lemma_pow16_32();
    lemma_hex_value_of_chars(t as int, 32);
    lemma_hex_chars_len(t as int, 32);
    assert(h.len() == 32);
    assert(s.len() == 36);
    assert(spec_token_digits(s) =~= h);
    assert(s[8] == '-' && s[13] == '-' && s[18] == '-' && s[23] == '-');
    assert(spec_token_shaped(s));
    assert(hex_value(h) == t as int);
    assert(hex_value(spec_token_digits(s)) as u128 == t);
}

/// Writing a number's digits back out gives the digit characters it came
/// from.
proof fn lemma_hex_chars_of_value(digits: Seq<char>)
    requires
        forall|i: int| 0 <= i < digits.len() ==> (#[trigger] nibble_value(digits[i])) is Some,
    ensures
        hex_chars(hex_value(digits), digits.len()) =~= digits,
    decreases digits.len(),
{
    if digits.len() > 0 {
        let prefix = digits.drop_last();
        assert(forall|i: int|
            0 <= i < prefix.len() ==> (#[trigger] nibble_value(prefix[i])) is Some);
        lemma_hex_chars_of_value(prefix);
        lemma_hex_value_bound(prefix);
        lemma_hex_chars_len(hex_value(prefix), prefix.len());
        let d = nibble_value(digits.last()).unwrap_or(0);
        let v = hex_value(digits);
        assert(v == hex_value(prefix) * 16 + d);
        assert(0 <= d < 16);
        assert(v / 16 == hex_value(prefix) && v % 16 == d) by (nonlinear_arith)
            requires
                v == hex_value(prefix) * 16 + d,
                0 <= d < 16,
                hex_value(prefix) >= 0,
        ;
        assert(nibble_char(d) == digits.last());
        assert(hex_chars(v, digits.len()) =~= hex_chars(hex_value(prefix), prefix.len()).push(
            digits.last(),
        ));
    }
}

/// The token texts that parse are exactly the canonical ones: parsing a
/// shaped text and rendering the token again gives the same text back.
pub proof fn lemma_token_text_canonical(s: Seq<char>)
    requires
        spec_parse_token(s) is Some,
    ensures
        spec_token_text(spec_parse_token(s).unwrap()) == s,
{
    let digits = spec_token_digits(s);
    assert(digits.len() == 32);
    lemma_hex_value_bound(digits);
    lemma_pow16_32();
    let t = hex_value(digits) as u128;
    assert(t as int == hex_value(digits));
    lemma_hex_chars_of_value(digits);
    assert(hex_chars(t as int, 32) =~= digits);
    assert(spec_token_text(t) =~= s);
}

fn nibble_of_char(c: char) -> (r: Option<u8>)
    ensures
        match r {
            Some(d) => nibble_value(c) == Some(d as int) && d < 16,
            None => nibble_value(c) is None,
        },
{
    match c {
        '0' => Some(0),
        '1' => Some(1),
        '2' => Some(2),
        '3' => Some(3),
        '4' => Some(4),
        '5' => Some(5),
        '6' => Some(6),
        '7' => Some(7),
        '8' => Some(8),
        '9' => Some(9),
        'a' => Some(10),
        'b' => Some(11),
        'c' => Some(12),
        'd' => Some(13),
        'e' => Some(14),
        'f' => Some(15),
        _ => None,
    }
}

fn char_of_nibble(d: u8) -> (r: &'static str)
    requires
        d < 16,
    ensures
        r@ =~= seq![nibble_char(d as int)],
{
    let r: &'static str = match d {
        0 => "0",
        1 => "1",
        2 => "2",
        3 => "3",
        4 => "4",
        5 => "5",
        6 => "6",
        7 => "7",
        8 => "8",
        9 => "9",
        10 => "a",
        11 => "b",
        12 => "c",
        13 => "d",
        14 => "e",
        _ => "f",
    };
    proof {
        reveal_strlit("0");
        reveal_strlit("1");
        reveal_strlit("2");
        reveal_strlit("3");
        reveal_strlit("4");
        reveal_strlit("5");
        reveal_strlit("6");
        reveal_strlit("7");
        reveal_strlit("8");
        reveal_strlit("9");
        reveal_strlit("a");
        reveal_strlit("b");
        reveal_strlit("c");
        reveal_strlit("d");
        reveal_strlit("e");
        reveal_strlit("f");
    }
    r
}

/// The position in the token text where hexadecimal digit `k` stands: one
/// hyphen precedes it for each completed group.
spec fn text_pos(k: int) -> int {
    k + (if k >= 8 {
        1int
    } else {
        0int
    }) + (if k >= 12 {
        1int
    } else {
        0int
    }) + (if k >= 16 {
        1int
    } else {
        0int
    }) + (if k >= 20 {
        1int
    } else {
        0int
    })
}

/// Render a token in its canonical text form.
#[verifier::loop_isolation(false)]
pub fn format_token(t: Token) -> (r: String)
    ensures
        r@ == spec_token_text(t),
{
    let ghost full = spec_token_text(t);
    proof {
        lemma_hex_chars_len(t as int, 32);
    }

    // Extract the thirty-two digits, least significant first.
    let mut digits: Vec<u8> = Vec::new();
    let mut v: u128 = t;
    let mut c: usize = 0;
    while c < 32
        invariant
            c <= 32,
            digits@.len() == c,
            forall|j: int| 0 <= j < c ==> (#[trigger] digits@[j]) < 16,
            hex_chars(t as int, 32) =~= hex_chars(v as int, (32 - c) as nat) + Seq::new(
                c as nat,
                |j: int| nibble_char(digits@[c - 1 - j] as int),
            ),
        decreases 32 - c,
    {
        let ghost pre = digits@;
        let d = (v % 16) as u8;
        digits.push(d);
        proof {
            assert(hex_chars(v as int, (32 - c) as nat) =~= hex_chars(
                (v as int) / 16,
                (31 - c) as nat,
            ).push(nibble_char((v as int) % 16)));
            assert(Seq::new((c + 1) as nat, |j: int| nibble_char(digits@[c - j] as int))
                =~= seq![nibble_char(d as int)] + Seq::new(
                c as nat,
                |j: int| nibble_char(pre[c - 1 - j] as int),
            ));
            assert(hex_chars(t as int, 32) =~= hex_chars((v / 16) as int, (31 - c) as nat)
                + Seq::new((c + 1) as nat, |j: int| nibble_char(digits@[c - j] as int)));
        }
        v = v / 16;
        c = c + 1;
    }
    proof {
        assert(hex_chars(t as int, 32) =~= Seq::new(
            32,
            |j: int| nibble_char(digits@[31 - j] as int),
        ));
        assert(full.len() == 36);
        assert forall|k: int| 0 <= k < 32 implies full[text_pos(k)] == nibble_char(
            digits@[31 - k] as int,
        ) by {
            assert(full[text_pos(k)] == hex_chars(t as int, 32)[k]);
        }
    }

    // Write them out, most significant first, with the group separators.
    let mut out = String::new();
    let mut k: usize = 0;
    while k < 32
        invariant
            k <= 32,
            out@ =~= full.take(text_pos(k as int)),
        decreases 32 - k,
    {
        let ghost pre = out@;
        let d = digits[31 - k];
        out.append(char_of_nibble(d));
        proof {
            assert(full.take(text_pos(k as int) + 1) =~= full.take(text_pos(k as int)).push(
                full[text_pos(k as int)],
            ));
            assert(out@ =~= full.take(text_pos(k as int) + 1));
        }
        if k == 7 || k == 11 || k == 15 || k == 19 {
            proof {
                reveal_strlit("-");
                assert(full[text_pos(k as int) + 1] == '-');
                assert(full.take(text_pos(k as int) + 2) =~= full.take(
                    text_pos(k as int) + 1,
                ).push('-'));
            }
            out.append("-");
        }
        k = k + 1;
    }
    proof {
        assert(full.take(text_pos(32)) =~= full);
    }
    out
}

/// Parse a token from its canonical text form; any other shape is rejected.
#[verifier::loop_isolation(false)]
pub fn parse_token(s: &str) -> (r: Option<Token>)
    ensures
        r == spec_parse_token(s@),
{
    let n = s.unicode_len();
    if n != 36 {
        return None;
    }
    if !(s.get_char(8) == '-' && s.get_char(13) == '-' && s.get_char(18) == '-' && s.get_char(23)
        == '-') {
        return None;
    }
    let ghost digits = spec_token_digits(s@);
    let mut acc: u128 = 0;
    let mut k: usize = 0;
    while k < 32
        invariant
            k <= 32,
            forall|i: int| 0 <= i < k ==> (#[trigger] nibble_value(digits[i])) is Some,
            acc as int == hex_value(digits.take(k as int)),
        decreases 32 - k,
    {
        // Skip the hyphen before each later group.
        let pos = if k < 8 {
            k
        } else if k < 12 {
            k + 1
        } else if k < 16 {
            k + 2
        } else if k < 20 {
            k + 3
        } else {
            k + 4
        };
        let c = s.get_char(pos);
        proof {
            assert(digits[k as int] == s@[pos as int]);
        }
        let d = match nibble_of_char(c) {
            Some(d) => d,
            None => {
                proof {
                    assert(nibble_value(digits[k as int]) is None);
                }
                return None;
            },
        };
        proof {
            lemma_hex_value_bound(digits.take(k as int));
            lemma_pow16_32();
            assert(pow16(digits.take(k as int).len()) <= pow16(31)) by {
                lemma_pow16_le(digits.take(k as int).len(), 31);
            }
            assert(16 * pow16(31) == pow16(32));
            assert((acc as int) * 16 + d < pow16(32)) by (nonlinear_arith)
                requires
                    (acc as int) < pow16(31),
                    d < 16,
                    16 * pow16(31) == pow16(32),
            ;
            assert(digits.take(k + 1 as int).drop_last() =~= digits.take(k as int));
            assert(digits.take(k + 1 as int).last() == digits[k as int]);
        }
        acc = acc * 16 + (d as u128);
        k = k + 1;
    }
    proof {
        assert(digits.take(32) =~= digits);
        assert(spec_token_shaped(s@));
    }
    Some(acc)
}

proof fn lemma_pow16_le(a: nat, b: nat)
    requires
        a <= b,
    ensures
        pow16(a) <= pow16(b),
    decreases b,
{
    if a < b {
        lemma_pow16_le(a, (b - 1) as nat);
        lemma_pow16_pos((b - 1) as nat);
    }
}

} // verus!
