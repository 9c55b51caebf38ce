use vstd::prelude::*;

use crate::common::text::push_char;
use crate::common::lut::{
    case_insensitive_index, lemma_last_position_bounds, lemma_last_position_distinct,
    lower_alphabet, upper_alphabet, AsciiLut,
};

verus! {

/// The character of the base-27 alphabet for digit value `v` (0-9, then a-q).
pub open spec fn b27_digit_char(v: int) -> char {
    if v < 10 {
        (48 + v) as char
    } else {
        (87 + v) as char
    }
}

/// The base-27 alphabet.
pub open spec fn b27_alphabet() -> Seq<char> {
    Seq::new(27, |i: int| b27_digit_char(i))
}

/// The value of a base-27 character: a digit, or a letter from a to q in
/// either case.
pub open spec fn b27_char_value(c: char) -> Option<u8> {
    if '0' <= c <= '9' {
        Some((c as int - 48) as u8)
    } else if 'a' <= c <= 'q' {
        Some((c as int - 87) as u8)
    } else if 'A' <= c <= 'Q' {
        Some((c as int - 55) as u8)
    } else {
        None
    }
}

proof fn lemma_b27_alphabet_lookup(c: char)
    ensures
        case_insensitive_index(b27_alphabet(), c) == b27_char_value(c),
{
    let a = b27_alphabet();
    let up = upper_alphabet(a);
    let lo = lower_alphabet(a);
    assert(lo =~= a);
    assert forall|j: int, k: int| 0 <= j < k < a.len() implies a[j] != a[k] by {}
    assert forall|j: int| 0 <= j < 27 implies #[trigger] up[j] == if j < 10 { (48 + j) as char } else { (55 + j) as char } by {}
    assert forall|j: int, k: int| 0 <= j < k < up.len() implies up[j] != up[k] by {}
    lemma_last_position_bounds(a, c);
    lemma_last_position_bounds(up, c);
    if '0' <= c <= '9' {
        let i = c as int - 48;
        assert(a[i] == c);
        lemma_last_position_distinct(a, i);
    } else if 'a' <= c <= 'q' {
        let i = c as int - 87;
        assert(a[i] == c);
        lemma_last_position_distinct(a, i);
    } else if 'A' <= c <= 'Q' {
        let i = c as int - 55;
        assert(up[i] == c);
        lemma_last_position_distinct(up, i);
    }
}

/// The table of the base-27 alphabet, in which letters are found in either case.
fn b27_lut() -> (lut: AsciiLut)
    ensures
        forall|c: char| #[trigger] lut.decode_spec(c) == b27_char_value(c),
        forall|v: u8| v < 27 ==> #[trigger] lut.encode_spec(v) == Some(b27_digit_char(v as int)),
{
    let alphabet: &str = "0123456789abcdefghijklmnopq";
    proof {
        reveal_strlit("0123456789abcdefghijklmnopq");
        assert(alphabet@ =~= b27_alphabet());
    }
    let lut = AsciiLut::from_alphabet_case_insensitive(alphabet);
    assert forall|c: char| #[trigger] lut.decode_spec(c) == b27_char_value(c) by {
        lemma_b27_alphabet_lookup(c);
    }
    lut
}

/// Every digit is a base-3 digit.
pub open spec fn all_trits(ds: Seq<u8>) -> bool {
    forall|i: int| 0 <= i < ds.len() ==> #[trigger] ds[i] < 3
}

/// Every character is a base-27 character.
pub open spec fn all_b27(cs: Seq<char>) -> bool {
    forall|i: int| 0 <= i < cs.len() ==> #[trigger] b27_char_value(cs[i]) is Some
}

/// Digit `j` of `ds`, with zeros past the end.
pub open spec fn trit_or_zero(ds: Seq<u8>, j: int) -> int {
    if j < ds.len() {
        ds[j] as int
    } else {
        0
    }
}

/// The value of the `k`-th group of three digits, most significant first.
pub open spec fn group_value(ds: Seq<u8>, k: int) -> int {
    9 * trit_or_zero(ds, 3 * k) + 3 * trit_or_zero(ds, 3 * k + 1) + trit_or_zero(ds, 3 * k + 2)
}

/// Base-27 text of a sequence of base-3 digits: one character per group of
/// three digits, the last group filled up with zeros.
pub open spec fn b27_encode(ds: Seq<u8>) -> Seq<char> {
    Seq::new(((ds.len() + 2) / 3) as nat, |k: int| b27_digit_char(group_value(ds, k)))
}

/// Base-3 digit `m` (0 the most significant) of a value below 27.
pub open spec fn trit(v: int, m: int) -> u8 {
    if m == 0 {
        ((v / 9) % 3) as u8
    } else if m == 1 {
        ((v / 3) % 3) as u8
    } else {
        (v % 3) as u8
    }
}

/// The base-3 digits of base-27 text: three per character, most significant first.
pub open spec fn b27_decode(cs: Seq<char>) -> Seq<u8> {
    Seq::new(3 * cs.len(), |j: int| trit(b27_char_value(cs[j / 3])->0 as int, j % 3))
}

/// Packs base-3 digits, three to a character, into base-27 text.
pub fn ib3_to_sb27be(digits: &[u8]) -> (res: Result<String, &'static str>)
    ensures
        match res {
            Ok(s) => all_trits(digits@) && s@ == b27_encode(digits@),
            Err(e) => !all_trits(digits@) && e@ == "invalid digit in input"@,
        },
{
    let lut = b27_lut();
    let mut out = String::new();
    let mut num: usize = 0;
    let mut pass: u8 = 0;
    let tri: [u8; 3] = [9, 3, 1];
    let ghost ds = digits@;
    let mut i: usize = 0;
    while i < digits.len()
        invariant
            ds == digits@,
            i <= ds.len(),
            num < 3,
            i == 3 * out@.len() + num,
            tri@ == seq![9u8, 3u8, 1u8],
            forall|c: char| #[trigger] lut.decode_spec(c) == b27_char_value(c),
            forall|v: u8| v < 27 ==> #[trigger] lut.encode_spec(v) == Some(b27_digit_char(v as int)),
            forall|j: int| 0 <= j < i ==> #[trigger] ds[j] < 3,
            out@ =~= Seq::new(out@.len(), |k: int| b27_digit_char(group_value(ds, k))),
            pass == (if num >= 1 { 9 * ds[i - num] } else { 0 }) + (if num >= 2 { 3 * ds[i - num + 1] } else { 0 }),
        decreases ds.len() - i,
    {
        let d = digits[i];
        if d >= 3 {
            return Err("invalid digit in input");
        }
        let w = tri[num];
        assert(w == tri@[num as int]);
        assert(d * w == if num == 0 { 9 * d } else if num == 1 { 3 * d } else { d as int });
        assert(d * w <= 18) by (nonlinear_arith)
            requires
                d < 3,
                w <= 9,
        ;
        pass = pass + d * w;
        num = num + 1;
        i = i + 1;
        if num == 3 {
            let ghost k = out@.len() as int;
            assert(pass == group_value(ds, k));
            let c = lut.encode(pass).unwrap();
            push_char(&mut out, c);
            num = 0;
            pass = 0;
        }
    }
    if num > 0 {
        let ghost k = out@.len() as int;
        assert(pass == group_value(ds, k));
        let c = lut.encode(pass).unwrap();
        push_char(&mut out, c);
    }
    assert(out@ =~= b27_encode(ds));
    Ok(out)
}

/// Unpacks base-27 text into base-3 digits, three per character.
pub fn sb27be_to_ib3(chars: &[char]) -> (res: Result<Vec<u8>, &'static str>)
    ensures
        match res {
            Ok(v) => all_b27(chars@) && v@ == b27_decode(chars@),
            Err(e) => !all_b27(chars@) && e@ == "invalid character in input"@,
        },
{
    let lut = b27_lut();
    let mut out: Vec<u8> = Vec::new();
    let mut i: usize = 0;
    while i < chars.len()
        invariant
            i <= chars@.len(),
            forall|c: char| #[trigger] lut.decode_spec(c) == b27_char_value(c),
            forall|j: int| 0 <= j < i ==> #[trigger] b27_char_value(chars@[j]) is Some,
            out@ =~= b27_decode(chars@.take(i as int)),
        decreases chars@.len() - i,
    {
        let d = match lut.decode(chars[i]) {
            Some(d) => d,
            None => return Err("invalid character in input"),
        };
        let d0 = d % 3;
        let d1 = (d / 3) % 3;
        let d2 = (d / 9) % 3;
        out.push(d2);
        out.push(d1);
        out.push(d0);
        i = i + 1;
        assert(out@ =~= b27_decode(chars@.take(i as int)));
    }
    assert(chars@.take(i as int) =~= chars@);
    Ok(out)
}

/// Digits filled up with zeros to a whole number of groups of three.
pub open spec fn padded_trits(ds: Seq<u8>) -> Seq<u8> {
    Seq::new(3 * ((ds.len() + 2) / 3) as nat, |j: int| trit_or_zero(ds, j) as u8)
}

/// Base-27 text with its letters in lower case.
pub open spec fn b27_lowercase(cs: Seq<char>) -> Seq<char> {
    cs.map_values(|c: char| b27_digit_char(b27_char_value(c)->0 as int))
}

proof fn lemma_digit_char_value(v: int)
    requires
        0 <= v < 27,
    ensures
        b27_char_value(b27_digit_char(v)) == Some(v as u8),
{
}

proof fn lemma_trits_of_group(a: int, b: int, c: int)
    requires
        0 <= a < 3,
        0 <= b < 3,
        0 <= c < 3,
    ensures
        0 <= 9 * a + 3 * b + c < 27,
        trit(9 * a + 3 * b + c, 0) == a,
        trit(9 * a + 3 * b + c, 1) == b,
        trit(9 * a + 3 * b + c, 2) == c,
{
}

proof fn lemma_group_of_trits(v: int)
    requires
        0 <= v < 27,
    ensures
        9 * (trit(v, 0) as int) + 3 * (trit(v, 1) as int) + (trit(v, 2) as int) == v,
        trit(v, 0) < 3,
        trit(v, 1) < 3,
        trit(v, 2) < 3,
{
}

/// Decoding the text of some base-3 digits gives back those digits, followed by
/// the zeros that filled up the last group.
pub proof fn lemma_decode_encode(ds: Seq<u8>)
    requires
        all_trits(ds),
    ensures
        all_b27(b27_encode(ds)),
        b27_decode(b27_encode(ds)) == padded_trits(ds),
        b27_decode(b27_encode(ds)).take(ds.len() as int) == ds,
{
    let e = b27_encode(ds);
    assert forall|k: int| 0 <= k < e.len() implies b27_char_value(#[trigger] e[k]) == Some(group_value(ds, k) as u8) by {
        lemma_trits_of_group(trit_or_zero(ds, 3 * k), trit_or_zero(ds, 3 * k + 1), trit_or_zero(ds, 3 * k + 2));
        lemma_digit_char_value(group_value(ds, k));
    }
    assert forall|j: int| 0 <= j < 3 * e.len() implies #[trigger] b27_decode(e)[j] == padded_trits(ds)[j] by {
        let k = j / 3;
        assert(j == 3 * k + j % 3);
        let _ = e[k];
        lemma_trits_of_group(trit_or_zero(ds, 3 * k), trit_or_zero(ds, 3 * k + 1), trit_or_zero(ds, 3 * k + 2));
    }
    assert(b27_decode(e) =~= padded_trits(ds));
    assert(b27_decode(e).take(ds.len() as int) =~= ds);
}

/// Encoding the digits of some base-27 text gives back the text, its letters
/// in lower case.
pub proof fn lemma_encode_decode(cs: Seq<char>)
    requires
        all_b27(cs),
    ensures
        all_trits(b27_decode(cs)),
        b27_encode(b27_decode(cs)) == b27_lowercase(cs),
{
    let d = b27_decode(cs);
    assert forall|j: int| 0 <= j < d.len() implies #[trigger] d[j] < 3 by {
        let _ = b27_char_value(cs[j / 3]);
        lemma_group_of_trits(b27_char_value(cs[j / 3])->0 as int);
    }
    assert forall|k: int| 0 <= k < cs.len() implies #[trigger] group_value(d, k) == b27_char_value(cs[k])->0 as int by {
        assert((3 * k) / 3 == k);
        assert((3 * k + 1) / 3 == k);
        assert((3 * k + 2) / 3 == k);
        let _ = b27_char_value(cs[k]);
        lemma_group_of_trits(b27_char_value(cs[k])->0 as int);
    }
    assert(b27_encode(d) =~= b27_lowercase(cs));
}

/// Each character of the base-27 text of some base-3 digits stands for one
/// group of three digits, the first the most significant, with missing
/// digits past the end counting as 0: a group worth `v` below 10 is the
/// character with code `48 + v` (`0`-`9`), one worth 10 to 26 the character
/// with code `87 + v` (`a`-`q`), whether or not the group is the last.
pub proof fn lemma_encode_chars(ds: Seq<u8>)
    requires
        all_trits(ds),
    ensures
        3 * b27_encode(ds).len() >= ds.len(),
        3 * b27_encode(ds).len() < ds.len() + 3,
        forall|k: int|
            0 <= k < b27_encode(ds).len() ==> {
                let d0: int = if 3 * k < ds.len() { ds[3 * k] as int } else { 0 };
                let d1: int = if 3 * k + 1 < ds.len() { ds[3 * k + 1] as int } else { 0 };
                let d2: int = if 3 * k + 2 < ds.len() { ds[3 * k + 2] as int } else { 0 };
                let v = 9 * d0 + 3 * d1 + d2;
                &&& 0 <= v < 27
                &&& v < 10 ==> #[trigger] b27_encode(ds)[k] as int == 48 + v
                &&& v >= 10 ==> b27_encode(ds)[k] as int == 87 + v
            },
{
    assert forall|k: int| 0 <= k < b27_encode(ds).len() implies {
        let d0: int = if 3 * k < ds.len() { ds[3 * k] as int } else { 0 };
        let d1: int = if 3 * k + 1 < ds.len() { ds[3 * k + 1] as int } else { 0 };
        let d2: int = if 3 * k + 2 < ds.len() { ds[3 * k + 2] as int } else { 0 };
        let v = 9 * d0 + 3 * d1 + d2;
        &&& 0 <= v < 27
        &&& v < 10 ==> #[trigger] b27_encode(ds)[k] as int == 48 + v
        &&& v >= 10 ==> b27_encode(ds)[k] as int == 87 + v
    } by {
        lemma_trits_of_group(trit_or_zero(ds, 3 * k), trit_or_zero(ds, 3 * k + 1), trit_or_zero(ds, 3 * k + 2));
    }
}

/// The value a base-27 character stands for, read from its code.
pub open spec fn b27_code_value(c: char) -> int {
    if c <= '9' {
        c as int - 48
    } else if c <= 'Q' {
        c as int - 55
    } else {
        c as int - 87
    }
}

proof fn lemma_decode_char(cs: Seq<char>, k: int)
    requires
        all_b27(cs),
        0 <= k < cs.len(),
    ensures
        0 <= b27_code_value(cs[k]) < 27,
        b27_decode(cs)[3 * k] == b27_code_value(cs[k]) / 9,
        b27_decode(cs)[3 * k + 1] == (b27_code_value(cs[k]) / 3) % 3,
        b27_decode(cs)[3 * k + 2] == b27_code_value(cs[k]) % 3,
{
    assert(b27_char_value(cs[k]) is Some);
    assert((3 * k) / 3 == k && (3 * k) % 3 == 0);
    assert((3 * k + 1) / 3 == k && (3 * k + 1) % 3 == 1);
    assert((3 * k + 2) / 3 == k && (3 * k + 2) % 3 == 2);
    let v = b27_code_value(cs[k]);
    assert(v / 9 < 3);
}

/// Each character of base-27 text stands for three base-3 digits, the first
/// the most significant, of its value: code minus 48 for `0`-`9`, code minus
/// 55 for `A`-`Q`, code minus 87 for `a`-`q`. The text is valid exactly when
/// every character is one of these.
pub proof fn lemma_decode_chars(cs: Seq<char>)
    ensures
        all_b27(cs) <==> forall|k: int|
            0 <= k < cs.len() ==> ('0' <= #[trigger] cs[k] <= '9' || 'a' <= cs[k] <= 'q' || 'A' <= cs[k] <= 'Q'),
        all_b27(cs) ==> b27_decode(cs).len() == 3 * cs.len(),
        all_b27(cs) ==> forall|k: int|
            0 <= k < cs.len() ==> {
                &&& 0 <= b27_code_value(#[trigger] cs[k]) < 27
                &&& b27_decode(cs)[3 * k] == b27_code_value(cs[k]) / 9
                &&& b27_decode(cs)[3 * k + 1] == (b27_code_value(cs[k]) / 3) % 3
                &&& b27_decode(cs)[3 * k + 2] == b27_code_value(cs[k]) % 3
            },
{
    lemma_b27_valid_chars(cs);
    lemma_decode_digits(cs);
}

proof fn lemma_b27_valid_chars(cs: Seq<char>)
    ensures
        all_b27(cs) <==> forall|k: int|
            0 <= k < cs.len() ==> ('0' <= #[trigger] cs[k] <= '9' || 'a' <= cs[k] <= 'q' || 'A' <= cs[k] <= 'Q'),
{
    if all_b27(cs) {
        assert forall|k: int| 0 <= k < cs.len() implies ('0' <= #[trigger] cs[k] <= '9' || 'a' <= cs[k] <= 'q' || 'A' <= cs[k] <= 'Q') by {
            assert(b27_char_value(cs[k]) is Some);
        }
    }
    if forall|k: int| 0 <= k < cs.len() ==> ('0' <= #[trigger] cs[k] <= '9' || 'a' <= cs[k] <= 'q' || 'A' <= cs[k] <= 'Q') {
        assert forall|k: int| 0 <= k < cs.len() implies #[trigger] b27_char_value(cs[k]) is Some by {
            let c = cs[k];
            assert('0' <= c <= '9' || 'a' <= c <= 'q' || 'A' <= c <= 'Q');
        }
    }
}

proof fn lemma_decode_digits(cs: Seq<char>)
    ensures
        all_b27(cs) ==> b27_decode(cs).len() == 3 * cs.len(),
        all_b27(cs) ==> forall|k: int|
            0 <= k < cs.len() ==> {
                &&& 0 <= b27_code_value(#[trigger] cs[k]) < 27
                &&& b27_decode(cs)[3 * k] == b27_code_value(cs[k]) / 9
                &&& b27_decode(cs)[3 * k + 1] == (b27_code_value(cs[k]) / 3) % 3
                &&& b27_decode(cs)[3 * k + 2] == b27_code_value(cs[k]) % 3
            },
{
    if all_b27(cs) {
        assert forall|k: int| 0 <= k < cs.len() implies {
            &&& 0 <= b27_code_value(#[trigger] cs[k]) < 27
            &&& b27_decode(cs)[3 * k] == b27_code_value(cs[k]) / 9
            &&& b27_decode(cs)[3 * k + 1] == (b27_code_value(cs[k]) / 3) % 3
            &&& b27_decode(cs)[3 * k + 2] == b27_code_value(cs[k]) % 3
        } by {
            lemma_decode_char(cs, k);
        }
    }
}

} // verus!
