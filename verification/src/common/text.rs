use vstd::prelude::*;

verus! {

/// The characters of a string, in order.
pub fn chars_of(s: &str) -> (res: Vec<char>)
    ensures
        res@ == s@,
{
    let mut res: Vec<char> = Vec::new();
    for c in it: s.chars()
        invariant
            res@ == it.seq().take(it.index() as int),
    {
        res.push(c);
    }
    res
}

} // verus!

verus! {

/// `String::push`: appends one character to the string.
#[verifier::external_body]
pub fn push_char(s: &mut String, c: char)
    ensures
        final(s)@ == old(s)@.push(c),
{
    s.push(c);
}

} // verus!

verus! {

/// The character of a decimal digit.
pub open spec fn digit_char(d: int) -> char {
    (48 + d) as char
}

/// A decimal digit character.
pub open spec fn is_digit(c: char) -> bool {
    '0' <= c <= '9'
}

/// The value of a digit character.
pub open spec fn digit_value(c: char) -> int {
    c as int - 48
}

/// Decimal text of a natural number, without leading zeros.
pub open spec fn nat_decimal(n: nat) -> Seq<char>
    decreases n,
{
    if n < 10 {
        seq![digit_char(n as int)]
    } else {
        nat_decimal(n / 10).push(digit_char((n % 10) as int))
    }
}

/// Decimal text of an integer, with a minus sign when it is negative.
pub open spec fn int_decimal(n: int) -> Seq<char> {
    if n < 0 {
        seq!['-'] + nat_decimal((-n) as nat)
    } else {
        nat_decimal(n as nat)
    }
}

/// Appends the decimal text of `n`.
fn push_nat_decimal(s: &mut String, n: u64)
    ensures
        final(s)@ == old(s)@ + nat_decimal(n as nat),
    decreases n,
{
    if n >= 10 {
        push_nat_decimal(s, n / 10);
    }
    let d = (n % 10) as u8;
    push_char(s, (48u8 + d) as char);
    assert(final(s)@ =~= old(s)@ + nat_decimal(n as nat));
}

/// Appends the decimal text of `n`, as `format!("{n}")` writes it.
pub fn push_decimal(s: &mut String, n: isize)
    ensures
        final(s)@ == old(s)@ + int_decimal(n as int),
{
    if n < 0 {
        push_char(s, '-');
        let m: i128 = -(n as i128);
        push_nat_decimal(s, m as u64);
    } else {
        push_nat_decimal(s, n as u64);
    }
    assert(final(s)@ =~= old(s)@ + int_decimal(n as int));
}

} // verus!

verus! {

/// The value of a sequence of decimal digits.
pub open spec fn digits_value(s: Seq<char>) -> int
    decreases s.len(),
{
    if s.len() == 0 {
        0
    } else {
        digits_value(s.drop_last()) * 10 + digit_value(s.last())
    }
}

/// Every character is a decimal digit.
pub open spec fn all_digits(s: Seq<char>) -> bool {
    forall|i: int| 0 <= i < s.len() ==> #[trigger] is_digit(s[i])
}

/// The integer that decimal text denotes: an optional `+` or `-`, then one
/// digit or more.
pub open spec fn decimal_text_value(s: Seq<char>) -> Option<int> {
    if s.len() > 0 && (s[0] == '+' || s[0] == '-') {
        let rest = s.drop_first();
        if rest.len() > 0 && all_digits(rest) {
            Some(
                if s[0] == '-' {
                    -digits_value(rest)
                } else {
                    digits_value(rest)
                },
            )
        } else {
            None
        }
    } else if s.len() > 0 && all_digits(s) {
        Some(digits_value(s))
    } else {
        None
    }
}

/// The `isize` that decimal text denotes, where it denotes one in range.
pub open spec fn parse_isize_spec(s: Seq<char>) -> Option<isize> {
    match decimal_text_value(s) {
        Some(v) => if isize::MIN <= v <= isize::MAX {
            Some(v as isize)
        } else {
            None
        },
        None => None,
    }
}

proof fn lemma_digits_value_nonneg(s: Seq<char>)
    requires
        all_digits(s),
    ensures
        digits_value(s) >= 0,
    decreases s.len(),
{
    if s.len() > 0 {
        assert(is_digit(s[s.len() - 1]));
        assert forall|i: int| 0 <= i < s.drop_last().len() implies #[trigger] is_digit(s.drop_last()[i]) by {
            assert(is_digit(s[i]));
        }
        lemma_digits_value_nonneg(s.drop_last());
    }
}

/// A string of digits is worth at least as much as any of its prefixes.
proof fn lemma_digits_value_prefix(s: Seq<char>, k: int)
    requires
        all_digits(s),
        0 <= k <= s.len(),
    ensures
        digits_value(s.take(k)) <= digits_value(s),
    decreases s.len(),
{
    if k < s.len() {
        let t = s.drop_last();
        assert forall|i: int| 0 <= i < t.len() implies #[trigger] is_digit(t[i]) by {
            assert(is_digit(s[i]));
        }
        lemma_digits_value_prefix(t, k);
        assert(t.take(k) =~= s.take(k));
        lemma_digits_value_nonneg(t);
        assert(is_digit(s[s.len() - 1]));
    } else {
        assert(s.take(k) =~= s);
    }
}

/// Reads decimal text as `isize::from_str_radix(s, 10)` does: an optional
/// sign, then one digit or more, whose value must fit.
pub fn parse_isize(s: &[char]) -> (res: Option<isize>)
    ensures
        res == parse_isize_spec(s@),
{
    let n = s.len();
    if n == 0 {
        return None;
    }
    let mut start: usize = 0;
    let mut neg = false;
    if s[0] == '+' {
        start = 1;
    } else if s[0] == '-' {
        start = 1;
        neg = true;
    }
    if start == n {
        return None;
    }
    let ghost rest = s@.subrange(start as int, n as int);
    proof {
        if start == 1 {
            assert(rest =~= s@.drop_first());
        } else {
            assert(rest =~= s@);
        }
    }
    let limit: i128 = (isize::MAX as i128) + 1;
    let mut acc: i128 = 0;
    let mut i: usize = start;
    while i < n
        invariant
            start <= i <= n == s@.len(),
            start <= 1,
            rest == s@.subrange(start as int, n as int),
            start == 1 ==> rest == s@.drop_first() && (s@[0] == '+' || s@[0] == '-'),
            start == 0 ==> rest == s@ && !(s@[0] == '+' || s@[0] == '-'),
            neg == (start == 1 && s@[0] == '-'),
            limit == isize::MAX + 1,
            acc == digits_value(rest.take(i - start)),
            0 <= acc <= limit,
            forall|j: int| start <= j < i ==> #[trigger] is_digit(s@[j]),
        decreases n - i,
    {
        let c = s[i];
        if !('0' <= c && c <= '9') {
            proof {
                assert(!is_digit(rest[i - start]));
            }
            return None;
        }
        let ghost pre = rest.take(i - start);
        proof {
            assert(rest.take(i - start + 1).drop_last() =~= pre);
            assert(rest.take(i - start + 1).last() == c);
        }
        acc = acc * 10 + (c as u32 as i128 - 48);
        i = i + 1;
        if acc > limit {
            proof {
                if all_digits(rest) {
                    lemma_digits_value_prefix(rest, i - start);
                }
            }
            return None;
        }
    }
    proof {
        assert(rest.take(n - start) =~= rest);
        assert forall|j: int| 0 <= j < rest.len() implies #[trigger] is_digit(rest[j]) by {
            assert(is_digit(s@[j + start]));
        }
    }
    let value: i128 = if neg { -acc } else { acc };
    if value > isize::MAX as i128 {
        return None;
    }
    Some(value as isize)
}

/// The decimal text of a natural number is a non-empty string of digits
/// worth that number.
pub proof fn lemma_nat_decimal_digits(n: nat)
    ensures
        nat_decimal(n).len() > 0,
        all_digits(nat_decimal(n)),
        digits_value(nat_decimal(n)) == n,
    decreases n,
{
    let t = nat_decimal(n);
    if n >= 10 {
        lemma_nat_decimal_digits(n / 10);
        assert(t.drop_last() =~= nat_decimal(n / 10));
        assert forall|i: int| 0 <= i < t.len() implies #[trigger] is_digit(t[i]) by {
            if i < t.len() - 1 {
                assert(is_digit(nat_decimal(n / 10)[i]));
            }
        }
        assert(digits_value(t) == (n / 10) * 10 + n % 10);
    } else {
        assert(t.drop_last() =~= Seq::<char>::empty());
        assert(digits_value(t.drop_last()) == 0);
    }
}

/// Reading back the decimal text of an `isize` gives the same `isize`.
pub proof fn lemma_parse_decimal(n: isize)
    ensures
        parse_isize_spec(int_decimal(n as int)) == Some(n),
{
    let t = int_decimal(n as int);
    if n < 0 {
        lemma_nat_decimal_digits((-n) as nat);
        assert(t.drop_first() =~= nat_decimal((-n) as nat));
    } else {
        lemma_nat_decimal_digits(n as nat);
        assert(is_digit(t[0]));
    }
}

} // verus!

verus! {

/// Index of the first occurrence of `x` in `s`, if `x` occurs at all.
pub open spec fn first_position(s: Seq<char>, x: char) -> Option<int>
    decreases s.len(),
{
    if s.len() == 0 {
        None
    } else if s[0] == x {
        Some(0)
    } else {
        match first_position(s.drop_first(), x) {
            Some(i) => Some(i + 1),
            None => None,
        }
    }
}

/// `s` split around the first `x`, as `str::split_once` splits it.
pub open spec fn split_once(s: Seq<char>, x: char) -> Option<(Seq<char>, Seq<char>)> {
    match first_position(s, x) {
        Some(i) => Some((s.take(i), s.skip(i + 1))),
        None => None,
    }
}

/// `first_position` finds `x` at `i` exactly when `x` is there and nowhere before.
pub proof fn lemma_first_position(s: Seq<char>, x: char)
    ensures
        first_position(s, x) matches Some(i) ==> 0 <= i < s.len() && s[i] == x && forall|j: int|
            0 <= j < i ==> s[j] != x,
        first_position(s, x) is None ==> forall|j: int| 0 <= j < s.len() ==> s[j] != x,
    decreases s.len(),
{
    if s.len() > 0 && s[0] != x {
        lemma_first_position(s.drop_first(), x);
        assert forall|j: int| 1 <= j < s.len() implies s.drop_first()[j - 1] == s[j] by {}
    }
}

/// The position of the first `x` in `s`, if there is one.
pub fn find_char(s: &[char], x: char) -> (res: Option<usize>)
    ensures
        match res {
            Some(i) => first_position(s@, x) == Some(i as int),
            None => first_position(s@, x) is None,
        },
{
    let mut i: usize = 0;
    while i < s.len()
        invariant
            i <= s@.len(),
            forall|j: int| 0 <= j < i ==> s@[j] != x,
        decreases s@.len() - i,
    {
        if s[i] == x {
            proof {
                lemma_first_position(s@, x);
            }
            return Some(i);
        }
        i = i + 1;
    }
    proof {
        lemma_first_position(s@, x);
    }
    None
}

/// Whether two character sequences are equal.
pub fn chars_eq(a: &[char], b: &[char]) -> (res: bool)
    ensures
        res == (a@ == b@),
{
    if a.len() != b.len() {
        return false;
    }
    let mut i: usize = 0;
    while i < a.len()
        invariant
            i <= a@.len() == b@.len(),
            forall|j: int| 0 <= j < i ==> a@[j] == b@[j],
        decreases a@.len() - i,
    {
        if a[i] != b[i] {
            return false;
        }
        i = i + 1;
    }
    assert(a@ =~= b@);
    true
}

/// Text with no `x` before a first `x` splits there.
pub proof fn lemma_split_once_at(a: Seq<char>, x: char, b: Seq<char>)
    requires
        forall|i: int| 0 <= i < a.len() ==> a[i] != x,
    ensures
        split_once(a + seq![x] + b, x) == Some((a, b)),
{
    let s = a + seq![x] + b;
    lemma_first_position(s, x);
    assert(s[a.len() as int] == x);
    assert forall|j: int| 0 <= j < a.len() implies s[j] != x by {
        assert(s[j] == a[j]);
    }
    assert(s.take(a.len() as int) =~= a);
    assert(s.skip(a.len() as int + 1) =~= b);
}

/// Ten to the power `k`.
pub open spec fn pow10(k: nat) -> nat
    decreases k,
{
    if k == 0 {
        1
    } else {
        10 * pow10((k - 1) as nat)
    }
}

/// The decimal text of `n` has as many characters as `n` has digits, none
/// of them a leading zero, and character `i` is the digit (code 48 plus it)
/// of `n` at place `10^(len - 1 - i)`.
pub proof fn lemma_decimal_places(n: nat)
    ensures
        nat_decimal(n).len() >= 1,
        n < pow10(nat_decimal(n).len()),
        n >= 1 ==> pow10((nat_decimal(n).len() - 1) as nat) <= n,
        forall|i: int|
            0 <= i < nat_decimal(n).len() ==> #[trigger] nat_decimal(n)[i] as int == 48 + (n / pow10(
                (nat_decimal(n).len() - 1 - i) as nat,
            )) % 10,
    decreases n,
{
    let t = nat_decimal(n);
    if n < 10 {
        assert(pow10(1) == 10) by {
            assert(pow10(0) == 1);
        }
        assert(t.len() == 1);
        assert(n / pow10(0) == n);
    } else {
        let m = n / 10;
        lemma_decimal_places(m);
        let u = nat_decimal(m);
        let l = u.len();
        assert(t.len() == l + 1);
        assert(t.drop_last() =~= u);
        assert(pow10(l + 1) == 10 * pow10(l));
        assert(pow10(l) == 10 * pow10((l - 1) as nat));
        assert(n < pow10(t.len())) by (nonlinear_arith)
            requires
                m == n / 10,
                m < pow10(l),
                pow10(l + 1) == 10 * pow10(l),
                t.len() == l + 1,
        ;
        assert(pow10((t.len() - 1) as nat) <= n) by (nonlinear_arith)
            requires
                m == n / 10,
                m >= 1 ==> pow10((l - 1) as nat) <= m,
                m >= 1,
                pow10(l) == 10 * pow10((l - 1) as nat),
                t.len() == l + 1,
        ;
        assert forall|i: int| 0 <= i < t.len() implies #[trigger] t[i] as int == 48 + (n / pow10(
            (t.len() - 1 - i) as nat,
        )) % 10 by {
            if i < l {
                let e = (l - 1 - i) as nat;
                assert(t[i] == u[i]);
                assert(pow10(e + 1) == 10 * pow10(e));
                assert((t.len() - 1 - i) as nat == e + 1);
                assert(pow10(e) >= 1) by {
                    lemma_pow10_positive(e);
                }
                vstd::arithmetic::div_mod::lemma_div_denominator(n as int, 10, pow10(e) as int);
            } else {
                assert(n / pow10(0) == n);
            }
        }
    }
}

proof fn lemma_pow10_positive(k: nat)
    ensures
        pow10(k) >= 1,
    decreases k,
{
    if k > 0 {
        lemma_pow10_positive((k - 1) as nat);
    }
}

/// Decimal text that is read as an `isize` is one digit or more, with at
/// most a leading `+` or `-`; a leading `-` negates the value of the digits,
/// and the value is in range. Text of that form whose value is in range is
/// read.
pub proof fn lemma_parse_syntax(s: Seq<char>)
    ensures
        parse_isize_spec(s) is Some ==> {
            &&& s.len() >= 1
            &&& forall|i: int| 1 <= i < s.len() ==> '0' <= #[trigger] s[i] <= '9'
            &&& ('0' <= s[0] <= '9' || (s.len() >= 2 && (s[0] == '+' || s[0] == '-')))
        },
        parse_isize_spec(s) matches Some(v) ==> v == if s[0] == '-' {
            -digits_value(s.drop_first())
        } else if s[0] == '+' {
            digits_value(s.drop_first())
        } else {
            digits_value(s)
        },
        (s.len() >= 1 && all_digits(s)) ==> (parse_isize_spec(s) is Some <==> digits_value(s)
            <= isize::MAX),
{
    if parse_isize_spec(s) is Some {
        if s[0] == '+' || s[0] == '-' {
            assert forall|i: int| 1 <= i < s.len() implies '0' <= #[trigger] s[i] <= '9' by {
                assert(is_digit(s.drop_first()[i - 1]));
            }
        } else {
            assert forall|i: int| 1 <= i < s.len() implies '0' <= #[trigger] s[i] <= '9' by {
                assert(is_digit(s[i]));
            }
            assert(is_digit(s[0]));
        }
    }
    if s.len() >= 1 && all_digits(s) {
        assert(is_digit(s[0]));
        lemma_digits_value_nonneg(s);
    }
}

/// Where `s` splits around its first `x`, it is the part before, `x`, and
/// the part after, and the part before holds no `x`.
pub proof fn lemma_split_once_parts(s: Seq<char>, x: char)
    ensures
        split_once(s, x) matches Some((a, b)) ==> {
            &&& s == a + seq![x] + b
            &&& forall|i: int| 0 <= i < a.len() ==> a[i] != x
        },
{
    lemma_first_position(s, x);
    if let Some((a, b)) = split_once(s, x) {
        assert(s =~= a + seq![x] + b);
    }
}

} // verus!
