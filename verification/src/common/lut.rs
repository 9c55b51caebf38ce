use vstd::prelude::*;
use vstd::utf8::is_ascii_chars;
use vstd::string::is_ascii;

use crate::common::text::chars_of;

verus! {

/// Index of the last occurrence of `x` in `s`, if `x` occurs at all.
pub open spec fn last_position<A>(s: Seq<A>, x: A) -> Option<int>
    decreases s.len(),
{
    if s.len() == 0 {
        None
    } else if s.last() == x {
        Some(s.len() - 1)
    } else {
        last_position(s.drop_last(), x)
    }
}

/// `last_position` with the position narrowed to a byte.
pub open spec fn last_position_u8<A>(s: Seq<A>, x: A) -> Option<u8> {
    match last_position(s, x) {
        Some(i) => Some(i as u8),
        None => None,
    }
}

/// What `last_position` says of a sequence grown by one element.
pub proof fn lemma_last_position_push<A>(s: Seq<A>, y: A, x: A)
    ensures
        last_position(s.push(y), x) == if y == x {
            Some(s.len() as int)
        } else {
            last_position(s, x)
        },
{
    assert(s.push(y).drop_last() =~= s);
}

/// The position found by `last_position` holds `x`, and no later one does.
pub proof fn lemma_last_position_bounds<A>(s: Seq<A>, x: A)
    ensures
        last_position(s, x) matches Some(i) ==> {
            &&& 0 <= i < s.len()
            &&& s[i] == x
            &&& forall|j: int| i < j < s.len() ==> s[j] != x
        },
        last_position(s, x) is None ==> forall|j: int| 0 <= j < s.len() ==> s[j] != x,
    decreases s.len(),
{
    if s.len() > 0 {
        lemma_last_position_bounds(s.drop_last(), x);
        assert forall|j: int| 0 <= j < s.len() - 1 implies s.drop_last()[j] == s[j] by {}
    }
}

/// In a sequence without repeats, an element's last position is its only one.
pub proof fn lemma_last_position_distinct<A>(s: Seq<A>, i: int)
    requires
        0 <= i < s.len(),
        forall|j: int, k: int| 0 <= j < k < s.len() ==> s[j] != s[k],
    ensures
        last_position(s, s[i]) == Some(i),
{
    lemma_last_position_bounds(s, s[i]);
}

/// Writes `i` at index `s[i]` of a table of 256 slots, for each position `i` of `s`
/// in turn, so that a byte that occurs several times is given its last position.
pub fn u8_to_index(s: &[u8]) -> (out: [Option<u8>; 256])
    requires
        s@.len() <= 256,
    ensures
        forall|b: u8| #[trigger] out@[b as int] == last_position_u8(s@, b),
{
    let mut out: [Option<u8>; 256] = [None; 256];
    let mut i: usize = 0;
    while i < s.len()
        invariant
            i <= s@.len() <= 256,
            forall|b: u8| #[trigger] out@[b as int] == last_position_u8(s@.take(i as int), b),
        decreases s@.len() - i,
    {
        let b = s[i];
        out[b as usize] = Some(i as u8);
        proof {
            assert(s@.take(i as int + 1) =~= s@.take(i as int).push(b));
            assert forall|x: u8| #[trigger] out@[x as int] == last_position_u8(s@.take(i + 1), x) by {
                lemma_last_position_push(s@.take(i as int), b, x);
            }
        }
        i = i + 1;
    }
    assert(s@.take(i as int) =~= s@);
    out
}

/// Distinct characters have distinct codes.
proof fn lemma_char_code(c: char, d: char)
    ensures
        (c as u32) as int == c as int,
        c != d ==> c as u32 != d as u32,
{
}

/// A character of the ASCII range, the only ones a table can hold.
pub open spec fn is_ascii_char(c: char) -> bool {
    (c as u32) < 128
}

/// The ASCII upper-case form of a character; others are left as they are.
pub open spec fn ascii_upper(c: char) -> char {
    if 'a' <= c <= 'z' {
        ((c as u32) - 32) as char
    } else {
        c
    }
}

/// The ASCII lower-case form of a character; others are left as they are.
pub open spec fn ascii_lower(c: char) -> char {
    if 'A' <= c <= 'Z' {
        ((c as u32) + 32) as char
    } else {
        c
    }
}

/// The alphabet with every letter in upper case.
pub open spec fn upper_alphabet(alphabet: Seq<char>) -> Seq<char> {
    alphabet.map_values(|c: char| ascii_upper(c))
}

/// The alphabet with every letter in lower case.
pub open spec fn lower_alphabet(alphabet: Seq<char>) -> Seq<char> {
    alphabet.map_values(|c: char| ascii_lower(c))
}

/// The character of the alphabet at position `i`, if there is one.
pub open spec fn alphabet_char(alphabet: Seq<char>, i: u8) -> Option<char> {
    if (i as int) < alphabet.len() {
        Some(alphabet[i as int])
    } else {
        None
    }
}

/// The position of `c` in a case-insensitive alphabet: its own position where
/// it occurs as written; otherwise its position among the upper-case forms;
/// otherwise among the lower-case forms.
pub open spec fn case_insensitive_index(alphabet: Seq<char>, c: char) -> Option<u8> {
    match last_position_u8(alphabet, c) {
        Some(i) => Some(i),
        None => match last_position_u8(upper_alphabet(alphabet), c) {
            Some(i) => Some(i),
            None => last_position_u8(lower_alphabet(alphabet), c),
        },
    }
}

/// The ASCII lower-case form of a character.
fn to_ascii_lower(c: char) -> (res: char)
    ensures
        res == ascii_lower(c),
{
    if 'A' <= c && c <= 'Z' {
        ((c as u32 as u8) + 32) as char
    } else {
        c
    }
}

/// The ASCII upper-case form of a character.
fn to_ascii_upper(c: char) -> (res: char)
    ensures
        res == ascii_upper(c),
{
    if 'a' <= c && c <= 'z' {
        ((c as u32 as u8) - 32) as char
    } else {
        c
    }
}

/// The alphabet with its letters in lower case.
fn map_ascii_lower(alphabet: &[char]) -> (res: Vec<char>)
    requires
        is_ascii_chars(alphabet@),
    ensures
        res@ == lower_alphabet(alphabet@),
        is_ascii_chars(res@),
{
    let mut res: Vec<char> = Vec::new();
    let mut i: usize = 0;
    while i < alphabet.len()
        invariant
            i <= alphabet@.len(),
            is_ascii_chars(alphabet@),
            res@ == lower_alphabet(alphabet@.take(i as int)),
            is_ascii_chars(res@),
        decreases alphabet@.len() - i,
    {
        assert('\0' <= alphabet@[i as int] <= '\u{7f}');
        res.push(to_ascii_lower(alphabet[i]));
        assert(alphabet@.take(i as int + 1) =~= alphabet@.take(i as int).push(alphabet@[i as int]));
        assert(res@ =~= lower_alphabet(alphabet@.take(i as int + 1)));
        i = i + 1;
    }
    assert(alphabet@.take(i as int) =~= alphabet@);
    res
}

/// The alphabet with its letters in upper case.
fn map_ascii_upper(alphabet: &[char]) -> (res: Vec<char>)
    requires
        is_ascii_chars(alphabet@),
    ensures
        res@ == upper_alphabet(alphabet@),
        is_ascii_chars(res@),
{
    let mut res: Vec<char> = Vec::new();
    let mut i: usize = 0;
    while i < alphabet.len()
        invariant
            i <= alphabet@.len(),
            is_ascii_chars(alphabet@),
            res@ == upper_alphabet(alphabet@.take(i as int)),
            is_ascii_chars(res@),
        decreases alphabet@.len() - i,
    {
        assert('\0' <= alphabet@[i as int] <= '\u{7f}');
        res.push(to_ascii_upper(alphabet[i]));
        assert(alphabet@.take(i as int + 1) =~= alphabet@.take(i as int).push(alphabet@[i as int]));
        assert(res@ =~= upper_alphabet(alphabet@.take(i as int + 1)));
        i = i + 1;
    }
    assert(alphabet@.take(i as int) =~= alphabet@);
    res
}

/// Tables between the characters of an ASCII alphabet and their positions.
pub struct AsciiLut {
    u8_to_index: [u8; 128],
    index_to_u8: [u8; 128],
}

impl AsciiLut {
    /// The position that `decode` gives for `c`.
    pub closed spec fn decode_spec(&self, c: char) -> Option<u8> {
        if is_ascii_char(c) && self.u8_to_index@[c as int] != 255 {
            Some(self.u8_to_index@[c as int])
        } else {
            None
        }
    }

    /// The character that `encode` gives for `i`.
    pub closed spec fn encode_spec(&self, i: u8) -> Option<char> {
        if i < 128 && self.index_to_u8@[i as int] != 255 {
            Some(self.index_to_u8@[i as int] as char)
        } else {
            None
        }
    }

    /// The table answers for `alphabet` as written: each character gives its
    /// last position, each position its character.
    pub open spec fn is_lut_of(&self, alphabet: Seq<char>) -> bool {
        &&& forall|c: char| #[trigger] self.decode_spec(c) == last_position_u8(alphabet, c)
        &&& forall|i: u8| #[trigger] self.encode_spec(i) == alphabet_char(alphabet, i)
    }

    /// The table answers for `alphabet` in either case, and gives back the
    /// characters as written.
    pub open spec fn is_case_insensitive_lut_of(&self, alphabet: Seq<char>) -> bool {
        &&& forall|c: char| #[trigger] self.decode_spec(c) == case_insensitive_index(alphabet, c)
        &&& forall|i: u8| #[trigger] self.encode_spec(i) == alphabet_char(alphabet, i)
    }

    fn empty() -> (res: AsciiLut)
        ensures
            forall|c: char| #[trigger] res.decode_spec(c) is None,
            forall|i: u8| #[trigger] res.encode_spec(i) is None,
    {
        let res = AsciiLut { u8_to_index: [255u8; 128], index_to_u8: [255u8; 128] };
        assert forall|k: int| 0 <= k < 128 implies res.u8_to_index@[k] == 255 && res.index_to_u8@[k] == 255 by {}
        assert forall|c: char| #[trigger] res.decode_spec(c) is None by {
            lemma_char_code(c, c);
        }
        res
    }

    fn add_alphabet(&mut self, alphabet: &[char])
        requires
            alphabet@.len() <= 127,
            is_ascii_chars(alphabet@),
        ensures
            forall|c: char| #[trigger] final(self).decode_spec(c) == match last_position_u8(alphabet@, c) {
                Some(i) => Some(i),
                None => old(self).decode_spec(c),
            },
            forall|i: u8| #[trigger] final(self).encode_spec(i) == match alphabet_char(alphabet@, i) {
                Some(c) => Some(c),
                None => old(self).encode_spec(i),
            },
    {
        let ghost old_self = *self;
        let n = alphabet.len();
        let mut i: usize = 0;
        while i < n
            invariant
                n == alphabet@.len() <= 127,
                i <= n,
                is_ascii_chars(alphabet@),
                forall|c: char| #[trigger] self.decode_spec(c) == match last_position_u8(alphabet@.take(i as int), c) {
                    Some(k) => Some(k),
                    None => old_self.decode_spec(c),
                },
                forall|k: u8| #[trigger] self.encode_spec(k) == match alphabet_char(alphabet@.take(i as int), k) {
                    Some(c) => Some(c),
                    None => old_self.encode_spec(k),
                },
            decreases n - i,
        {
            let c = alphabet[i];
            let ghost pre = *self;
            assert('\0' <= alphabet@[i as int] <= '\u{7f}');
            let b = c as u32 as usize;
            self.u8_to_index[b] = i as u8;
            self.index_to_u8[i] = c as u32 as u8;
            proof {
                let t = alphabet@.take(i as int);
                assert(alphabet@.take(i as int + 1) =~= t.push(c));
                assert(self.u8_to_index@ == pre.u8_to_index@.update(b as int, i as u8));
                assert(self.index_to_u8@ == pre.index_to_u8@.update(i as int, c as u32 as u8));
                assert((c as u32 as u8) as char == c);
                lemma_char_code(c, c);
                assert forall|x: char| #[trigger] self.decode_spec(x) == match last_position_u8(alphabet@.take(i + 1), x) {
                    Some(k) => Some(k),
                    None => old_self.decode_spec(x),
                } by {
                    lemma_last_position_push(t, c, x);
                    lemma_char_code(x, c);
                    let _ = pre.decode_spec(x);
                    if x == c {
                        assert(self.decode_spec(x) == Some(i as u8));
                    } else if is_ascii_char(x) {
                        assert(self.u8_to_index@[x as int] == pre.u8_to_index@[x as int]);
                        assert(self.decode_spec(x) == pre.decode_spec(x));
                    } else {
                        assert(self.decode_spec(x) == pre.decode_spec(x));
                    }
                }
                assert forall|k: u8| #[trigger] self.encode_spec(k) == match alphabet_char(alphabet@.take(i + 1), k) {
                    Some(c) => Some(c),
                    None => old_self.encode_spec(k),
                } by {
                    let _ = pre.encode_spec(k);
                    if k as int == i as int {
                        assert(self.encode_spec(k) == Some(c));
                    } else {
                        assert(self.encode_spec(k) == pre.encode_spec(k));
                    }
                }
            }
            i = i + 1;
        }
        assert(alphabet@.take(n as int) =~= alphabet@);
    }

    /// The table of `chars`, read as written.
    pub fn from_alphabet(chars: &str) -> (res: AsciiLut)
        requires
            is_ascii(chars),
            chars@.len() <= 127,
        ensures
            res.is_lut_of(chars@),
    {
        let alphabet = chars_of(chars);
        let mut res = AsciiLut::empty();
        res.add_alphabet(alphabet.as_slice());
        res
    }

    /// The table of `chars` in which a letter is found in either case; what
    /// it gives back are the characters of `chars` as written.
    pub fn from_alphabet_case_insensitive(chars: &str) -> (res: AsciiLut)
        requires
            is_ascii(chars),
            chars@.len() <= 127,
        ensures
            res.is_case_insensitive_lut_of(chars@),
    {
        let alphabet = chars_of(chars);
        let lower = map_ascii_lower(alphabet.as_slice());
        let upper = map_ascii_upper(alphabet.as_slice());
        let mut res = AsciiLut::empty();
        res.add_alphabet(lower.as_slice());
        res.add_alphabet(upper.as_slice());
        res.add_alphabet(alphabet.as_slice());
        assert forall|c: char| #[trigger] res.decode_spec(c) == case_insensitive_index(chars@, c) by {}
        assert forall|i: u8| #[trigger] res.encode_spec(i) == alphabet_char(chars@, i) by {}
        res
    }

    /// The position of `c` in the alphabet, if it holds `c`.
    pub fn decode(&self, c: char) -> (res: Option<u8>)
        ensures
            res == self.decode_spec(c),
    {
        let c = c as u32 as usize;
        if c >= 128 {
            return None;
        }
        match self.u8_to_index[c] {
            255 => None,
            i => Some(i),
        }
    }

    /// The character at position `i` of the alphabet, if there is one.
    pub fn encode(&self, i: u8) -> (res: Option<char>)
        ensures
            res == self.encode_spec(i),
    {
        if i >= 128 {
            return None;
        }
        match self.index_to_u8[i as usize] {
            255 => None,
            c => Some(c as char),
        }
    }
}

/// No character occurs twice.
pub open spec fn no_repeats(alphabet: Seq<char>) -> bool {
    forall|j: int, k: int| 0 <= j < k < alphabet.len() ==> alphabet[j] != alphabet[k]
}

/// No character is an ASCII upper-case letter.
pub open spec fn no_upper_case(alphabet: Seq<char>) -> bool {
    forall|j: int| 0 <= j < alphabet.len() ==> !('A' <= #[trigger] alphabet[j] <= 'Z')
}

/// A table of an alphabet gives back, for each character it finds, that
/// character; and where no character repeats, each position is found from
/// its character.
pub proof fn lemma_lut_roundtrip(lut: &AsciiLut, alphabet: Seq<char>, c: char, i: u8)
    requires
        lut.is_lut_of(alphabet),
        alphabet.len() <= 127,
    ensures
        lut.decode_spec(c) matches Some(k) ==> lut.encode_spec(k) == Some(c),
        no_repeats(alphabet) && (i as int) < alphabet.len() ==> (lut.encode_spec(i) matches Some(d)
            && lut.decode_spec(d) == Some(i)),
{
    lemma_last_position_bounds(alphabet, c);
    if let Some(p) = last_position(alphabet, c) {
        let _ = lut.encode_spec(p as u8);
    }
    if no_repeats(alphabet) && (i as int) < alphabet.len() {
        lemma_last_position_distinct(alphabet, i as int);
        let _ = lut.decode_spec(alphabet[i as int]);
    }
}

/// A case-insensitive table of an alphabet with no repeats and no upper-case
/// letters finds each character, and its upper-case form, at its position,
/// and gives back the character as written.
pub proof fn lemma_case_insensitive_lut(lut: &AsciiLut, alphabet: Seq<char>, i: u8)
    requires
        lut.is_case_insensitive_lut_of(alphabet),
        no_repeats(alphabet),
        no_upper_case(alphabet),
        is_ascii_chars(alphabet),
        (i as int) < alphabet.len(),
    ensures
        lut.decode_spec(alphabet[i as int]) == Some(i),
        lut.decode_spec(ascii_upper(alphabet[i as int])) == Some(i),
        lut.encode_spec(i) == Some(alphabet[i as int]),
        'a' <= alphabet[i as int] <= 'z' ==> lut.decode_spec(((alphabet[i as int] as u32) - 32) as char)
            == Some(i),
{
    let a = alphabet;
    let k = i as int;
    let up = upper_alphabet(a);
    let x = a[k];
    lemma_last_position_distinct(a, k);
    if 'a' <= x <= 'z' {
        let ux = ascii_upper(x);
        assert('A' <= ux <= 'Z');
        lemma_last_position_bounds(a, ux);
        assert forall|j: int, l: int| 0 <= j < l < up.len() implies up[j] != up[l] by {
            assert(!('A' <= a[j] <= 'Z'));
            assert(!('A' <= a[l] <= 'Z'));
            lemma_char_code(a[j], a[l]);
        }
        lemma_last_position_distinct(up, k);
    }
    let _ = lut.decode_spec(x);
    let _ = lut.decode_spec(ascii_upper(x));
}

/// No character is an ASCII lower-case letter.
pub open spec fn no_lower_case(alphabet: Seq<char>) -> bool {
    forall|j: int| 0 <= j < alphabet.len() ==> !('a' <= #[trigger] alphabet[j] <= 'z')
}

/// ASCII case mapping: a lower-case letter's upper-case form has the code 32
/// lower, an upper-case letter's lower-case form the code 32 higher, and
/// every other character is its own upper- and lower-case form.
pub proof fn lemma_ascii_case(c: char)
    ensures
        'a' <= c <= 'z' ==> ascii_upper(c) as u32 == (c as u32) - 32 && 'A' <= ascii_upper(c) <= 'Z',
        !('a' <= c <= 'z') ==> ascii_upper(c) == c,
        'A' <= c <= 'Z' ==> ascii_lower(c) as u32 == (c as u32) + 32 && 'a' <= ascii_lower(c) <= 'z',
        !('A' <= c <= 'Z') ==> ascii_lower(c) == c,
{
}

/// A case-insensitive table of an alphabet with no repeats and no lower-case
/// letters finds each character at its position, and finds an upper-case
/// letter's lower-case form (its code plus 32) there too.
pub proof fn lemma_case_insensitive_lut_lower(lut: &AsciiLut, alphabet: Seq<char>, i: u8)
    requires
        lut.is_case_insensitive_lut_of(alphabet),
        no_repeats(alphabet),
        no_lower_case(alphabet),
        is_ascii_chars(alphabet),
        (i as int) < alphabet.len(),
    ensures
        lut.decode_spec(alphabet[i as int]) == Some(i),
        'A' <= alphabet[i as int] <= 'Z' ==> lut.decode_spec(((alphabet[i as int] as u32) + 32) as char)
            == Some(i),
        lut.encode_spec(i) == Some(alphabet[i as int]),
{
    let a = alphabet;
    let k = i as int;
    let up = upper_alphabet(a);
    let lo = lower_alphabet(a);
    let x = a[k];
    lemma_last_position_distinct(a, k);
    if 'A' <= x <= 'Z' {
        let lx = ((x as u32) + 32) as char;
        assert(ascii_lower(x) == lx);
        assert('a' <= lx <= 'z');
        lemma_last_position_bounds(a, lx);
        assert forall|j: int| 0 <= j < a.len() implies #[trigger] up[j] == a[j] by {
            assert(!('a' <= a[j] <= 'z'));
        }
        assert(up =~= a);
        assert forall|j: int, l: int| 0 <= j < l < lo.len() implies lo[j] != lo[l] by {
            assert(!('a' <= a[j] <= 'z'));
            assert(!('a' <= a[l] <= 'z'));
            lemma_char_code(a[j], a[l]);
        }
        lemma_last_position_distinct(lo, k);
        let _ = lut.decode_spec(lx);
    }
    let _ = lut.decode_spec(x);
}

} // verus!
