//! Character-level text primitives shared by the subtitle parser and the font index.
//!
//! Text is handled as sequences of Unicode scalar values. Each specification function
//! below states what the corresponding `str` operation of the standard library yields
//! on such a sequence; the executable functions compute it on `Vec<char>`.
use crate::unicode::{char_lowercase, lowercase_of, nfkc, nfkc_chars, string_from_chars};
use vstd::prelude::*;

verus! {

/// Unicode `White_Space` property, as used by `char::is_whitespace` and `str::trim`.
pub open spec fn is_space(c: char) -> bool {
    let u = c as u32;
    (0x09 <= u && u <= 0x0d) || u == 0x20 || u == 0x85 || u == 0xa0 || u == 0x1680 || (0x2000
        <= u && u <= 0x200a) || u == 0x2028 || u == 0x2029 || u == 0x202f || u == 0x205f || u
        == 0x3000
}

/// Unicode general category `Cc`, as used by `char::is_control`.
pub open spec fn is_control(c: char) -> bool {
    let u = c as u32;
    u <= 0x1f || (0x7f <= u && u <= 0x9f)
}

pub open spec fn is_ascii_upper(c: char) -> bool {
    'A' <= c && c <= 'Z'
}

pub open spec fn is_ascii_alpha(c: char) -> bool {
    ('A' <= c && c <= 'Z') || ('a' <= c && c <= 'z')
}

pub open spec fn ascii_lower_char(c: char) -> char {
    if is_ascii_upper(c) {
        ((c as u32) + 32) as char
    } else {
        c
    }
}

/// Only ASCII characters.
pub open spec fn ascii_chars(s: Seq<char>) -> bool {
    forall|i: int| 0 <= i < s.len() ==> (#[trigger] s[i] as u32) < 0x80
}

/// `str::to_ascii_lowercase`.
pub open spec fn ascii_lower(s: Seq<char>) -> Seq<char> {
    s.map_values(|c: char| ascii_lower_char(c))
}

/// `str::trim_start`.
pub open spec fn trim_start(s: Seq<char>) -> Seq<char>
    decreases s.len(),
{
    if s.len() > 0 && is_space(s[0]) {
        trim_start(s.drop_first())
    } else {
        s
    }
}

/// `str::trim_end`.
pub open spec fn trim_end(s: Seq<char>) -> Seq<char>
    decreases s.len(),
{
    if s.len() > 0 && is_space(s.last()) {
        trim_end(s.drop_last())
    } else {
        s
    }
}

/// `str::trim`.
pub open spec fn trim(s: Seq<char>) -> Seq<char> {
    trim_end(trim_start(s))
}

/// `str::trim_start_matches` with a single character.
pub open spec fn trim_start_char(s: Seq<char>, c: char) -> Seq<char>
    decreases s.len(),
{
    if s.len() > 0 && s[0] == c {
        trim_start_char(s.drop_first(), c)
    } else {
        s
    }
}

/// Position of the first occurrence of `c` (`str::find` with a character).
pub open spec fn find_char(s: Seq<char>, c: char) -> Option<int>
    decreases s.len(),
{
    if s.len() == 0 {
        None
    } else if s[0] == c {
        Some(0)
    } else {
        match find_char(s.drop_first(), c) {
            Some(i) => Some(i + 1),
            None => None,
        }
    }
}

pub proof fn lemma_find_char(s: Seq<char>, c: char)
    ensures
        match find_char(s, c) {
            Some(i) => 0 <= i < s.len() && s[i] == c && forall|j: int| 0 <= j < i ==> s[j] != c,
            None => forall|j: int| 0 <= j < s.len() ==> s[j] != c,
        },
    decreases s.len(),
{
    if s.len() > 0 && s[0] != c {
        lemma_find_char(s.drop_first(), c);
        match find_char(s.drop_first(), c) {
            Some(i) => {
                assert forall|j: int| 0 <= j < i + 1 implies s[j] != c by {
                    if j > 0 {
                        assert(s[j] == s.drop_first()[j - 1]);
                    }
                }
            },
            None => {
                assert forall|j: int| 0 <= j < s.len() implies s[j] != c by {
                    if j > 0 {
                        assert(s[j] == s.drop_first()[j - 1]);
                    }
                }
            },
        }
    }
}

/// `str::split` with a character separator.
pub open spec fn split(s: Seq<char>, c: char) -> Seq<Seq<char>>
    decreases s.len(),
{
    match find_char(s, c) {
        Some(i) => if 0 <= i < s.len() {
            seq![s.take(i)] + split(s.skip(i + 1), c)
        } else {
            seq![s]
        },
        None => seq![s],
    }
}

/// `str::splitn` with a character separator; `n` is at least one.
pub open spec fn splitn(s: Seq<char>, n: nat, c: char) -> Seq<Seq<char>>
    decreases s.len(),
{
    if n <= 1 {
        seq![s]
    } else {
        match find_char(s, c) {
            Some(i) => if 0 <= i < s.len() {
                seq![s.take(i)] + splitn(s.skip(i + 1), (n - 1) as nat, c)
            } else {
                seq![s]
            },
            None => seq![s],
        }
    }
}

/// `str::split_once` with a character separator.
pub open spec fn split_once(s: Seq<char>, c: char) -> Option<(Seq<char>, Seq<char>)> {
    match find_char(s, c) {
        Some(i) => Some((s.take(i), s.skip(i + 1))),
        None => None,
    }
}

/// Removes one trailing carriage return.
pub open spec fn strip_cr(s: Seq<char>) -> Seq<char> {
    if s.len() > 0 && s.last() == '\r' {
        s.drop_last()
    } else {
        s
    }
}

/// `str::lines`: pieces ended by `\n` (with a preceding `\r` removed), plus a final
/// unterminated piece when it is not empty.
pub open spec fn lines(s: Seq<char>) -> Seq<Seq<char>>
    decreases s.len(),
{
    if s.len() == 0 {
        seq![]
    } else {
        match find_char(s, '\n') {
            Some(i) => if 0 <= i < s.len() {
                seq![strip_cr(s.take(i))] + lines(s.skip(i + 1))
            } else {
                seq![s]
            },
            None => seq![s],
        }
    }
}

pub open spec fn is_digit(c: char) -> bool {
    '0' <= c && c <= '9'
}

pub open spec fn all_digits(d: Seq<char>) -> bool {
    forall|i: int| 0 <= i < d.len() ==> is_digit(#[trigger] d[i])
}

/// Decimal value of a digit string.
pub open spec fn digits_value(d: Seq<char>) -> int
    decreases d.len(),
{
    if d.len() == 0 {
        0
    } else {
        digits_value(d.drop_last()) * 10 + (d.last() as int - '0' as int)
    }
}

/// `str::parse::<i32>`: an optional sign followed by one or more ASCII digits whose
/// value fits in `i32`.
pub open spec fn parse_i32(s: Seq<char>) -> Option<i32> {
    let signed = s.len() > 0 && (s[0] == '-' || s[0] == '+');
    let body = if signed {
        s.drop_first()
    } else {
        s
    };
    let magnitude = digits_value(body);
    let value = if s.len() > 0 && s[0] == '-' {
        -magnitude
    } else {
        magnitude
    };
    if body.len() == 0 || !all_digits(body) || value < i32::MIN || value > i32::MAX {
        None
    } else {
        Some(value as i32)
    }
}

pub proof fn lemma_digits_value_nonneg(d: Seq<char>)
    requires
        all_digits(d),
    ensures
        digits_value(d) >= 0,
    decreases d.len(),
{
    if d.len() > 0 {
        assert(all_digits(d.drop_last())) by {
            assert forall|i: int| 0 <= i < d.drop_last().len() implies is_digit(
                #[trigger] d.drop_last()[i],
            ) by {
                assert(d.drop_last()[i] == d[i]);
            }
        }
        lemma_digits_value_nonneg(d.drop_last());
        assert(is_digit(d[d.len() - 1]));
    }
}

pub fn char_is_space(c: char) -> (r: bool)
    ensures
        r == is_space(c),
{
    let u = c as u32;
    (0x09 <= u && u <= 0x0d) || u == 0x20 || u == 0x85 || u == 0xa0 || u == 0x1680 || (0x2000
        <= u && u <= 0x200a) || u == 0x2028 || u == 0x2029 || u == 0x202f || u == 0x205f || u
        == 0x3000
}

pub fn char_is_control(c: char) -> (r: bool)
    ensures
        r == is_control(c),
{
    let u = c as u32;
    u <= 0x1f || (0x7f <= u && u <= 0x9f)
}

pub fn char_is_ascii_alpha(c: char) -> (r: bool)
    ensures
        r == is_ascii_alpha(c),
{
    ('A' <= c && c <= 'Z') || ('a' <= c && c <= 'z')
}

pub fn char_ascii_lower(c: char) -> (r: char)
    ensures
        r == ascii_lower_char(c),
{
    if 'A' <= c && c <= 'Z' {
        let b = c as u8;
        let l = (b + 32) as char;
        assert(l as u32 == (c as u32) + 32);
        l
    } else {
        c
    }
}

/// Copies `s[start..end]`.
pub fn slice_chars(s: &Vec<char>, start: usize, end: usize) -> (r: Vec<char>)
    requires
        start <= end <= s.len(),
    ensures
        r@ == s@.subrange(start as int, end as int),
{
    let mut r: Vec<char> = Vec::new();
    let mut i: usize = start;
    while i < end
        invariant
            start <= i <= end <= s.len(),
            r@ == s@.subrange(start as int, i as int),
        decreases end - i,
    {
        r.push(s[i]);
        i = i + 1;
    }
    r
}

/// Appends `t` to `out`.
pub fn append_chars(out: &mut Vec<char>, t: &Vec<char>)
    ensures
        final(out)@ == old(out)@ + t@,
{
    let mut i: usize = 0;
    while i < t.len()
        invariant
            i <= t.len(),
            out@ == old(out)@ + t@.take(i as int),
        decreases t.len() - i,
    {
        out.push(t[i]);
        i = i + 1;
        assert(t@.take(i as int) == t@.take(i - 1).push(t@[i - 1]));
    }
    assert(t@.take(t.len() as int) == t@);
}

pub fn chars_eq(a: &Vec<char>, b: &Vec<char>) -> (r: bool)
    ensures
        r == (a@ == b@),
{
    if a.len() != b.len() {
        return false;
    }
    let mut i: usize = 0;
    while i < a.len()
        invariant
            a.len() == b.len(),
            i <= a.len(),
            forall|j: int| 0 <= j < i ==> a@[j] == b@[j],
        decreases a.len() - i,
    {
        if a[i] != b[i] {
            return false;
        }
        i = i + 1;
    }
    assert(a@ =~= b@);
    true
}

/// `str::to_ascii_lowercase`.
pub fn to_ascii_lower(s: &Vec<char>) -> (r: Vec<char>)
    ensures
        r@ == ascii_lower(s@),
{
    let mut r: Vec<char> = Vec::new();
    let mut i: usize = 0;
    while i < s.len()
        invariant
            i <= s.len(),
            r@ == ascii_lower(s@.take(i as int)),
        decreases s.len() - i,
    {
        let c = char_ascii_lower(s[i]);
        r.push(c);
        i = i + 1;
        assert(ascii_lower(s@.take(i as int)) =~= ascii_lower(s@.take(i - 1)).push(c));
    }
    assert(s@.take(s.len() as int) == s@);
    r
}

proof fn lemma_trim_start_step(s: Seq<char>, i: int)
    requires
        0 <= i < s.len(),
        is_space(s[i]),
    ensures
        trim_start(s.skip(i)) == trim_start(s.skip(i + 1)),
{
    assert(s.skip(i).drop_first() =~= s.skip(i + 1));
}

/// `str::trim`.
pub fn trim_chars(s: &Vec<char>) -> (r: Vec<char>)
    ensures
        r@ == trim(s@),
{
    let mut a: usize = 0;
    assert(s@.skip(0) =~= s@);
    while a < s.len() && char_is_space(s[a])
        invariant
            a <= s.len(),
            trim_start(s@) == trim_start(s@.skip(a as int)),
        decreases s.len() - a,
    {
        proof {
            lemma_trim_start_step(s@, a as int);
        }
        a = a + 1;
    }
    assert(s@ =~= s@.skip(0));
    let ghost t = s@.skip(a as int);
    assert(trim_start(s@) == t);
    let mut b: usize = s.len();
    while b > a && char_is_space(s[b - 1])
        invariant
            a <= b <= s.len(),
            t == s@.skip(a as int),
            trim_end(t) == trim_end(s@.subrange(a as int, b as int)),
        decreases b - a,
    {
        proof {
            let u = s@.subrange(a as int, b as int);
            assert(u.drop_last() =~= s@.subrange(a as int, b - 1));
            assert(u.last() == s@[b - 1]);
        }
        b = b - 1;
    }
    assert(t =~= s@.subrange(a as int, s.len() as int));
    slice_chars(s, a, b)
}

/// `str::trim_start_matches` with a single character.
pub fn trim_start_char_chars(s: &Vec<char>, c: char) -> (r: Vec<char>)
    ensures
        r@ == trim_start_char(s@, c),
{
    let mut a: usize = 0;
    assert(s@.skip(0) =~= s@);
    while a < s.len() && s[a] == c
        invariant
            a <= s.len(),
            trim_start_char(s@, c) == trim_start_char(s@.skip(a as int), c),
        decreases s.len() - a,
    {
        assert(s@.skip(a as int).drop_first() =~= s@.skip(a + 1));
        a = a + 1;
    }
    assert(s@ =~= s@.skip(0));
    assert(s@.skip(a as int) =~= s@.subrange(a as int, s.len() as int));
    slice_chars(s, a, s.len())
}

/// First position at or after `start` holding `c`.
pub fn find_from(s: &Vec<char>, start: usize, c: char) -> (r: Option<usize>)
    requires
        start <= s.len(),
    ensures
        match r {
            Some(k) => start <= k < s.len() && find_char(s@.skip(start as int), c) == Some(
                k - start,
            ),
            None => find_char(s@.skip(start as int), c) is None,
        },
{
    let mut i: usize = start;
    while i < s.len()
        invariant
            start <= i <= s.len(),
            forall|j: int| start <= j < i ==> s@[j] != c,
        decreases s.len() - i,
    {
        if s[i] == c {
            proof {
                let t = s@.skip(start as int);
                lemma_find_char(t, c);
                assert(t[i - start] == c);
                match find_char(t, c) {
                    Some(k) => {
                        assert(t[k] == s@[start + k]);
                        if k < i - start {
                            assert(s@[start + k] != c);
                        }
                    },
                    None => {},
                }
            }
            return Some(i);
        }
        i = i + 1;
    }
    proof {
        let t = s@.skip(start as int);
        lemma_find_char(t, c);
        match find_char(t, c) {
            Some(k) => {
                assert(t[k] == s@[start + k]);
            },
            None => {},
        }
    }
    None
}

/// Views of a vector of character vectors.
pub open spec fn views(v: Seq<Vec<char>>) -> Seq<Seq<char>> {
    v.map_values(|x: Vec<char>| x@)
}

/// `str::split` with a character separator.
pub fn split_chars(s: &Vec<char>, c: char) -> (r: Vec<Vec<char>>)
    ensures
        views(r@) == split(s@, c),
{
    let mut r: Vec<Vec<char>> = Vec::new();
    let mut start: usize = 0;
    assert(s@.skip(0) =~= s@);
    assert(views(r@) =~= Seq::<Seq<char>>::empty());
    loop
        invariant
            start <= s.len(),
            views(r@) + split(s@.skip(start as int), c) == split(s@, c),
        decreases s.len() - start,
    {
        let ghost t = s@.skip(start as int);
        match find_from(s, start, c) {
            Some(k) => {
                let piece = slice_chars(s, start, k);
                proof {
                    assert(t.take(k - start) =~= piece@);
                    assert(t.skip(k - start + 1) =~= s@.skip(k + 1));
                }
                let ghost before = views(r@);
                r.push(piece);
                assert(views(r@) =~= before.push(piece@));
                assert(before.push(piece@) + split(s@.skip(k + 1), c) =~= before + split(t, c));
                start = k + 1;
            },
            None => {
                let piece = slice_chars(s, start, s.len());
                assert(t =~= piece@);
                let ghost before = views(r@);
                r.push(piece);
                assert(views(r@) =~= before.push(piece@));
                assert(before.push(piece@) =~= before + split(t, c));
                return r;
            },
        }
    }
}

/// `str::splitn` with a character separator.
pub fn splitn_chars(s: &Vec<char>, n: usize, c: char) -> (r: Vec<Vec<char>>)
    requires
        n >= 1,
    ensures
        views(r@) == splitn(s@, n as nat, c),
{
    let mut r: Vec<Vec<char>> = Vec::new();
    let mut start: usize = 0;
    let mut left: usize = n;
    assert(s@.skip(0) =~= s@);
    assert(views(r@) =~= Seq::<Seq<char>>::empty());
    loop
        invariant
            start <= s.len(),
            1 <= left <= n,
            views(r@) + splitn(s@.skip(start as int), left as nat, c) == splitn(s@, n as nat, c),
        decreases s.len() - start,
    {
        let ghost t = s@.skip(start as int);
        let found = if left <= 1 {
            None
        } else {
            find_from(s, start, c)
        };
        match found {
            Some(k) => {
                let piece = slice_chars(s, start, k);
                proof {
                    assert(t.take(k - start) =~= piece@);
                    assert(t.skip(k - start + 1) =~= s@.skip(k + 1));
                }
                let ghost before = views(r@);
                r.push(piece);
                assert(views(r@) =~= before.push(piece@));
                assert(before.push(piece@) + splitn(s@.skip(k + 1), (left - 1) as nat, c)
                    =~= before + splitn(t, left as nat, c));
                start = k + 1;
                left = left - 1;
            },
            None => {
                let piece = slice_chars(s, start, s.len());
                assert(t =~= piece@);
                let ghost before = views(r@);
                r.push(piece);
                assert(views(r@) =~= before.push(piece@));
                assert(before.push(piece@) =~= before + splitn(t, left as nat, c));
                return r;
            },
        }
    }
}

/// `str::split_once` with a character separator.
pub fn split_once_chars(s: &Vec<char>, c: char) -> (r: Option<(Vec<char>, Vec<char>)>)
    ensures
        match r {
            Some((a, b)) => split_once(s@, c) == Some((a@, b@)),
            None => split_once(s@, c) is None,
        },
{
    assert(s@.skip(0) =~= s@);
    match find_from(s, 0, c) {
        Some(k) => {
            let a = slice_chars(s, 0, k);
            let b = slice_chars(s, k + 1, s.len());
            assert(s@.take(k as int) =~= a@);
            assert(s@.skip(k + 1) =~= b@);
            Some((a, b))
        },
        None => None,
    }
}

/// `str::lines`.
pub fn lines_chars(s: &Vec<char>) -> (r: Vec<Vec<char>>)
    ensures
        views(r@) == lines(s@),
{
    let mut r: Vec<Vec<char>> = Vec::new();
    let mut start: usize = 0;
    assert(s@.skip(0) =~= s@);
    assert(views(r@) =~= Seq::<Seq<char>>::empty());
    while start < s.len()
        invariant
            start <= s.len(),
            views(r@) + lines(s@.skip(start as int)) == lines(s@),
        decreases s.len() - start,
    {
        let ghost t = s@.skip(start as int);
        match find_from(s, start, '\n') {
            Some(k) => {
                let end = if k > start && s[k - 1] == '\r' {
                    k - 1
                } else {
                    k
                };
                let piece = slice_chars(s, start, end);
                proof {
                    assert(strip_cr(t.take(k - start)) =~= piece@);
                    assert(t.skip(k - start + 1) =~= s@.skip(k + 1));
                }
                let ghost before = views(r@);
                r.push(piece);
                assert(views(r@) =~= before.push(piece@));
                assert(before.push(piece@) + lines(s@.skip(k + 1)) =~= before + lines(t));
                start = k + 1;
            },
            None => {
                let piece = slice_chars(s, start, s.len());
                assert(t =~= piece@);
                let ghost before = views(r@);
                r.push(piece);
                assert(views(r@) =~= before.push(piece@));
                assert(before.push(piece@) =~= before + lines(t));
                return r;
            },
        }
    }
    assert(s@.skip(start as int) =~= Seq::<char>::empty());
    assert(views(r@) + Seq::<Seq<char>>::empty() =~= views(r@));
    r
}

/// `str::replace` of a two-character pattern `[a, b]` by nothing, scanning left to right.
pub open spec fn remove_pair(s: Seq<char>, a: char, b: char) -> Seq<char>
    decreases s.len(),
{
    if s.len() < 2 {
        s
    } else if s[0] == a && s[1] == b {
        remove_pair(s.skip(2), a, b)
    } else {
        seq![s[0]] + remove_pair(s.drop_first(), a, b)
    }
}

pub fn remove_pair_chars(s: &Vec<char>, a: char, b: char) -> (r: Vec<char>)
    ensures
        r@ == remove_pair(s@, a, b),
{
    let mut r: Vec<char> = Vec::new();
    let mut i: usize = 0;
    assert(s@.skip(0) =~= s@);
    while i < s.len()
        invariant
            i <= s.len(),
            r@ + remove_pair(s@.skip(i as int), a, b) == remove_pair(s@, a, b),
        decreases s.len() - i,
    {
        let ghost t = s@.skip(i as int);
        if i + 1 < s.len() && s[i] == a && s[i + 1] == b {
            assert(t.skip(2) =~= s@.skip(i + 2));
            i = i + 2;
        } else {
            let ghost before = r@;
            r.push(s[i]);
            proof {
                assert(t.drop_first() =~= s@.skip(i + 1));
                if t.len() < 2 {
                    assert(t.len() == 1);
                    assert(remove_pair(t.drop_first(), a, b) == t.drop_first());
                    assert(t =~= seq![t[0]] + t.drop_first());
                }
                assert(before.push(s@[i as int]) + remove_pair(s@.skip(i + 1), a, b) =~= before
                    + remove_pair(t, a, b));
            }
            i = i + 1;
        }
    }
    assert(s@.skip(i as int) =~= Seq::<char>::empty());
    assert(r@ + Seq::<char>::empty() =~= r@);
    r
}

/// `str::parse::<i32>`.
pub fn parse_i32_chars(s: &Vec<char>) -> (r: Option<i32>)
    ensures
        r == parse_i32(s@),
{
    let negative = s.len() > 0 && s[0] == '-';
    let signed = s.len() > 0 && (s[0] == '-' || s[0] == '+');
    let start: usize = if signed {
        1
    } else {
        0
    };
    let ghost body = if signed {
        s@.drop_first()
    } else {
        s@
    };
    assert(body =~= s@.skip(start as int));
    if start == s.len() {
        return None;
    }
    let mut i: usize = start;
    let mut acc: i64 = 0;
    let mut overflow = false;
    assert(body.take(0) =~= Seq::<char>::empty());
    while i < s.len()
        invariant
            start <= i <= s.len(),
            body == s@.skip(start as int),
            body == (if s@.len() > 0 && (s@[0] == '-' || s@[0] == '+') {
                s@.drop_first()
            } else {
                s@
            }),
            negative == (s@.len() > 0 && s@[0] == '-'),
            all_digits(body.take(i - start)),
            !overflow ==> acc == digits_value(body.take(i - start)) && 0 <= acc <= 2147483648,
            overflow ==> digits_value(body.take(i - start)) > 2147483648,
        decreases s.len() - i,
    {
        let c = s[i];
        if !('0' <= c && c <= '9') {
            proof {
                assert(body[i - start] == c);
                assert(!is_digit(body[i - start]));
                assert(!all_digits(body));
                assert(parse_i32(s@) is None);
            }
            return None;
        }
        let d = (c as u32 - '0' as u32) as i64;
        proof {
            let p = body.take(i - start + 1);
            assert(p.drop_last() =~= body.take(i - start));
            assert(p.last() == c);
            assert(all_digits(p)) by {
                assert forall|j: int| 0 <= j < p.len() implies is_digit(#[trigger] p[j]) by {
                    if j < p.len() - 1 {
                        assert(p[j] == body.take(i - start)[j]);
                    }
                }
            }
            lemma_digits_value_nonneg(body.take(i - start));
        }
        if !overflow {
            acc = acc * 10 + d;
            if acc > 2147483648 {
                overflow = true;
            }
        }
        i = i + 1;
    }
    assert(body.take(i - start) =~= body);
    if overflow {
        return None;
    }
    if negative {
        Some((0 - acc) as i32)
    } else if acc > 2147483647 {
        None
    } else {
        Some(acc as i32)
    }
}

/// Maximal runs of non-space characters (`str::split_whitespace`).
pub open spec fn words(s: Seq<char>) -> Seq<Seq<char>>
    decreases s.len(),
{
    if s.len() == 0 {
        seq![]
    } else {
        let w = words(s.drop_last());
        let c = s.last();
        if is_space(c) {
            w
        } else if s.len() >= 2 && !is_space(s[s.len() - 2]) {
            w.update(w.len() - 1, w.last().push(c))
        } else {
            w.push(seq![c])
        }
    }
}

/// Words joined by single spaces.
pub open spec fn join_words(w: Seq<Seq<char>>) -> Seq<char>
    decreases w.len(),
{
    if w.len() == 0 {
        seq![]
    } else if w.len() == 1 {
        w[0]
    } else {
        join_words(w.drop_last()) + seq![' '] + w.last()
    }
}

/// `split_whitespace` followed by `join(" ")`.
pub open spec fn collapse_spaces(s: Seq<char>) -> Seq<char> {
    join_words(words(s))
}

proof fn lemma_words_nonempty_after_word_char(s: Seq<char>)
    requires
        s.len() > 0,
        !is_space(s.last()),
    ensures
        words(s).len() > 0,
    decreases s.len(),
{
    let w = words(s.drop_last());
    if s.len() >= 2 && !is_space(s[s.len() - 2]) {
        assert(s.drop_last().last() == s[s.len() - 2]);
        lemma_words_nonempty_after_word_char(s.drop_last());
    }
}

proof fn lemma_join_extend(w: Seq<Seq<char>>, c: char)
    requires
        w.len() > 0,
    ensures
        join_words(w.update(w.len() - 1, w.last().push(c))) == join_words(w).push(c),
{
    let u = w.update(w.len() - 1, w.last().push(c));
    if w.len() > 1 {
        assert(u.drop_last() =~= w.drop_last());
    }
}

pub fn collapse_spaces_chars(s: &Vec<char>) -> (r: Vec<char>)
    ensures
        r@ == collapse_spaces(s@),
{
    let mut r: Vec<char> = Vec::new();
    let mut i: usize = 0;
    assert(s@.take(0) =~= Seq::<char>::empty());
    while i < s.len()
        invariant
            i <= s.len(),
            r@ == join_words(words(s@.take(i as int))),
            r@.len() == 0 <==> words(s@.take(i as int)).len() == 0,
        decreases s.len() - i,
    {
        let c = s[i];
        let ghost p = s@.take(i + 1);
        let ghost w = words(s@.take(i as int));
        proof {
            assert(p.drop_last() =~= s@.take(i as int));
            assert(p.last() == c);
        }
        if char_is_space(c) {
            assert(words(p) == w);
        } else if i > 0 && !char_is_space(s[i - 1]) {
            proof {
                assert(p[p.len() - 2] == s@[i - 1]);
                assert(s@.take(i as int).last() == s@[i - 1]);
                lemma_words_nonempty_after_word_char(s@.take(i as int));
                lemma_join_extend(w, c);
            }
            r.push(c);
        } else {
            if r.len() > 0 {
                r.push(' ');
            }
            r.push(c);
            proof {
                let w2 = w.push(seq![c]);
                assert(words(p) == w2);
                assert(w2.drop_last() =~= w);
                if w.len() == 0 {
                    assert(join_words(w2) == seq![c]);
                }
            }
        }
        i = i + 1;
    }
    assert(s@.take(s.len() as int) =~= s@);
    r
}

/// The characters of a string.
pub fn chars_of(s: &str) -> (r: Vec<char>)
    ensures
        r@ == s@,
{
    let mut r: Vec<char> = Vec::new();
    for c in it: s.chars()
        invariant
            r@ == it.history(),
    {
        r.push(c);
    }
    r
}

/// Concatenation of `char::to_lowercase` over a sequence.
pub open spec fn lower_all(s: Seq<char>) -> Seq<char>
    decreases s.len(),
{
    if s.len() == 0 {
        seq![]
    } else {
        lower_all(s.drop_last()) + char_lowercase(s.last())
    }
}

pub fn lower_all_chars(s: &Vec<char>) -> (r: Vec<char>)
    ensures
        r@ == lower_all(s@),
        ascii_chars(s@) ==> r@ == ascii_lower(s@),
{
    let mut r: Vec<char> = Vec::new();
    let mut i: usize = 0;
    assert(s@.take(0) =~= Seq::<char>::empty());
    while i < s.len()
        invariant
            i <= s.len(),
            r@ == lower_all(s@.take(i as int)),
            ascii_chars(s@) ==> r@ == ascii_lower(s@.take(i as int)),
        decreases s.len() - i,
    {
        let ghost r0 = r@;
        let l = lowercase_of(s[i]);
        append_chars(&mut r, &l);
        assert(s@.take(i + 1).drop_last() =~= s@.take(i as int));
        proof {
            if ascii_chars(s@) {
                assert((s@[i as int] as u32) < 0x80);
                assert(ascii_lower(s@.take(i + 1)) =~= ascii_lower(s@.take(i as int)).push(
                    ascii_lower_char(s@[i as int]),
                ));
                assert(r@ =~= r0 + seq![ascii_lower_char(s@[i as int])]);
            }
        }
        i = i + 1;
    }
    assert(s@.take(s.len() as int) =~= s@);
    r
}

/// Name normalization for alias comparison: trim outer whitespace, remove leading `@`
/// prefixes, apply NFKC and lowercase mapping, then collapse whitespace runs to single
/// spaces.
pub open spec fn normalize(s: Seq<char>) -> Seq<char> {
    collapse_spaces(lower_all(nfkc(trim_start_char(trim(s), '@'))))
}

/// Words joined by single spaces: no whitespace at either end, and every whitespace
/// character is a space between two characters that are not whitespace.
pub open spec fn single_spaced(t: Seq<char>) -> bool {
    &&& t.len() > 0 ==> !is_space(t[0]) && !is_space(t.last())
    &&& forall|i: int|
        0 <= i < t.len() && is_space(#[trigger] t[i]) ==> t[i] == ' ' && 0 < i < t.len() - 1
            && !is_space(t[i - 1]) && !is_space(t[i + 1])
}

/// Words that are not empty and hold no whitespace.
pub open spec fn clean_words(w: Seq<Seq<char>>) -> bool {
    forall|k: int|
        0 <= k < w.len() ==> (#[trigger] w[k]).len() > 0 && forall|j: int|
            0 <= j < w[k].len() ==> !is_space(w[k][j])
}

proof fn lemma_words_clean(s: Seq<char>)
    ensures
        clean_words(words(s)),
    decreases s.len(),
{
    if s.len() > 0 {
        lemma_words_clean(s.drop_last());
        let w = words(s.drop_last());
        let c = s.last();
        if !is_space(c) && s.len() >= 2 && !is_space(s[s.len() - 2]) {
            lemma_words_nonempty_after_word_char(s.drop_last());
            let n = w.update(w.len() - 1, w.last().push(c));
            assert forall|k: int| 0 <= k < n.len() implies (#[trigger] n[k]).len() > 0 && forall|j: int|
                0 <= j < n[k].len() ==> !is_space(n[k][j]) by {
                if k == w.len() - 1 {
                    assert(forall|j: int| 0 <= j < w[k].len() ==> n[k][j] == w[k][j]);
                }
            }
        }
    }
}

proof fn lemma_join_single_spaced(w: Seq<Seq<char>>)
    requires
        clean_words(w),
    ensures
        single_spaced(join_words(w)),
        w.len() > 0 ==> join_words(w).len() > 0,
    decreases w.len(),
{
    if w.len() == 1 {
        assert(w[0].len() > 0);
    } else if w.len() > 1 {
        let init = w.drop_last();
        assert(clean_words(init)) by {
            assert forall|k: int| 0 <= k < init.len() implies (#[trigger] init[k]).len() > 0 && forall|j: int|
                0 <= j < init[k].len() ==> !is_space(init[k][j]) by {
                assert(init[k] == w[k]);
            }
        }
        lemma_join_single_spaced(init);
        let a = join_words(init);
        let b = w.last();
        assert(b == w[w.len() - 1]);
        let t = a + seq![' '] + b;
        assert(join_words(w) == t);
        assert(is_space(' '));
        assert forall|i: int| 0 <= i < t.len() && is_space(#[trigger] t[i]) implies t[i] == ' '
            && 0 < i < t.len() - 1 && !is_space(t[i - 1]) && !is_space(t[i + 1]) by {
            if i < a.len() {
                assert(t[i] == a[i]);
                if i + 1 < a.len() {
                    assert(t[i + 1] == a[i + 1]);
                }
                assert(t[i - 1] == a[i - 1]);
            } else if i == a.len() {
                assert(t[i - 1] == a[a.len() - 1]);
                assert(t[i + 1] == b[0]);
            } else {
                assert(t[i] == b[i - a.len() - 1]);
            }
        }
        assert(t[0] == a[0]);
        assert(t[t.len() - 1] == b[b.len() - 1]);
    }
}

/// Collapsing whitespace leaves words joined by single spaces.
pub proof fn lemma_collapse_single_spaced(s: Seq<char>)
    ensures
        single_spaced(collapse_spaces(s)),
{
    lemma_words_clean(s);
    lemma_join_single_spaced(words(s));
}

proof fn lemma_trim_start_subset(s: Seq<char>)
    ensures
        forall|i: int| 0 <= i < trim_start(s).len() ==> s.contains(#[trigger] trim_start(s)[i]),
    decreases s.len(),
{
    if s.len() > 0 && is_space(s[0]) {
        lemma_trim_start_subset(s.drop_first());
        assert forall|i: int| 0 <= i < trim_start(s).len() implies s.contains(
            #[trigger] trim_start(s)[i],
        ) by {
            let x = trim_start(s)[i];
            assert(trim_start(s) == trim_start(s.drop_first()));
            assert(x == trim_start(s.drop_first())[i]);
            assert(s.drop_first().contains(x));
            let k = choose|k: int| 0 <= k < s.drop_first().len() && s.drop_first()[k] == x;
            assert(s[k + 1] == x);
        }
    } else {
        assert forall|i: int| 0 <= i < trim_start(s).len() implies s.contains(
            #[trigger] trim_start(s)[i],
        ) by {
            assert(s[i] == trim_start(s)[i]);
        }
    }
}

proof fn lemma_trim_end_subset(s: Seq<char>)
    ensures
        forall|i: int| 0 <= i < trim_end(s).len() ==> s.contains(#[trigger] trim_end(s)[i]),
    decreases s.len(),
{
    if s.len() > 0 && is_space(s.last()) {
        lemma_trim_end_subset(s.drop_last());
        assert forall|i: int| 0 <= i < trim_end(s).len() implies s.contains(
            #[trigger] trim_end(s)[i],
        ) by {
            let x = trim_end(s)[i];
            assert(trim_end(s) == trim_end(s.drop_last()));
            assert(x == trim_end(s.drop_last())[i]);
            assert(s.drop_last().contains(x));
            let k = choose|k: int| 0 <= k < s.drop_last().len() && s.drop_last()[k] == x;
            assert(s[k] == x);
        }
    } else {
        assert forall|i: int| 0 <= i < trim_end(s).len() implies s.contains(
            #[trigger] trim_end(s)[i],
        ) by {
            assert(s[i] == trim_end(s)[i]);
        }
    }
}

proof fn lemma_trim_start_char_subset(s: Seq<char>, c: char)
    ensures
        forall|i: int|
            0 <= i < trim_start_char(s, c).len() ==> s.contains(#[trigger] trim_start_char(s, c)[i]),
    decreases s.len(),
{
    if s.len() > 0 && s[0] == c {
        lemma_trim_start_char_subset(s.drop_first(), c);
        assert forall|i: int| 0 <= i < trim_start_char(s, c).len() implies s.contains(
            #[trigger] trim_start_char(s, c)[i],
        ) by {
            let x = trim_start_char(s, c)[i];
            assert(trim_start_char(s, c) == trim_start_char(s.drop_first(), c));
            assert(x == trim_start_char(s.drop_first(), c)[i]);
            assert(s.drop_first().contains(x));
            let k = choose|k: int| 0 <= k < s.drop_first().len() && s.drop_first()[k] == x;
            assert(s[k + 1] == x);
        }
    } else {
        assert forall|i: int| 0 <= i < trim_start_char(s, c).len() implies s.contains(
            #[trigger] trim_start_char(s, c)[i],
        ) by {
            assert(s[i] == trim_start_char(s, c)[i]);
        }
    }
}

/// The part of a name that normalization works on: trimmed, without leading `@`.
pub open spec fn name_core(s: Seq<char>) -> Seq<char> {
    trim_start_char(trim(s), '@')
}

proof fn lemma_name_core_ascii(s: Seq<char>)
    requires
        ascii_chars(s),
    ensures
        ascii_chars(name_core(s)),
{
    lemma_trim_start_subset(s);
    lemma_trim_end_subset(trim_start(s));
    lemma_trim_start_char_subset(trim(s), '@');
    let t = trim_start(s);
    let u = trim(s);
    let v = name_core(s);
    assert forall|i: int| 0 <= i < v.len() implies (#[trigger] v[i] as u32) < 0x80 by {
        assert(u.contains(v[i]));
        let k = choose|k: int| 0 <= k < u.len() && u[k] == v[i];
        assert(t.contains(u[k]));
        let m = choose|m: int| 0 <= m < t.len() && t[m] == u[k];
        assert(s.contains(t[m]));
        let q = choose|q: int| 0 <= q < s.len() && s[q] == t[m];
        assert((s[q] as u32) < 0x80);
    }
}

pub fn normalize_chars(s: &Vec<char>) -> (r: Vec<char>)
    ensures
        r@ == normalize(s@),
        single_spaced(r@),
        name_core(s@).len() == 0 ==> r@.len() == 0,
        ascii_chars(s@) ==> r@ == collapse_spaces(ascii_lower(name_core(s@))),
{
    proof {
        lemma_collapse_single_spaced(lower_all(nfkc(name_core(s@))));
        if ascii_chars(s@) {
            lemma_name_core_ascii(s@);
        }
    }
    let t = trim_chars(s);
    let u = trim_start_char_chars(&t, '@');
    let n = nfkc_chars(&u);
    let l = lower_all_chars(&n);
    collapse_spaces_chars(&l)
}

/// Normalize a font name for exact alias comparison.
///
/// Trims outer whitespace, removes leading ASS vertical-font `@` prefixes, applies
/// Unicode NFKC and lowercase conversion, then collapses whitespace to single spaces.
/// This is neither fuzzy matching nor complete Unicode case folding.
pub fn normalize_name(name: &str) -> (r: String)
    ensures
        r@ == normalize(name@),
        single_spaced(r@),
        name_core(name@).len() == 0 ==> r@.len() == 0,
        ascii_chars(name@) ==> r@ == collapse_spaces(ascii_lower(name_core(name@))),
{
    let v = chars_of(name);
    let n = normalize_chars(&v);
    string_from_chars(&n)
}

} // verus!
