//! Text normalisation: trimming, dropping a character, and reading the
//! group suffix `-<n>/<m>` of a subject name.
use vstd::prelude::*;
use vstd::string::*;

verus! {

/// The characters that carry the Unicode `White_Space` property.
pub open spec fn is_ws(c: char) -> bool {
    ('\u{9}' <= c && c <= '\u{d}') || c == ' ' || c == '\u{85}' || c == '\u{a0}' || c
        == '\u{1680}' || ('\u{2000}' <= c && c <= '\u{200a}') || c == '\u{2028}' || c
        == '\u{2029}' || c == '\u{202f}' || c == '\u{205f}' || c == '\u{3000}'
}

pub open spec fn trim_end(s: Seq<char>) -> Seq<char>
    decreases s.len(),
{
    if s.len() > 0 && is_ws(s.last()) {
        trim_end(s.drop_last())
    } else {
        s
    }
}

pub open spec fn trim_start(s: Seq<char>) -> Seq<char>
    decreases s.len(),
{
    if s.len() > 0 && is_ws(s[0]) {
        trim_start(s.drop_first())
    } else {
        s
    }
}

/// `s` without its leading and trailing whitespace.
pub open spec fn trim(s: Seq<char>) -> Seq<char> {
    trim_start(trim_end(s))
}

/// Relies on std's `str::trim`, which removes leading and trailing
/// characters with the Unicode `White_Space` property.
#[verifier::external_body]
pub(crate) fn trimmed(s: &str) -> (r: String)
    ensures
        r@ == trim(s@),
{
    s.trim().to_string()
}

/// Relies on std's `String::push`, which appends one character.
#[verifier::external_body]
pub(crate) fn push_char(s: &mut String, c: char)
    ensures
        final(s)@ == old(s)@.push(c),
{
    s.push(c)
}

/// `s` with every occurrence of `c` removed.
pub open spec fn remove_char(s: Seq<char>, c: char) -> Seq<char>
    decreases s.len(),
{
    if s.len() == 0 {
        s
    } else if s.last() == c {
        remove_char(s.drop_last(), c)
    } else {
        remove_char(s.drop_last(), c).push(s.last())
    }
}

/// The characters of `s` in `lo..hi`, without those equal to `c`.
pub fn copy_without(s: &str, lo: usize, hi: usize, c: char) -> (r: String)
    requires
        lo <= hi <= s@.len(),
    ensures
        r@ == remove_char(s@.subrange(lo as int, hi as int), c),
{
    let mut r = String::new();
    let mut i: usize = lo;
    while i < hi
        invariant
            lo <= i <= hi,
            hi <= s@.len(),
            r@ == remove_char(s@.subrange(lo as int, i as int), c),
        decreases hi - i,
    {
        let x = s.get_char(i);
        assert(s@.subrange(lo as int, i + 1).drop_last() == s@.subrange(lo as int, i as int));
        if x != c {
            push_char(&mut r, x);
        }
        i = i + 1;
    }
    r
}

/// Position of the last `c` in `s`.
pub open spec fn last_index_of(s: Seq<char>, c: char) -> Option<int>
    decreases s.len(),
{
    if s.len() == 0 {
        None
    } else if s.last() == c {
        Some(s.len() - 1)
    } else {
        last_index_of(s.drop_last(), c)
    }
}

/// Position of the first `c` in `s`, or the length of `s` if there is none.
pub open spec fn first_index_of(s: Seq<char>, c: char) -> int
    decreases s.len(),
{
    if s.len() == 0 || s[0] == c {
        0
    } else {
        1 + first_index_of(s.drop_first(), c)
    }
}

pub proof fn lemma_first_index_of(s: Seq<char>, c: char, i: int)
    requires
        0 <= i <= s.len(),
        forall|j: int| 0 <= j < i ==> s[j] != c,
        i == s.len() || s[i] == c,
    ensures
        first_index_of(s, c) == i,
    decreases s.len(),
{
    if s.len() > 0 && s[0] != c {
        assert forall|j: int| 0 <= j < i - 1 implies s.drop_first()[j] != c by {
            assert(s[j + 1] != c);
        }
        lemma_first_index_of(s.drop_first(), c, i - 1);
    }
}

pub open spec fn is_digit(c: char) -> bool {
    '0' <= c && c <= '9'
}

pub open spec fn digit_value(c: char) -> nat {
    ((c as u32) - ('0' as u32)) as nat
}

/// The number that a string of decimal digits writes.
pub open spec fn digits_value(s: Seq<char>) -> nat
    decreases s.len(),
{
    if s.len() == 0 {
        0
    } else {
        digits_value(s.drop_last()) * 10 + digit_value(s.last())
    }
}

/// A string of one or more decimal digits whose value is at most 255.
pub open spec fn digits_u8(d: Seq<char>) -> Option<u8> {
    if d.len() > 0 && (forall|i: int| 0 <= i < d.len() ==> is_digit(#[trigger] d[i]))
        && digits_value(d) <= 255 {
        Some(digits_value(d) as u8)
    } else {
        None
    }
}

/// A decimal `u8` as Rust writes it: an optional `+`, then the digits.
pub open spec fn parse_u8(s: Seq<char>) -> Option<u8> {
    if s.len() > 0 && s[0] == '+' {
        digits_u8(s.drop_first())
    } else {
        digits_u8(s)
    }
}

/// Reads the characters of `s` in `lo..hi` as a decimal `u8`.
pub fn parse_u8_in(s: &str, lo: usize, hi: usize) -> (r: Option<u8>)
    requires
        lo <= hi <= s@.len(),
    ensures
        r == parse_u8(s@.subrange(lo as int, hi as int)),
{
    let ghost t = s@.subrange(lo as int, hi as int);
    let mut start: usize = lo;
    if lo < hi && s.get_char(lo) == '+' {
        start = lo + 1;
    }
    let ghost d = s@.subrange(start as int, hi as int);
    assert(d == (if t.len() > 0 && t[0] == '+' {
        t.drop_first()
    } else {
        t
    }));
    if start == hi {
        return None;
    }
    // the value read so far, held at 256 once it passes 255
    let mut v: u32 = 0;
    let mut i: usize = start;
    while i < hi
        invariant
            start <= i <= hi,
            hi <= s@.len(),
            d == s@.subrange(start as int, hi as int),
            t == s@.subrange(lo as int, hi as int),
            lo <= start,
            d == (if t.len() > 0 && t[0] == '+' {
                t.drop_first()
            } else {
                t
            }),
            forall|j: int| 0 <= j < i - start ==> is_digit(#[trigger] d[j]),
            v <= 256,
            v == (if digits_value(d.take(i - start)) <= 256 {
                digits_value(d.take(i - start))
            } else {
                256
            }),
        decreases hi - i,
    {
        let c = s.get_char(i);
        assert(d[i - start] == c);
        if c < '0' || c > '9' {
            assert(!is_digit(d[i - start]));
            assert(parse_u8(t) == None::<u8>);
            return None;
        }
        assert(d.take(i - start + 1).drop_last() == d.take(i - start));
        assert(d.take(i - start + 1).last() == c);
        let x: u32 = (c as u32) - ('0' as u32);
        assert(x == digit_value(c));
        let w: u32 = v * 10 + x;
        v = if w > 256 {
            256
        } else {
            w
        };
        i = i + 1;
    }
    assert(d.take(hi - start) == d);
    if v <= 255 {
        Some(v as u8)
    } else {
        None
    }
}

/// The group a subject names in a trailing `-<n>/<m>`, and the subject
/// without it. Without a hyphen, or where `<n>` is no `u8`, the group is 0
/// and the subject stays as it is. The subject that is kept is everything
/// before the last hyphen, with its own hyphens removed.
pub open spec fn group_of(subject: Seq<char>) -> (u8, Seq<char>) {
    match last_index_of(subject, '-') {
        None => (0u8, subject),
        Some(k) => {
            let tail = subject.subrange(k + 1, subject.len() as int);
            match parse_u8(tail.take(first_index_of(tail, '/'))) {
                Some(n) => (n, remove_char(subject.take(k), '-')),
                None => (0u8, subject),
            }
        },
    }
}

/// Splits off the group suffix of a subject name.
pub fn resolve_group(subject: &str) -> (r: (u8, String))
    ensures
        r.0 == group_of(subject@).0,
        r.1@ == group_of(subject@).1,
{
    let n = subject.unicode_len();
    let mut last: Option<usize> = None;
    let mut i: usize = 0;
    while i < n
        invariant
            n == subject@.len(),
            i <= n,
            match last {
                Some(k) => last_index_of(subject@.take(i as int), '-') == Some(k as int) && k < i,
                None => last_index_of(subject@.take(i as int), '-') == None::<int>,
            },
        decreases n - i,
    {
        assert(subject@.take(i + 1).drop_last() == subject@.take(i as int));
        if subject.get_char(i) == '-' {
            last = Some(i);
        }
        i = i + 1;
    }
    assert(subject@.take(n as int) == subject@);
    match last {
        None => (0, String::from_str(subject)),
        Some(k) => {
            let ghost tail = subject@.subrange(k + 1, n as int);
            let mut j: usize = k + 1;
            while j < n && subject.get_char(j) != '/'
                invariant
                    k + 1 <= j <= n,
                    n == subject@.len(),
                    tail == subject@.subrange(k + 1, n as int),
                    forall|x: int| 0 <= x < j - (k + 1) ==> tail[x] != '/',
                decreases n - j,
            {
                j = j + 1;
            }
            proof {
                lemma_first_index_of(tail, '/', j - (k + 1));
                assert(tail.take(j - (k + 1)) == subject@.subrange(k + 1, j as int));
            }
            match parse_u8_in(subject, k + 1, j) {
                Some(g) => {
                    assert(subject@.subrange(0, k as int) == subject@.take(k as int));
                    (g, copy_without(subject, 0, k, '-'))
                },
                None => (0, String::from_str(subject)),
            }
        },
    }
}

proof fn lemma_no_char(s: Seq<char>, c: char)
    requires
        forall|i: int| 0 <= i < s.len() ==> s[i] != c,
    ensures
        last_index_of(s, c) == None::<int>,
        remove_char(s, c) == s,
    decreases s.len(),
{
    if s.len() > 0 {
        lemma_no_char(s.drop_last(), c);
        assert(s.drop_last().push(s.last()) =~= s);
    }
}

/// A subject without hyphens of its own names group 0 and stays as it is;
/// followed by `-2/2` it names group 2, and the suffix is taken off.
pub proof fn lemma_group_suffix(s: Seq<char>)
    requires
        forall|i: int| 0 <= i < s.len() ==> s[i] != '-',
    ensures
        group_of(s) == (0u8, s),
        group_of(s + "-2/2"@) == (2u8, s),
{
    lemma_no_char(s, '-');
    reveal_strlit("-2/2");
    let t = s + "-2/2"@;
    let n = s.len() as int;
    assert(t.drop_last() =~= s + seq!['-', '2', '/']);
    assert(t.drop_last().drop_last() =~= s + seq!['-', '2']);
    assert(t.drop_last().drop_last().drop_last() =~= s + seq!['-']);
    assert(last_index_of(s + seq!['-'], '-') == Some(n));
    assert(last_index_of(s + seq!['-', '2'], '-') == Some(n));
    assert(last_index_of(s + seq!['-', '2', '/'], '-') == Some(n));
    assert(last_index_of(t, '-') == Some(n));
    let tail = t.subrange(n + 1, t.len() as int);
    assert(tail =~= seq!['2', '/', '2']);
    assert(tail.drop_first() =~= seq!['/', '2']);
    assert(tail[0] == '2');
    assert(tail.drop_first()[0] == '/');
    assert(first_index_of(tail.drop_first(), '/') == 0);
    assert(first_index_of(tail, '/') == 1);
    let d = tail.take(1);
    assert(d =~= seq!['2']);
    assert(d.drop_last() =~= Seq::<char>::empty());
    assert(d.last() == '2');
    assert(digits_value(d.drop_last()) == 0);
    assert(('2' as u32) == 50);
    assert(('0' as u32) == 48);
    assert(digit_value('2') == 2);
    assert(digits_value(d) == 2);
    assert(parse_u8(d) == Some(2u8));
    assert(t.take(n) =~= s);
}

} // verus!
