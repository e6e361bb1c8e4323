//! Entries of the catalog page that lists the published timetables.
use vstd::prelude::*;
use vstd::string::*;

use crate::schedule::Class;
use crate::text::{first_index_of, last_index_of, lemma_first_index_of, push_char, trim, trimmed};

verus! {

/// Whether `pat` stands in `s` from position `i` on.
pub open spec fn occurs_at(s: Seq<char>, pat: Seq<char>, i: int) -> bool {
    0 <= i && i + pat.len() <= s.len() && s.subrange(i, i + pat.len()) == pat
}

pub open spec fn contains(s: Seq<char>, pat: Seq<char>) -> bool {
    exists|i: int| occurs_at(s, pat, i)
}

/// `s` with each occurrence of a non-empty `pat` removed, read from the left.
pub open spec fn remove_all(s: Seq<char>, pat: Seq<char>) -> Seq<char>
    decreases s.len(),
{
    if s.len() == 0 {
        s
    } else if pat.len() > 0 && occurs_at(s, pat, 0) {
        remove_all(s.skip(pat.len() as int), pat)
    } else {
        seq![s[0]] + remove_all(s.drop_first(), pat)
    }
}

/// The identifier that a link names: its last path segment up to the first dot.
pub open spec fn link_id(href: Seq<char>) -> Seq<char> {
    let seg = match last_index_of(href, '/') {
        None => href,
        Some(k) => href.subrange(k + 1, href.len() as int),
    };
    seg.take(first_index_of(seg, '.'))
}

/// The catalog entry for a link: its identifier, its name without the
/// practice marker and trimmed, its address under `base_url`, and whether
/// the name carried the marker.
pub open spec fn entry_of(base_url: Seq<char>, href: Seq<char>, text: Seq<char>, marker: Seq<char>) -> (
    Seq<char>,
    Seq<char>,
    Seq<char>,
    bool,
) {
    (
        link_id(href),
        trim(remove_all(text, marker)),
        base_url + seq!['/'] + href,
        contains(text, marker),
    )
}

fn occurs_at_exec(s: &str, n: usize, pat: &str, m: usize, i: usize) -> (r: bool)
    requires
        n == s@.len(),
        m == pat@.len(),
        i <= n,
    ensures
        r == occurs_at(s@, pat@, i as int),
{
    if m > n - i {
        return false;
    }
    let mut j: usize = 0;
    while j < m
        invariant
            n == s@.len(),
            m == pat@.len(),
            i + m <= n,
            j <= m,
            forall|x: int| 0 <= x < j ==> s@[i + x] == pat@[x],
        decreases m - j,
    {
        if s.get_char(i + j) != pat.get_char(j) {
            assert(s@.subrange(i as int, i + m)[j as int] != pat@[j as int]);
            return false;
        }
        j = j + 1;
    }
    assert(s@.subrange(i as int, i + m) =~= pat@);
    true
}

/// Whether `pat` occurs in `s`.
pub fn contains_str(s: &str, pat: &str) -> (r: bool)
    ensures
        r == contains(s@, pat@),
{
    let n = s.unicode_len();
    let m = pat.unicode_len();
    let mut i: usize = 0;
    while i < n
        invariant
            n == s@.len(),
            m == pat@.len(),
            i <= n,
            forall|x: int| 0 <= x < i ==> !occurs_at(s@, pat@, x),
        decreases n - i,
    {
        if occurs_at_exec(s, n, pat, m, i) {
            return true;
        }
        i = i + 1;
    }
    if occurs_at_exec(s, n, pat, m, n) {
        return true;
    }
    assert forall|x: int| !occurs_at(s@, pat@, x) by {
        if 0 <= x && x + m <= n {
            assert(x < n || x == n);
        }
    }
    false
}

/// `s` with each occurrence of a non-empty `pat` removed, read from the left.
pub fn remove_all_str(s: &str, pat: &str) -> (r: String)
    ensures
        r@ == remove_all(s@, pat@),
{
    let n = s.unicode_len();
    let m = pat.unicode_len();
    let mut r = String::new();
    let mut i: usize = 0;
    assert(s@.skip(0) =~= s@);
    assert(r@ + remove_all(s@, pat@) =~= remove_all(s@, pat@));
    while i < n
        invariant
            n == s@.len(),
            m == pat@.len(),
            i <= n,
            r@ + remove_all(s@.skip(i as int), pat@) == remove_all(s@, pat@),
        decreases n - i,
    {
        let ghost rest = s@.skip(i as int);
        if m > 0 && occurs_at_exec(s, n, pat, m, i) {
            assert(rest.subrange(0, m as int) =~= s@.subrange(i as int, i + m));
            assert(rest.skip(m as int) =~= s@.skip(i + m));
            i = i + m;
        } else {
            if m > 0 && m <= n - i {
                assert(rest.subrange(0, m as int) =~= s@.subrange(i as int, i + m));
            }
            let c = s.get_char(i);
            assert(rest.drop_first() =~= s@.skip(i + 1));
            assert(r@.push(c) + remove_all(s@.skip(i + 1), pat@) =~= r@ + (seq![c] + remove_all(
                s@.skip(i + 1),
                pat@,
            )));
            push_char(&mut r, c);
            i = i + 1;
        }
    }
    assert(remove_all(s@.skip(i as int), pat@) =~= Seq::<char>::empty());
    assert(r@ + Seq::<char>::empty() =~= r@);
    r
}

/// Where the last path segment of `href` begins.
fn segment_start(href: &str, n: usize) -> (start: usize)
    requires
        n == href@.len(),
    ensures
        start <= n,
        href@.subrange(start as int, n as int) == match last_index_of(href@, '/') {
            None => href@,
            Some(k) => href@.subrange(k + 1, n as int),
        },
{
    let mut start: usize = 0;
    let mut i: usize = 0;
    let mut found = false;
    while i < n
        invariant
            n == href@.len(),
            i <= n,
            start <= i,
            found ==> last_index_of(href@.take(i as int), '/') == Some(start - 1),
            !found ==> last_index_of(href@.take(i as int), '/') == None::<int> && start == 0,
            found ==> start >= 1,
        decreases n - i,
    {
        assert(href@.take(i + 1).drop_last() == href@.take(i as int));
        if href.get_char(i) == '/' {
            start = i + 1;
            found = true;
        }
        i = i + 1;
    }
    assert(href@.take(n as int) == href@);
    assert(!found ==> href@.subrange(start as int, n as int) =~= href@);
    start
}

/// Position of the first `c` in `s` at or after `lo`, or `n` if there is none.
fn index_from(s: &str, lo: usize, n: usize, c: char) -> (j: usize)
    requires
        n == s@.len(),
        lo <= n,
    ensures
        lo <= j <= n,
        j - lo == first_index_of(s@.subrange(lo as int, n as int), c),
{
    let ghost seg = s@.subrange(lo as int, n as int);
    let mut j: usize = lo;
    while j < n && s.get_char(j) != c
        invariant
            lo <= j <= n,
            n == s@.len(),
            seg == s@.subrange(lo as int, n as int),
            forall|x: int| 0 <= x < j - lo ==> seg[x] != c,
        decreases n - j,
    {
        j = j + 1;
    }
    proof {
        lemma_first_index_of(seg, c, j - lo);
    }
    j
}

/// The characters of `s` in `lo..hi`.
fn copy_range(s: &str, lo: usize, hi: usize) -> (r: String)
    requires
        lo <= hi <= s@.len(),
    ensures
        r@ == s@.subrange(lo as int, hi as int),
{
    let mut r = String::new();
    let mut k: usize = lo;
    while k < hi
        invariant
            lo <= k <= hi,
            hi <= s@.len(),
            r@ == s@.subrange(lo as int, k as int),
        decreases hi - k,
    {
        let c = s.get_char(k);
        assert(s@.subrange(lo as int, k + 1) =~= s@.subrange(lo as int, k as int).push(c));
        push_char(&mut r, c);
        k = k + 1;
    }
    r
}

/// The identifier that a link names: its last path segment up to the first dot.
pub fn link_id_of(href: &str) -> (r: String)
    ensures
        r@ == link_id(href@),
{
    let n = href.unicode_len();
    let start = segment_start(href, n);
    let j = index_from(href, start, n, '.');
    let ghost seg = href@.subrange(start as int, n as int);
    assert(seg.take(j - start) =~= href@.subrange(start as int, j as int));
    copy_range(href, start, j)
}

/// The catalog entry for a link with this `href` and text: its identifier,
/// its name without `marker` and trimmed, its address under `base_url`, and
/// whether the text carried `marker`.
pub fn class_entry(base_url: &str, href: &str, text: &str, marker: &str) -> (r: Class)
    ensures
        (r.id@, r.name@, r.url@, r.is_on_practice) == entry_of(base_url@, href@, text@, marker@),
{
    let is_on_practice = contains_str(text, marker);
    let bare = remove_all_str(text, marker);
    let name = trimmed(bare.as_str());
    let mut url = String::from_str(base_url);
    proof {
        reveal_strlit("/");
    }
    url.append("/");
    url.append(href);
    Class { id: link_id_of(href), name, url, is_on_practice }
}

} // verus!
