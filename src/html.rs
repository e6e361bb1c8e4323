//! A parsed HTML document as a flat stream of tokens, with the depth of
//! every node, and the element queries that the timetable extraction needs.
use vstd::prelude::*;
use vstd::string::*;

verus! {

/// One step of a depth-first walk over a parsed document tree.
pub enum Token {
    /// Entering an element: its local tag name and its class list.
    Open(String, Vec<String>),
    /// Entering a text node.
    Text(String),
    /// Entering a node of any other kind (the document root, a comment, a doctype).
    Other,
    /// Leaving the node most recently entered and not yet left.
    Close,
}

/// The tokens as the HTML parser produced them for a document text.
pub uninterp spec fn html_tokens(html: Seq<char>) -> Seq<Token>;

/// Relies on scraper's `Html::parse_document` for the tree and on ego_tree's
/// `traverse`, which enters and leaves each node in document order.
#[verifier::external_body]
fn parse_tokens(html: &str) -> (r: Vec<Token>)
    ensures
        r@ == html_tokens(html@),
{
    let doc = scraper::Html::parse_document(html);
    doc.tree.root().traverse().map(|edge| match edge {
        ego_tree::iter::Edge::Open(n) => match n.value() {
            scraper::Node::Element(e) => Token::Open(
                e.name().to_string(),
                e.classes().map(|c| c.to_string()).collect(),
            ),
            scraper::Node::Text(t) => Token::Text((**t).to_string()),
            _ => Token::Other,
        },
        ego_tree::iter::Edge::Close(_) => Token::Close,
    }).collect()
}

/// Depth at which the token at `k` stands.
pub open spec fn depth_at(t: Seq<Token>, k: int) -> nat {
    depth_after(t.take(k))
}

pub open spec fn is_close(t: Token) -> bool {
    t is Close
}

/// Depth reached after the walk has gone through `t`; a stray `Close` at
/// depth zero leaves it at zero.
pub open spec fn depth_after(t: Seq<Token>) -> nat
    decreases t.len(),
{
    if t.len() == 0 {
        0
    } else {
        let d = depth_after(t.drop_last());
        if is_close(t.last()) {
            if d > 0 { (d - 1) as nat } else { 0 }
        } else {
            d + 1
        }
    }
}

/// A token stream with the depth at which each of its tokens stands.
pub struct Document {
    pub tokens: Vec<Token>,
    pub depths: Vec<usize>,
}

impl Document {
    pub open spec fn wf(&self) -> bool {
        &&& self.depths@.len() == self.tokens@.len()
        &&& forall|i: int|
            0 <= i < self.tokens@.len() ==> self.depths@[i] == depth_at(
                self.tokens@,
                i,
            ) && #[trigger] self.depths@[i] <= i
    }

    pub open spec fn len(&self) -> int {
        self.tokens@.len() as int
    }

    /// Annotates each token with the depth at which it stands.
    pub fn from_tokens(tokens: Vec<Token>) -> (r: Document)
        ensures
            r.tokens@ == tokens@,
            r.wf(),
    {
        let mut depths: Vec<usize> = Vec::new();
        let mut d: usize = 0;
        let n = tokens.len();
        let mut i: usize = 0;
        while i < n
            invariant
                n == tokens@.len(),
                i <= n,
                depths@.len() == i,
                d as nat == depth_after(tokens@.take(i as int)),
                d <= i,
                forall|j: int|
                    0 <= j < i ==> depths@[j] == depth_at(tokens@, j) && #[trigger] depths@[j] <= j,
            decreases n - i,
        {
            depths.push(d);
            assert(tokens@.take(i + 1).drop_last() == tokens@.take(i as int));
            match &tokens[i] {
                Token::Close => {
                    if d > 0 {
                        d = d - 1;
                    }
                },
                _ => {
                    d = d + 1;
                },
            }
            i = i + 1;
        }
        Document { tokens, depths }
    }

    /// Parses a document text with the HTML parser.
    pub fn parse(html: &str) -> (r: Document)
        ensures
            r.tokens@ == html_tokens(html@),
            r.wf(),
    {
        Document::from_tokens(parse_tokens(html))
    }
}

/// End (exclusive) of the subtree of the node at `i`: the first later node
/// that stands no deeper than it, or the end of the document.
pub open spec fn end_from(doc: Seq<Token>, d: int, j: int) -> int
    decreases doc.len() - j,
{
    if j >= doc.len() || j < 0 {
        doc.len() as int
    } else if !is_close(doc[j]) && depth_at(doc, j) <= d {
        j
    } else {
        end_from(doc, d, j + 1)
    }
}

pub open spec fn subtree_end(doc: Seq<Token>, i: int) -> int {
    end_from(doc, depth_at(doc, i) as int, i + 1)
}

/// Whether the token at `k` opens an element with this tag, this class (if
/// one is asked for) and this depth (if one is asked for).
pub open spec fn matches_at(
    doc: Seq<Token>,
    k: int,
    tag: Seq<char>,
    class: Option<&str>,
    depth: Option<usize>,
) -> bool {
    match doc[k] {
        Token::Open(t, cs) => {
            &&& t@ == tag
            &&& match class {
                Some(c) => exists|j: int| 0 <= j < cs@.len() && (#[trigger] cs@[j])@ == c@,
                None => true,
            }
            &&& match depth {
                Some(dp) => depth_at(doc, k) == dp,
                None => true,
            }
        },
        _ => false,
    }
}

/// Positions in `lo..hi` of the elements that match, in document order.
pub open spec fn select(
    doc: Seq<Token>,
    lo: int,
    hi: int,
    tag: Seq<char>,
    class: Option<&str>,
    depth: Option<usize>,
) -> Seq<int>
    decreases hi - lo,
{
    if lo >= hi {
        Seq::empty()
    } else {
        let rest = select(doc, lo + 1, hi, tag, class, depth);
        if matches_at(doc, lo, tag, class, depth) {
            seq![lo].add(rest)
        } else {
            rest
        }
    }
}

pub open spec fn first_of(s: Seq<int>) -> Option<int> {
    if s.len() > 0 { Some(s[0]) } else { None }
}

/// Text contents of the text nodes in `lo..hi`, in document order.
pub open spec fn texts(doc: Seq<Token>, lo: int, hi: int) -> Seq<Seq<char>>
    decreases hi - lo,
{
    if lo >= hi {
        Seq::empty()
    } else {
        let rest = texts(doc, lo + 1, hi);
        match doc[lo] {
            Token::Text(s) => seq![s@].add(rest),
            _ => rest,
        }
    }
}

/// The strings joined with one space between neighbours.
pub open spec fn join_spaced(ss: Seq<Seq<char>>) -> Seq<char>
    decreases ss.len(),
{
    if ss.len() == 0 {
        Seq::empty()
    } else if ss.len() == 1 {
        ss[0]
    } else {
        join_spaced(ss.drop_last()) + seq![' '] + ss.last()
    }
}

/// All text below the element at `k`, its pieces joined with spaces.
pub open spec fn raw_text(doc: Seq<Token>, k: int) -> Seq<char> {
    join_spaced(texts(doc, k + 1, subtree_end(doc, k)))
}

pub fn str_eq(a: &str, b: &str) -> (r: bool)
    ensures
        r == (a@ == b@),
{
    let n = a.unicode_len();
    if n != b.unicode_len() {
        return false;
    }
    let mut i: usize = 0;
    while i < n
        invariant
            n == a@.len(),
            n == b@.len(),
            i <= n,
            forall|j: int| 0 <= j < i ==> a@[j] == b@[j],
        decreases n - i,
    {
        if a.get_char(i) != b.get_char(i) {
            return false;
        }
        i = i + 1;
    }
    assert(a@ == b@);
    true
}

fn has_class(cs: &Vec<String>, class: &str) -> (r: bool)
    ensures
        r == exists|j: int| 0 <= j < cs@.len() && (#[trigger] cs@[j])@ == class@,
{
    let mut i: usize = 0;
    while i < cs.len()
        invariant
            i <= cs@.len(),
            forall|j: int| 0 <= j < i ==> (#[trigger] cs@[j])@ != class@,
        decreases cs@.len() - i,
    {
        if str_eq(cs[i].as_str(), class) {
            return true;
        }
        i = i + 1;
    }
    false
}

impl Document {
    pub fn is_match(&self, k: usize, tag: &str, class: Option<&str>, depth: Option<usize>) -> (r: bool)
        requires
            self.wf(),
            k < self.len(),
        ensures
            r == matches_at(
                self.tokens@,
                k as int,
                tag@,
                class,
                depth,
            ),
    {
        match &self.tokens[k] {
            Token::Open(t, cs) => {
                if !str_eq(t.as_str(), tag) {
                    return false;
                }
                let class_ok = match class {
                    Some(c) => has_class(cs, c),
                    None => true,
                };
                let depth_ok = match depth {
                    Some(d) => self.depths[k] == d,
                    None => true,
                };
                class_ok && depth_ok
            },
            _ => false,
        }
    }

    /// End (exclusive) of the subtree of the node at `i`.
    pub fn subtree_end(&self, i: usize) -> (r: usize)
        requires
            self.wf(),
            i < self.len(),
        ensures
            r as int == subtree_end(self.tokens@, i as int),
            i < r <= self.len(),
    {
        let d = self.depths[i];
        let n = self.tokens.len();
        let mut j: usize = i + 1;
        while j < n
            invariant
                self.wf(),
                i < j <= self.len(),
                n == self.len(),
                d == self.depths@[i as int],
                end_from(self.tokens@, d as int, j as int) == subtree_end(self.tokens@, i as int),
            decreases self.len() - j,
        {
            let close = match &self.tokens[j] {
                Token::Close => true,
                _ => false,
            };
            if !close && self.depths[j] <= d {
                return j;
            }
            j = j + 1;
        }
        j
    }

    /// Positions in `lo..hi` of the elements that match, in document order.
    pub fn select(
        &self,
        lo: usize,
        hi: usize,
        tag: &str,
        class: Option<&str>,
        depth: Option<usize>,
    ) -> (r: Vec<usize>)
        requires
            self.wf(),
            hi <= self.len(),
        ensures
            r@.map_values(|k: usize| k as int) == select(
                self.tokens@,
                lo as int,
                hi as int,
                tag@,
                class,
                depth,
            ),
            forall|j: int| 0 <= j < r@.len() ==> lo <= #[trigger] r@[j] < hi,
    {
        let mut r: Vec<usize> = Vec::new();
        let mut k: usize = lo;
        while k < hi
            invariant
                self.wf(),
                hi <= self.len(),
                lo <= k,
                k <= hi || lo >= hi,
                r@.map_values(|k: usize| k as int) + select(self.tokens@, k as int, hi as int, tag@, class, depth)
                    == select(self.tokens@, lo as int, hi as int, tag@, class, depth),
                forall|j: int| 0 <= j < r@.len() ==> lo <= #[trigger] r@[j] < k,
            decreases hi - k,
        {
            let ghost before = r@.map_values(|k: usize| k as int);
            let m = self.is_match(k, tag, class, depth);
            assert(m == matches_at(self.tokens@, k as int, tag@, class, depth));
            assert(select(self.tokens@, k as int, hi as int, tag@, class, depth) == (if m {
                seq![k as int].add(select(self.tokens@, k + 1, hi as int, tag@, class, depth))
            } else {
                select(self.tokens@, k + 1, hi as int, tag@, class, depth)
            }));
            if m {
                r.push(k);
                assert(r@.map_values(|k: usize| k as int) == before.push(k as int));
                assert(before.push(k as int) + select(self.tokens@, k + 1, hi as int, tag@, class, depth) =~= before
                    + (seq![k as int] + select(self.tokens@, k + 1, hi as int, tag@, class, depth)));
            }
            k = k + 1;
        }
        assert(select(self.tokens@, k as int, hi as int, tag@, class, depth) =~= Seq::<int>::empty());
        assert(r@.map_values(|k: usize| k as int) + Seq::<int>::empty() =~= r@.map_values(
            |k: usize| k as int,
        ));
        r
    }

    /// Position of the first element in `lo..hi` that matches.
    pub fn first(
        &self,
        lo: usize,
        hi: usize,
        tag: &str,
        class: Option<&str>,
        depth: Option<usize>,
    ) -> (r: Option<usize>)
        requires
            self.wf(),
            hi <= self.len(),
        ensures
            match r {
                Some(k) => first_of(
                    select(
                        self.tokens@,
                        lo as int,
                        hi as int,
                        tag@,
                        class,
                        depth,
                    ),
                ) == Some(k as int) && lo <= k < hi,
                None => first_of(
                    select(
                        self.tokens@,
                        lo as int,
                        hi as int,
                        tag@,
                        class,
                        depth,
                    ),
                ) == None::<int>,
            },
    {
        let mut k: usize = lo;
        while k < hi
            invariant
                self.wf(),
                hi <= self.len(),
                lo <= k,
                select(self.tokens@, k as int, hi as int, tag@, class, depth) == select(
                    self.tokens@,
                    lo as int,
                    hi as int,
                    tag@,
                    class,
                    depth,
                ),
            decreases hi - k,
        {
            if self.is_match(k, tag, class, depth) {
                return Some(k);
            }
            k = k + 1;
        }
        None
    }
}

proof fn lemma_texts_extend(doc: Seq<Token>, lo: int, hi: int)
    requires
        lo <= hi < doc.len(),
    ensures
        texts(doc, lo, hi + 1) == texts(doc, lo, hi) + match doc[hi] {
            Token::Text(s) => seq![s@],
            _ => Seq::empty(),
        },
    decreases hi - lo,
{
    if lo < hi {
        lemma_texts_extend(doc, lo + 1, hi);
        let tail = match doc[hi] {
            Token::Text(s) => seq![s@],
            _ => Seq::<Seq<char>>::empty(),
        };
        match doc[lo] {
            Token::Text(s) => {
                assert(seq![s@] + texts(doc, lo + 1, hi) + tail =~= seq![s@] + (texts(
                    doc,
                    lo + 1,
                    hi,
                ) + tail));
            },
            _ => {},
        }
    } else {
        assert(texts(doc, hi + 1, hi + 1) =~= Seq::<Seq<char>>::empty());
        match doc[hi] {
            Token::Text(s) => {
                assert(seq![s@].add(Seq::<Seq<char>>::empty()) =~= seq![s@]);
            },
            _ => {},
        }
        assert(Seq::<Seq<char>>::empty() + texts(doc, lo, hi + 1) =~= texts(doc, lo, hi + 1));
    }
}

proof fn lemma_join_push(ss: Seq<Seq<char>>, x: Seq<char>)
    ensures
        join_spaced(ss.push(x)) == if ss.len() == 0 {
            x
        } else {
            join_spaced(ss) + seq![' '] + x
        },
{
    assert(ss.push(x).drop_last() =~= ss);
}

impl Document {
    /// All text below the element at `k`, its pieces joined with spaces.
    pub fn raw_text(&self, k: usize) -> (r: String)
        requires
            self.wf(),
            k < self.len(),
        ensures
            r@ == raw_text(self.tokens@, k as int),
    {
        let e = self.subtree_end(k);
        let mut r = String::new();
        let mut any = false;
        let mut j: usize = k + 1;
        proof {
            reveal_strlit(" ");
        }
        while j < e
            invariant
                self.wf(),
                k < j <= e,
                e <= self.len(),
                e == subtree_end(self.tokens@, k as int),
                r@ == join_spaced(texts(self.tokens@, k + 1, j as int)),
                any == (texts(self.tokens@, k + 1, j as int).len() > 0),
                " "@ == seq![' '],
            decreases e - j,
        {
            proof {
                lemma_texts_extend(self.tokens@, k + 1, j as int);
            }
            match &self.tokens[j] {
                Token::Text(s) => {
                    proof {
                        lemma_join_push(texts(self.tokens@, k + 1, j as int), s@);
                        assert(texts(self.tokens@, k + 1, j as int) + seq![s@] =~= texts(
                            self.tokens@,
                            k + 1,
                            j as int,
                        ).push(s@));
                    }
                    if any {
                        r.append(" ");
                    }
                    r.append(s.as_str());
                    any = true;
                },
                _ => {
                    assert(texts(self.tokens@, k + 1, j as int) + Seq::<Seq<char>>::empty()
                        =~= texts(self.tokens@, k + 1, j as int));
                },
            }
            j = j + 1;
        }
        r
    }
}

} // verus!
