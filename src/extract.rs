//! Reading the timetable out of a parsed document: the table, its rows,
//! each weekday cell, and the sessions a cell holds.
use std::collections::HashMap;
use vstd::prelude::*;

use crate::html::{
    depth_at, first_of, html_tokens, matches_at, raw_text, select, subtree_end, Document, Token,
};
use crate::schedule::{
    field_view, occupants_of, Field, GroupScheduleField, Occupant, Row, Schedule, ScheduleField,
    ScheduleFieldEnum, ScheduleRow,
};
use crate::text::{copy_without, group_of, remove_char, resolve_group, trim, trimmed};

verus! {

broadcast use vstd::std_specs::hash::group_hash_axioms;

/// Why no schedule could be read from a document.
#[derive(Debug, Clone, Copy, PartialEq, Eq)]
pub enum ScheduleError {
    /// The document has no table marked as the timetable.
    MissingTimetable,
}

/// The text below the element at `k`, trimmed.
pub open spec fn text_of(doc: Seq<Token>, k: int) -> Seq<char> {
    trim(raw_text(doc, k))
}

fn text_at(doc: &Document, k: usize) -> (r: String)
    requires
        doc.wf(),
        k < doc.len(),
    ensures
        r@ == text_of(doc.tokens@, k as int),
{
    let raw = doc.raw_text(k);
    trimmed(raw.as_str())
}

/// The first element with this tag and class found in the ranges, taken
/// one after the other.
pub open spec fn first_in(doc: Seq<Token>, rs: Seq<(usize, usize)>, tag: &str, class: &str) -> Option<
    int,
>
    decreases rs.len(),
{
    if rs.len() == 0 {
        None
    } else {
        match first_of(select(doc, rs[0].0 as int, rs[0].1 as int, tag@, Some(class), None)) {
            Some(k) => Some(k),
            None => first_in(doc, rs.drop_first(), tag, class),
        }
    }
}

pub open spec fn ranges_in(doc: Seq<Token>, rs: Seq<(usize, usize)>) -> bool {
    forall|i: int| 0 <= i < rs.len() ==> (#[trigger] rs[i]).1 <= doc.len()
}

fn find_in(doc: &Document, rs: &Vec<(usize, usize)>, tag: &str, class: &str) -> (r: Option<usize>)
    requires
        doc.wf(),
        ranges_in(doc.tokens@, rs@),
    ensures
        match r {
            Some(k) => first_in(doc.tokens@, rs@, tag, class) == Some(k as int) && k < doc.len(),
            None => first_in(doc.tokens@, rs@, tag, class) == None::<int>,
        },
{
    let mut i: usize = 0;
    assert(rs@.skip(0) =~= rs@);
    while i < rs.len()
        invariant
            doc.wf(),
            ranges_in(doc.tokens@, rs@),
            i <= rs@.len(),
            first_in(doc.tokens@, rs@, tag, class) == first_in(doc.tokens@, rs@.skip(i as int), tag, class),
        decreases rs@.len() - i,
    {
        assert(rs@.skip(i as int).drop_first() =~= rs@.skip(i + 1));
        assert(rs@.skip(i as int)[0] == rs@[i as int]);
        let (lo, hi) = rs[i];
        match doc.first(lo, hi, tag, Some(class), None) {
            Some(k) => {
                return Some(k);
            },
            None => {},
        }
        i = i + 1;
    }
    assert(rs@.skip(i as int).len() == 0);
    None
}

/// The classroom: a room link if there is one, else a room label, else nothing.
pub open spec fn room_of(doc: Seq<Token>, rs: Seq<(usize, usize)>) -> Seq<char> {
    match first_in(doc, rs, "a", "s") {
        Some(k) => text_of(doc, k),
        None => match first_in(doc, rs, "span", "s") {
            Some(k) => text_of(doc, k),
            None => Seq::empty(),
        },
    }
}

/// The session that the markup in the ranges describes: its subject
/// element, its teacher link and its classroom; none without the first two.
pub open spec fn occupant(doc: Seq<Token>, rs: Seq<(usize, usize)>) -> Option<Occupant> {
    match first_in(doc, rs, "span", "p") {
        None => None,
        Some(p) => match first_in(doc, rs, "a", "n") {
            None => None,
            Some(n) => Some(
                Occupant {
                    subject: text_of(doc, p),
                    teacher: text_of(doc, n),
                    classroom: room_of(doc, rs),
                },
            ),
        },
    }
}

/// Reads one session out of the markup in the ranges.
pub fn read_occupant(doc: &Document, rs: &Vec<(usize, usize)>) -> (r: Option<GroupScheduleField>)
    requires
        doc.wf(),
        ranges_in(doc.tokens@, rs@),
    ensures
        match r {
            Some(g) => occupant(doc.tokens@, rs@) == Some(g@),
            None => occupant(doc.tokens@, rs@) == None::<Occupant>,
        },
{
    let p = match find_in(doc, rs, "span", "p") {
        Some(p) => p,
        None => {
            return None;
        },
    };
    let n = match find_in(doc, rs, "a", "n") {
        Some(n) => n,
        None => {
            return None;
        },
    };
    let classroom = match find_in(doc, rs, "a", "s") {
        Some(k) => text_at(doc, k),
        None => match find_in(doc, rs, "span", "s") {
            Some(k) => text_at(doc, k),
            None => String::new(),
        },
    };
    Some(GroupScheduleField { subject: text_at(doc, p), teacher: text_at(doc, n), classroom })
}

pub open spec fn range_of(doc: Seq<Token>, k: int) -> (usize, usize) {
    (k as usize, subtree_end(doc, k) as usize)
}

/// The markup inside the element at `k`.
pub open spec fn inner_of(doc: Seq<Token>, k: int) -> (usize, usize) {
    ((k + 1) as usize, subtree_end(doc, k) as usize)
}

/// The `span` elements right under the cell at `c`.
pub open spec fn child_spans(doc: Seq<Token>, c: int) -> Seq<int> {
    select(doc, c + 1, subtree_end(doc, c), "span"@, None, Some((depth_at(doc, c) + 1) as usize))
}

/// The elements with this tag and class anywhere under the cell at `c`.
pub open spec fn marked(doc: Seq<Token>, c: int, tag: &str, class: &str) -> Seq<int> {
    select(doc, c + 1, subtree_end(doc, c), tag@, Some(class), None)
}

/// The markup of the `i`-th parallel session of the cell at `c`. A span
/// that is no subject element holds the whole session. A subject element
/// lies flat beside the others: it is joined with the `i`-th teacher link
/// and the `i`-th room link, or failing that the `i`-th room label.
pub open spec fn group_parts(doc: Seq<Token>, c: int, i: int) -> Seq<(usize, usize)> {
    let sp = child_spans(doc, c)[i];
    if !matches_at(doc, sp, "span"@, Some("p"), None) {
        seq![range_of(doc, sp)]
    } else {
        let ns = marked(doc, c, "a", "n");
        let ls = marked(doc, c, "a", "s");
        let ss = marked(doc, c, "span", "s");
        seq![range_of(doc, sp)] + (if i < ns.len() {
            seq![range_of(doc, ns[i])]
        } else {
            Seq::empty()
        }) + (if i < ls.len() {
            seq![range_of(doc, ls[i])]
        } else if i < ss.len() {
            seq![range_of(doc, ss[i])]
        } else {
            Seq::empty()
        })
    }
}

/// Files a session under the group that its subject names.
pub open spec fn with_group(m: Map<u8, Occupant>, o: Occupant) -> Map<u8, Occupant> {
    let g = group_of(o.subject);
    m.insert(g.0, Occupant { subject: g.1, teacher: o.teacher, classroom: o.classroom })
}

/// The sessions of the first `n` parallel groups of the cell at `c`; a
/// later one replaces an earlier one of the same group.
pub open spec fn groups(doc: Seq<Token>, c: int, n: int) -> Map<u8, Occupant>
    decreases n,
{
    if n <= 0 {
        Map::empty()
    } else {
        let m = groups(doc, c, n - 1);
        match occupant(doc, group_parts(doc, c, n - 1)) {
            None => m,
            Some(o) => with_group(m, o),
        }
    }
}

/// What the weekday cell at `c` holds.
pub open spec fn cell_field(doc: Seq<Token>, c: int) -> Option<Field> {
    let t = text_of(doc, c);
    if t.len() == 0 || t == "&nbsp;"@ {
        None
    } else {
        let ps = marked(doc, c, "span", "p");
        if ps.len() == 0 {
            None
        } else if ps.len() == 1 {
            match occupant(doc, seq![inner_of(doc, c)]) {
                Some(o) => Some(Field::Class(o)),
                None => None,
            }
        } else {
            Some(Field::Group(groups(doc, c, child_spans(doc, c).len() as int)))
        }
    }
}

/// Reads what the weekday cell at `c` holds.
pub fn parse_cell(doc: &Document, c: usize) -> (r: ScheduleField)
    requires
        doc.wf(),
        c < doc.len(),
    ensures
        field_view(r) == cell_field(doc.tokens@, c as int),
{
    let t = text_at(doc, c);
    if t.unicode_len() == 0 || crate::html::str_eq(t.as_str(), "&nbsp;") {
        return None;
    }
    let e = doc.subtree_end(c);
    let ps = doc.select(c + 1, e, "span", Some("p"), None);
    if ps.len() == 0 {
        return None;
    }
    if ps.len() == 1 {
        let whole = vec![(c + 1, e)];
        assert(whole@ =~= seq![inner_of(doc.tokens@, c as int)]);
        return match read_occupant(doc, &whole) {
            Some(o) => Some(ScheduleFieldEnum::Class(o)),
            None => None,
        };
    }
    let spans = doc.select(c + 1, e, "span", None, Some(doc.depths[c] + 1));
    let ns = doc.select(c + 1, e, "a", Some("n"), None);
    let ls = doc.select(c + 1, e, "a", Some("s"), None);
    let ss = doc.select(c + 1, e, "span", Some("s"), None);
    let mut m: HashMap<u8, GroupScheduleField> = HashMap::new();
    let mut i: usize = 0;
    assert(occupants_of(m@) =~= groups(doc.tokens@, c as int, 0));
    while i < spans.len()
        invariant
            doc.wf(),
            c < e <= doc.len(),
            e == subtree_end(doc.tokens@, c as int),
            spans@.map_values(|k: usize| k as int) == child_spans(doc.tokens@, c as int),
            ns@.map_values(|k: usize| k as int) == marked(doc.tokens@, c as int, "a", "n"),
            ls@.map_values(|k: usize| k as int) == marked(doc.tokens@, c as int, "a", "s"),
            ss@.map_values(|k: usize| k as int) == marked(doc.tokens@, c as int, "span", "s"),
            forall|j: int| 0 <= j < spans@.len() ==> #[trigger] spans@[j] < e,
            forall|j: int| 0 <= j < ns@.len() ==> #[trigger] ns@[j] < e,
            forall|j: int| 0 <= j < ls@.len() ==> #[trigger] ls@[j] < e,
            forall|j: int| 0 <= j < ss@.len() ==> #[trigger] ss@[j] < e,
            i <= spans@.len(),
            occupants_of(m@) == groups(doc.tokens@, c as int, i as int),
        decreases spans@.len() - i,
    {
        let sp = spans[i];
        assert(spans@.map_values(|k: usize| k as int)[i as int] == sp as int);
        let mut parts = vec![(sp, doc.subtree_end(sp))];
        if doc.is_match(sp, "span", Some("p"), None) {
            if i < ns.len() {
                assert(ns@.map_values(|k: usize| k as int)[i as int] == ns@[i as int] as int);
                parts.push((ns[i], doc.subtree_end(ns[i])));
            }
            if i < ls.len() {
                assert(ls@.map_values(|k: usize| k as int)[i as int] == ls@[i as int] as int);
                parts.push((ls[i], doc.subtree_end(ls[i])));
            } else if i < ss.len() {
                assert(ss@.map_values(|k: usize| k as int)[i as int] == ss@[i as int] as int);
                parts.push((ss[i], doc.subtree_end(ss[i])));
            }
        }
        assert(parts@ =~= group_parts(doc.tokens@, c as int, i as int));
        let ghost before = m@;
        match read_occupant(doc, &parts) {
            Some(o) => {
                let (g, subject) = resolve_group(o.subject.as_str());
                let f = GroupScheduleField { subject, teacher: o.teacher, classroom: o.classroom };
                m.insert(g, f);
                assert(occupants_of(m@) =~= with_group(occupants_of(before), o@));
            },
            None => {},
        }
        i = i + 1;
    }
    Some(ScheduleFieldEnum::Group(m))
}

/// The time cell of the row at `r`, if it has one.
pub open spec fn time_cell(doc: Seq<Token>, r: int) -> Option<int> {
    first_of(select(doc, r + 1, subtree_end(doc, r), "td"@, Some("g"), None))
}

/// The weekday cells of the row at `r`, in order.
pub open spec fn day_cells(doc: Seq<Token>, r: int) -> Seq<int> {
    select(doc, r + 1, subtree_end(doc, r), "td"@, Some("l"), None)
}

/// The schedule row that the table row at `r` gives: none for a row
/// without a time cell, or with fewer than five weekday cells.
pub open spec fn row_of(doc: Seq<Token>, r: int) -> Option<Row> {
    match time_cell(doc, r) {
        None => None,
        Some(g) => {
            let ls = day_cells(doc, r);
            if ls.len() < 5 {
                None
            } else {
                Some(
                    Row {
                        time: remove_char(raw_text(doc, g), ' '),
                        monday: cell_field(doc, ls[0]),
                        tuesday: cell_field(doc, ls[1]),
                        wednesday: cell_field(doc, ls[2]),
                        thursday: cell_field(doc, ls[3]),
                        friday: cell_field(doc, ls[4]),
                    },
                )
            }
        },
    }
}

/// Reads the table row at `r`.
pub fn parse_row(doc: &Document, r: usize) -> (res: Option<ScheduleRow>)
    requires
        doc.wf(),
        r < doc.len(),
    ensures
        match res {
            Some(x) => row_of(doc.tokens@, r as int) == Some(x@),
            None => row_of(doc.tokens@, r as int) == None::<Row>,
        },
{
    let e = doc.subtree_end(r);
    let g = match doc.first(r + 1, e, "td", Some("g"), None) {
        Some(g) => g,
        None => {
            return None;
        },
    };
    let ls = doc.select(r + 1, e, "td", Some("l"), None);
    if ls.len() < 5 {
        return None;
    }
    let raw = doc.raw_text(g);
    let time = copy_without(raw.as_str(), 0, raw.unicode_len(), ' ');
    assert(raw@.subrange(0, raw@.len() as int) =~= raw@);
    proof {
        let v = ls@.map_values(|k: usize| k as int);
        assert(v[0] == ls@[0] as int);
        assert(v[1] == ls@[1] as int);
        assert(v[2] == ls@[2] as int);
        assert(v[3] == ls@[3] as int);
        assert(v[4] == ls@[4] as int);
    }
    Some(
        ScheduleRow {
            time,
            monday: parse_cell(doc, ls[0]),
            tuesday: parse_cell(doc, ls[1]),
            wednesday: parse_cell(doc, ls[2]),
            thursday: parse_cell(doc, ls[3]),
            friday: parse_cell(doc, ls[4]),
        },
    )
}

/// The first table marked as the timetable.
pub open spec fn timetable(doc: Seq<Token>) -> Option<int> {
    first_of(select(doc, 0, doc.len() as int, "table"@, Some("tabela"), None))
}

/// The rows of the table at `t`, in document order.
pub open spec fn table_rows(doc: Seq<Token>, t: int) -> Seq<int> {
    select(doc, t + 1, subtree_end(doc, t), "tr"@, None, None)
}

/// The schedule rows that the table rows give, in their order.
pub open spec fn rows_of(doc: Seq<Token>, trs: Seq<int>) -> Seq<Row>
    decreases trs.len(),
{
    if trs.len() == 0 {
        Seq::empty()
    } else {
        let prev = rows_of(doc, trs.drop_last());
        match row_of(doc, trs.last()) {
            Some(x) => prev.push(x),
            None => prev,
        }
    }
}

/// The schedule that a document holds: none without a timetable.
pub open spec fn extract(doc: Seq<Token>) -> Option<Seq<Row>> {
    match timetable(doc) {
        None => None,
        Some(t) => Some(rows_of(doc, table_rows(doc, t))),
    }
}

/// Reads the schedule out of a parsed document.
pub fn schedule_from_document(doc: &Document) -> (r: Result<Schedule, ScheduleError>)
    requires
        doc.wf(),
    ensures
        match r {
            Ok(s) => s.wf() && extract(doc.tokens@) == Some(s@),
            Err(e) => e == ScheduleError::MissingTimetable && extract(doc.tokens@) == None::<
                Seq<Row>,
            >,
        },
{
    let t = match doc.first(0, doc.tokens.len(), "table", Some("tabela"), None) {
        Some(t) => t,
        None => {
            return Err(ScheduleError::MissingTimetable);
        },
    };
    let e = doc.subtree_end(t);
    let trs = doc.select(t + 1, e, "tr", None, None);
    let ghost rows = table_rows(doc.tokens@, t as int);
    let mut schedule = Schedule::new();
    let mut i: usize = 0;
    while i < trs.len()
        invariant
            doc.wf(),
            trs@.map_values(|k: usize| k as int) == rows,
            forall|j: int| 0 <= j < trs@.len() ==> #[trigger] trs@[j] < e,
            e <= doc.len(),
            i <= trs@.len(),
            schedule.wf(),
            schedule@ == rows_of(doc.tokens@, rows.take(i as int)),
        decreases trs@.len() - i,
    {
        assert(rows.take(i + 1).drop_last() =~= rows.take(i as int));
        assert(rows.take(i + 1).last() == trs@[i as int] as int);
        match parse_row(doc, trs[i]) {
            Some(x) => {
                schedule.add_row(x);
            },
            None => {},
        }
        i = i + 1;
    }
    assert(rows.take(trs@.len() as int) =~= rows);
    Ok(schedule)
}

/// Reads the schedule out of a document text.
pub fn get_schedule_from_html(html: &str) -> (r: Result<Schedule, ScheduleError>)
    ensures
        match r {
            Ok(s) => s.wf() && extract(html_tokens(html@)) == Some(s@),
            Err(e) => e == ScheduleError::MissingTimetable && extract(html_tokens(html@))
                == None::<Seq<Row>>,
        },
{
    let doc = Document::parse(html);
    schedule_from_document(&doc)
}

proof fn lemma_end_bound(doc: Seq<Token>, d: int, j: int)
    requires
        0 <= j <= doc.len(),
    ensures
        j <= crate::html::end_from(doc, d, j) <= doc.len(),
    decreases doc.len() - j,
{
    if j < doc.len() {
        lemma_end_bound(doc, d, j + 1);
    }
}

proof fn lemma_select_none(
    doc: Seq<Token>,
    lo: int,
    hi: int,
    tag: Seq<char>,
    class: Option<&str>,
    depth: Option<usize>,
)
    requires
        forall|k: int| lo <= k < hi ==> !matches_at(doc, k, tag, class, depth),
    ensures
        select(doc, lo, hi, tag, class, depth) == Seq::<int>::empty(),
    decreases hi - lo,
{
    if lo < hi {
        lemma_select_none(doc, lo + 1, hi, tag, class, depth);
    }
}

/// A document in which no table carries the timetable class gives no
/// schedule: reading it fails with `MissingTimetable`.
pub proof fn lemma_no_timetable(doc: Seq<Token>)
    requires
        forall|k: int| 0 <= k < doc.len() ==> !matches_at(doc, k, "table"@, Some("tabela"), None),
    ensures
        timetable(doc) == None::<int>,
        extract(doc) == None::<Seq<Row>>,
{
    lemma_select_none(doc, 0, doc.len() as int, "table"@, Some("tabela"), None);
}

pub open spec fn has_time_cell(doc: Seq<Token>, r: int) -> bool {
    time_cell(doc, r) is Some
}

/// Where every row with a time cell has its five weekday cells, the
/// schedule has one row for each table row with a time cell, in the order
/// of the table, and nothing for the other rows.
pub proof fn lemma_rows_follow_time_cells(doc: Seq<Token>, trs: Seq<int>)
    requires
        forall|i: int|
            0 <= i < trs.len() && has_time_cell(doc, #[trigger] trs[i]) ==> day_cells(doc, trs[i]).len()
                >= 5,
    ensures
        rows_of(doc, trs) == trs.filter(|r: int| has_time_cell(doc, r)).map_values(
            |r: int| row_of(doc, r).unwrap(),
        ),
        rows_of(doc, trs).len() == trs.filter(|r: int| has_time_cell(doc, r)).len(),
    decreases trs.len(),
{
    if trs.len() > 0 {
        let q = |r: int| has_time_cell(doc, r);
        let f = |r: int| row_of(doc, r).unwrap();
        assert forall|i: int|
            0 <= i < trs.drop_last().len() && has_time_cell(
                doc,
                #[trigger] trs.drop_last()[i],
            ) implies day_cells(doc, trs.drop_last()[i]).len() >= 5 by {
            assert(trs.drop_last()[i] == trs[i]);
        }
        lemma_rows_follow_time_cells(doc, trs.drop_last());
        let prev = trs.drop_last().filter(q);
        reveal(Seq::filter);
        assert(trs.filter(q) == if q(trs.last()) {
            prev.push(trs.last())
        } else {
            prev
        });
        if q(trs.last()) {
            assert(trs[trs.len() - 1] == trs.last());
            assert(prev.push(trs.last()).map_values(f) =~= prev.map_values(f).push(f(trs.last())));
        }
    } else {
        reveal(Seq::filter);
        assert(trs.filter(|r: int| has_time_cell(doc, r)) =~= Seq::<int>::empty());
    }
}

/// A weekday cell with no subject element is empty.
pub proof fn lemma_no_subject_empty(doc: Seq<Token>, c: int)
    requires
        marked(doc, c, "span", "p").len() == 0,
    ensures
        cell_field(doc, c) == None::<Field>,
{
}

/// A weekday cell that is not blank, with one subject element and a
/// teacher link, holds one session: the trimmed text of the subject
/// element, of the first teacher link, and the classroom.
pub proof fn lemma_one_subject_single(doc: Seq<Token>, c: int, p: int, n: int)
    requires
        marked(doc, c, "span", "p") == seq![p],
        first_of(marked(doc, c, "a", "n")) == Some(n),
        text_of(doc, c).len() > 0,
        text_of(doc, c) != "&nbsp;"@,
        0 <= c < doc.len() <= usize::MAX,
    ensures
        cell_field(doc, c) == Some(
            Field::Class(
                Occupant {
                    subject: text_of(doc, p),
                    teacher: text_of(doc, n),
                    classroom: room_of(doc, seq![inner_of(doc, c)]),
                },
            ),
        ),
{
    lemma_end_bound(doc, depth_at(doc, c) as int, c + 1);
    let rs = seq![inner_of(doc, c)];
    assert(rs.drop_first() =~= Seq::<(usize, usize)>::empty());
    assert(rs[0].0 as int == c + 1);
    assert(rs[0].1 as int == subtree_end(doc, c));
}

} // verus!
