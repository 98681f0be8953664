//! The data model and the layout-to-structure parser.
//!
//! A document's text is split into pages on exactly-empty lines; each page is
//! undone from its two-column print layout into logical reading order, freed
//! of boilerplate, and fed to a line-classifying state machine that builds a
//! `Region` -> `Part` -> `Area` tree. Every stage has a spec-level mirror,
//! and the parser's contract says that the tree (or the failure) is exactly
//! what the mirror computes.

use vstd::prelude::*;
use vstd::string::*;
use crate::dates::{spec_parse_date, parse_date_core};
use crate::text::{
    spec_trim, spec_contains, spec_remove_all, spec_split, spec_after, str_trim, contains_sub,
    remove_all, after_first, split_char, split_lines, spec_lines,
};

verus! {

/// A typed parse failure, carrying the offending line.
#[derive(Debug)]
pub enum KPLCError {
    /// An `AREA:` line stood last on its page with no date/time line after
    /// it, or a part or area arrived before any region was opened.
    StructureViolation(String),
    /// A date/time line did not follow the date-line grammar.
    DateTimeFormatViolation(String),
}

/// Spec-level image of `KPLCError`.
#[verifier::ext_equal]
pub ghost enum ErrV {
    Structure(Seq<char>),
    DateTimeFormat(Seq<char>),
}

impl View for KPLCError {
    type V = ErrV;

    open spec fn view(&self) -> ErrV {
        match self {
            KPLCError::StructureViolation(l) => ErrV::Structure(l@),
            KPLCError::DateTimeFormatViolation(l) => ErrV::DateTimeFormat(l@),
        }
    }
}

impl KPLCError {
    /// The offending line the failure carries.
    pub fn offending_line(&self) -> (r: &String)
        ensures
            self@ matches ErrV::Structure(l) ==> r@ == l,
            self@ matches ErrV::DateTimeFormat(l) ==> r@ == l,
    {
        match self {
            KPLCError::StructureViolation(l) => l,
            KPLCError::DateTimeFormatViolation(l) => l,
        }
    }
}

/// The stateless parser object.
pub struct KPLCClient {}

/// A named area with its places, outage date and time window.
#[derive(Debug)]
pub struct Area {
    pub area: String,
    pub places: Vec<String>,
    pub date: Date,
    pub time: Time,
}

/// An outage date: day of month, month, year.
#[derive(Debug)]
pub struct Date {
    pub day: u32,
    pub month: u32,
    pub year: u32,
}

/// A time window, kept as the display strings of its two clock times.
#[derive(Debug)]
pub struct Time {
    pub start: String,
    pub end: String,
}

/// A sub-grouping of a region.
#[derive(Debug)]
pub struct Part {
    pub part: String,
    pub areas: Vec<Area>,
}

/// A top-level grouping of the notice.
#[derive(Debug)]
pub struct Region {
    pub region: String,
    pub parts: Vec<Part>,
}

/// The parse result: the regions of one document, in order.
#[derive(Debug)]
pub struct KPLCData {
    pub regions: Vec<Region>,
}

#[verifier::ext_equal]
pub ghost struct TimeV {
    pub start: Seq<char>,
    pub end: Seq<char>,
}

#[verifier::ext_equal]
pub ghost struct AreaV {
    pub name: Seq<char>,
    pub places: Seq<Seq<char>>,
    pub day: u32,
    pub month: u32,
    pub year: u32,
    pub time: TimeV,
}

#[verifier::ext_equal]
pub ghost struct PartV {
    pub name: Seq<char>,
    pub areas: Seq<AreaV>,
}

#[verifier::ext_equal]
pub ghost struct RegionV {
    pub name: Seq<char>,
    pub parts: Seq<PartV>,
}

impl View for Area {
    type V = AreaV;

    open spec fn view(&self) -> AreaV {
        AreaV {
            name: self.area@,
            places: self.places.deep_view(),
            day: self.date.day,
            month: self.date.month,
            year: self.date.year,
            time: TimeV { start: self.time.start@, end: self.time.end@ },
        }
    }
}

impl View for Part {
    type V = PartV;

    open spec fn view(&self) -> PartV {
        PartV { name: self.part@, areas: self.areas@.map_values(|a: Area| a@) }
    }
}

impl View for Region {
    type V = RegionV;

    open spec fn view(&self) -> RegionV {
        RegionV { name: self.region@, parts: self.parts@.map_values(|p: Part| p@) }
    }
}

impl View for KPLCData {
    type V = Seq<RegionV>;

    open spec fn view(&self) -> Seq<RegionV> {
        self.regions@.map_values(|r: Region| r@)
    }
}

/// Appends a fresh part with the given name to the last region.
pub open spec fn spec_push_part(doc: Seq<RegionV>, name: Seq<char>) -> Seq<RegionV> {
    doc.update(
        doc.len() - 1,
        RegionV {
            name: doc.last().name,
            parts: doc.last().parts.push(PartV { name, areas: Seq::empty() }),
        },
    )
}

/// Appends an area to the last part of the last region, creating an
/// empty-named part first when the region has none.
pub open spec fn spec_insert_area(doc: Seq<RegionV>, a: AreaV) -> Seq<RegionV> {
    let r = doc.last();
    let r2 = if r.parts.len() == 0 {
        RegionV { name: r.name, parts: seq![PartV { name: Seq::empty(), areas: seq![a] }] }
    } else {
        RegionV {
            name: r.name,
            parts: r.parts.update(
                r.parts.len() - 1,
                PartV { name: r.parts.last().name, areas: r.parts.last().areas.push(a) },
            ),
        }
    };
    doc.update(doc.len() - 1, r2)
}

impl KPLCData {
    /// A data object with no regions yet.
    pub fn new() -> (r: Self)
        ensures
            r@ == Seq::<RegionV>::empty(),
    {
        let r = Self { regions: Vec::new() };
        proof {
            assert(r@ =~= Seq::<RegionV>::empty());
        }
        r
    }

    /// Opens a new region with the given name.
    pub fn insert_region(&mut self, region: String)
        ensures
            final(self)@ == old(self)@.push(RegionV { name: region@, parts: Seq::empty() }),
    {
        let ghost pre = self@;
        let ghost nv = region@;
        self.regions.push(Region { region, parts: Vec::new() });
        proof {
            assert(self@ =~~= pre.push(RegionV { name: nv, parts: Seq::empty() }));
        }
    }

    /// Appends a fresh part with the given name to the most recently opened
    /// region, which must exist.
    pub fn insert_part_to_prev_region(&mut self, part: String)
        requires
            old(self)@.len() > 0,
        ensures
            final(self)@ == spec_push_part(old(self)@, part@),
    {
        let ghost pre = self@;
        let ghost nv = part@;
        let mut region = self.regions.pop().unwrap();
        region.parts.push(Part { part, areas: Vec::new() });
        self.regions.push(region);
        proof {
            assert(self@ =~~= spec_push_part(pre, nv));
        }
    }

    /// The most recently added part of the most recently opened region.
    pub fn get_last_part(&mut self) -> (r: &Part)
        requires
            old(self)@.len() > 0,
            old(self)@.last().parts.len() > 0,
        ensures
            *final(self) == *old(self),
            r@ == old(self)@.last().parts.last(),
    {
        let n = self.regions.len();
        let region = &self.regions[n - 1];
        let m = region.parts.len();
        &region.parts[m - 1]
    }

    /// Appends an area to the most recent part of the most recent region,
    /// creating an implicit empty-named part when the region has none yet.
    /// A region must exist.
    pub fn insert_area_to_last_part(&mut self, area: Area)
        requires
            old(self)@.len() > 0,
        ensures
            final(self)@ == spec_insert_area(old(self)@, area@),
    {
        let ghost pre = self@;
        let ghost av = area@;
        let mut region = self.regions.pop().unwrap();
        if region.parts.len() == 0 {
            let mut fresh = Part { part: String::new(), areas: Vec::new() };
            fresh.areas.push(area);
            region.parts.push(fresh);
        } else {
            let mut last = region.parts.pop().unwrap();
            last.areas.push(area);
            region.parts.push(last);
        }
        self.regions.push(region);
        proof {
            assert(self@ =~~= spec_insert_area(pre, av));
        }
    }
}

/// The raw lines of one page of source text.
pub struct Page {
    pub lines: Vec<String>,
}

impl View for Page {
    type V = Seq<Seq<char>>;

    open spec fn view(&self) -> Seq<Seq<char>> {
        self.lines.deep_view()
    }
}

impl Page {
    /// An empty page.
    pub fn new() -> (r: Self)
        ensures
            r@ == Seq::<Seq<char>>::empty(),
    {
        let r = Self { lines: Vec::new() };
        proof {
            assert(r@ =~= Seq::<Seq<char>>::empty());
        }
        r
    }

    /// Appends one raw line to the page.
    pub fn insert_line(&mut self, line: String)
        ensures
            final(self)@ == old(self)@.push(line@),
    {
        let ghost pre = self@;
        let ghost lv = line@;
        self.lines.push(line);
        proof {
            assert(self@ =~= pre.push(lv));
        }
    }
}

/// The pages of one document, in order.
pub struct Book {
    pub pages: Vec<Page>,
}

impl View for Book {
    type V = Seq<Seq<Seq<char>>>;

    open spec fn view(&self) -> Seq<Seq<Seq<char>>> {
        self.pages@.map_values(|p: Page| p@)
    }
}

/// A run of at least three spaces ends at position `k` of the line: the
/// character there is no space and the three before it are.
pub open spec fn gap_at(l: Seq<char>, k: int) -> bool {
    3 <= k < l.len() && l[k] != ' ' && l[k - 1] == ' ' && l[k - 2] == ' ' && l[k - 3] == ' '
}

/// The line has a gutter-sized gap.
pub open spec fn line_has_gap(l: Seq<char>) -> bool {
    exists|k: int| gap_at(l, k)
}

/// Some line of the page has a gutter-sized gap.
pub open spec fn page_has_gap(p: Seq<Seq<char>>) -> bool {
    exists|i: int| 0 <= i < p.len() && line_has_gap(p[i])
}

/// First gap position of the line at or after `k` (or `l.len()` when none).
pub open spec fn line_first_gap(l: Seq<char>, k: int) -> int
    decreases l.len() - k,
{
    if k < 0 || k >= l.len() {
        l.len() as int
    } else if gap_at(l, k) {
        k
    } else {
        line_first_gap(l, k + 1)
    }
}

/// First index at or after `i` of a line with a gap (or `p.len()` when none).
pub open spec fn page_gap_line(p: Seq<Seq<char>>, i: int) -> int
    decreases p.len() - i,
{
    if i < 0 || i >= p.len() {
        p.len() as int
    } else if line_has_gap(p[i]) {
        i
    } else {
        page_gap_line(p, i + 1)
    }
}

/// The column where the right print column starts: the first gap position on
/// the first line that has one.
pub open spec fn split_pos(p: Seq<Seq<char>>) -> int {
    line_first_gap(p[page_gap_line(p, 0)], 0)
}

pub proof fn lemma_line_first_gap(l: Seq<char>, k: int)
    requires
        0 <= k <= l.len(),
    ensures
        k <= line_first_gap(l, k) <= l.len(),
        forall|t: int| k <= t < line_first_gap(l, k) ==> !gap_at(l, t),
        line_first_gap(l, k) < l.len() ==> gap_at(l, line_first_gap(l, k)),
    decreases l.len() - k,
{
    if k < l.len() && !gap_at(l, k) {
        lemma_line_first_gap(l, k + 1);
    }
}

pub proof fn lemma_page_gap_line(p: Seq<Seq<char>>, i: int)
    requires
        0 <= i <= p.len(),
    ensures
        i <= page_gap_line(p, i) <= p.len(),
        forall|t: int| i <= t < page_gap_line(p, i) ==> !line_has_gap(p[t]),
        page_gap_line(p, i) < p.len() ==> line_has_gap(p[page_gap_line(p, i)]),
    decreases p.len() - i,
{
    if i < p.len() && !line_has_gap(p[i]) {
        lemma_page_gap_line(p, i + 1);
    }
}

/// Number of consecutive spaces immediately before position `j`.
pub open spec fn space_run(l: Seq<char>, j: int) -> int
    decreases j,
{
    if 0 < j <= l.len() && l[j - 1] == ' ' {
        space_run(l, j - 1) + 1
    } else {
        0
    }
}

proof fn lemma_space_run_nonneg(l: Seq<char>, j: int)
    ensures
        space_run(l, j) >= 0,
    decreases j,
{
    if 0 < j <= l.len() && l[j - 1] == ' ' {
        lemma_space_run_nonneg(l, j - 1);
    }
}

/// A gap ends at `j` exactly when the character there is no space and the
/// space run before it has length at least three.
proof fn lemma_gap_run(l: Seq<char>, j: int)
    requires
        0 <= j < l.len(),
    ensures
        gap_at(l, j) == (l[j] != ' ' && space_run(l, j) >= 3),
{
    if 3 <= j && l[j - 1] == ' ' && l[j - 2] == ' ' && l[j - 3] == ' ' {
        lemma_space_run_nonneg(l, j - 3);
        assert(space_run(l, j - 2) == space_run(l, j - 3) + 1);
        assert(space_run(l, j - 1) == space_run(l, j - 2) + 1);
        assert(space_run(l, j) == space_run(l, j - 1) + 1);
    }
    if space_run(l, j) >= 3 {
        assert(l[j - 1] == ' ' && space_run(l, j - 1) >= 2);
        assert(l[j - 2] == ' ' && space_run(l, j - 2) >= 1);
        assert(l[j - 3] == ' ' && space_run(l, j - 3) >= 0);
    }
}

/// Scans one line left to right for its first gutter gap.
fn line_find_gap(l: &str) -> (r: Option<usize>)
    ensures
        match r {
            Some(k) => gap_at(l@, k as int) && k as int == line_first_gap(l@, 0),
            None => !line_has_gap(l@),
        },
{
    let n = l.unicode_len();
    let mut run: usize = 0;
    let mut j: usize = 0;
    while j < n
        invariant
            j <= n,
            n == l@.len(),
            run <= j,
            run as int == space_run(l@, j as int),
            forall|k: int| 0 <= k < j ==> !gap_at(l@, k),
            line_first_gap(l@, 0) == line_first_gap(l@, j as int),
        decreases n - j,
    {
        let c = l.get_char(j);
        proof {
            lemma_gap_run(l@, j as int);
        }
        if c == ' ' {
            proof {
                assert(!gap_at(l@, j as int));
                assert(line_first_gap(l@, j as int) == line_first_gap(l@, j + 1));
                assert(space_run(l@, j + 1) == space_run(l@, j as int) + 1);
            }
            run = run + 1;
        } else {
            if run >= 3 {
                proof {
                    assert(gap_at(l@, j as int));
                    assert(line_first_gap(l@, j as int) == j as int);
                }
                return Some(j);
            }
            proof {
                assert(!gap_at(l@, j as int));
                assert(line_first_gap(l@, j as int) == line_first_gap(l@, j + 1));
                assert(space_run(l@, j + 1) == 0);
            }
            run = 0;
        }
        j = j + 1;
    }
    proof {
        assert(forall|k: int| !gap_at(l@, k));
    }
    None
}

/// Scans the page for the column where its right print column starts.
fn page_find_split(lines: &Vec<String>) -> (r: Option<usize>)
    ensures
        match r {
            Some(k) => page_has_gap(lines.deep_view()) && k as int == split_pos(
                lines.deep_view(),
            ) && 3 <= k,
            None => !page_has_gap(lines.deep_view()),
        },
{
    let ghost p = lines.deep_view();
    let mut i: usize = 0;
    while i < lines.len()
        invariant
            i <= lines@.len(),
            p == lines.deep_view(),
            p.len() == lines@.len(),
            forall|t: int| 0 <= t < i ==> !line_has_gap(p[t]),
            page_gap_line(p, 0) == page_gap_line(p, i as int),
        decreases lines@.len() - i,
    {
        proof {
            assert(p[i as int] == lines@[i as int]@);
        }
        match line_find_gap(lines[i].as_str()) {
            Some(k) => {
                proof {
                    assert(line_has_gap(p[i as int]));
                    assert(page_gap_line(p, i as int) == i as int);
                    assert(page_has_gap(p));
                    assert(split_pos(p) == k as int);
                }
                return Some(k);
            },
            None => {
                proof {
                    assert(page_gap_line(p, i as int) == page_gap_line(p, i + 1));
                }
                i = i + 1;
            },
        }
    }
    proof {
        assert(forall|t: int| 0 <= t < p.len() ==> !line_has_gap(p[t]));
    }
    None
}

/// The left print column: each line cut two characters before the split
/// (dropping the gutter), short lines kept whole.
pub open spec fn lefts_of(p: Seq<Seq<char>>, rsp: int) -> Seq<Seq<char>>
    decreases p.len(),
{
    if p.len() == 0 {
        Seq::empty()
    } else {
        lefts_of(p.drop_last(), rsp) + (if p.last().len() > rsp {
            seq![p.last().subrange(0, rsp - 2)]
        } else {
            seq![p.last()]
        })
    }
}

/// The right print column: the tail of each line long enough to reach past
/// the split, starting one character before it.
pub open spec fn rights_of(p: Seq<Seq<char>>, rsp: int) -> Seq<Seq<char>>
    decreases p.len(),
{
    if p.len() == 0 {
        Seq::empty()
    } else {
        rights_of(p.drop_last(), rsp) + (if p.last().len() > rsp {
            seq![p.last().subrange(rsp - 1, p.last().len() as int)]
        } else {
            Seq::empty()
        })
    }
}

/// The page in logical reading order: unchanged when no line has a gutter
/// gap; otherwise all left-column lines, then all right-column lines.
pub open spec fn spec_segment(p: Seq<Seq<char>>) -> Seq<Seq<char>> {
    if page_has_gap(p) {
        lefts_of(p, split_pos(p)) + rights_of(p, split_pos(p))
    } else {
        p
    }
}

/// Per-page column segmentation: detects a gutter of three or more spaces
/// and, when one is present, undoes the two-column print layout.
pub fn segment_page(lines: &Vec<String>) -> (r: Vec<String>)
    ensures
        r.deep_view() == spec_segment(lines.deep_view()),
{
    let ghost p = lines.deep_view();
    let split = page_find_split(lines);
    match split {
        None => {
            let mut out: Vec<String> = Vec::new();
            let mut i: usize = 0;
            proof {
                assert(out.deep_view() =~= p.subrange(0, 0));
            }
            while i < lines.len()
                invariant
                    i <= lines@.len(),
                    p == lines.deep_view(),
                    p.len() == lines@.len(),
                    out.deep_view() == p.subrange(0, i as int),
                decreases lines@.len() - i,
            {
                let piece = lines[i].clone();
                let ghost prev = out.deep_view();
                out.push(piece);
                proof {
                    assert(out.deep_view() =~= prev.push(p[i as int]));
                    assert(out.deep_view() =~= p.subrange(0, i + 1));
                }
                i = i + 1;
            }
            proof {
                assert(p.subrange(0, p.len() as int) =~= p);
            }
            out
        },
        Some(k) => {
            let mut out: Vec<String> = Vec::new();
            let mut i: usize = 0;
            proof {
                assert(lefts_of(p.subrange(0, 0), k as int) =~= Seq::<Seq<char>>::empty());
                assert(out.deep_view() =~= lefts_of(p.subrange(0, 0), k as int));
            }
            while i < lines.len()
                invariant
                    i <= lines@.len(),
                    p == lines.deep_view(),
                    p.len() == lines@.len(),
                    3 <= k,
                    out.deep_view() == lefts_of(p.subrange(0, i as int), k as int),
                decreases lines@.len() - i,
    {
                let l = &lines[i];
                let n = l.unicode_len();
                proof {
                    assert(p[i as int] == lines@[i as int]@);
                    assert(p.subrange(0, i + 1).drop_last() =~= p.subrange(0, i as int));
                    assert(p.subrange(0, i + 1).last() == p[i as int]);
                }
                let piece = if n > k {
                    String::from_str(l.substring_char(0, k - 2))
                } else {
                    l.clone()
                };
                let ghost prev = out.deep_view();
                out.push(piece);
                proof {
                    assert(out.deep_view() =~= prev.push(piece@));
                    assert(out.deep_view() =~= lefts_of(p.subrange(0, i + 1), k as int));
                }
                i = i + 1;
            }
            let ghost lefts = out.deep_view();
            proof {
                assert(p.subrange(0, p.len() as int) =~= p);
                assert(lefts == lefts_of(p, k as int));
                assert(rights_of(p.subrange(0, 0), k as int) =~= Seq::<Seq<char>>::empty());
                assert(lefts + rights_of(p.subrange(0, 0), k as int) =~= lefts);
            }
            let mut i: usize = 0;
            while i < lines.len()
                invariant
                    i <= lines@.len(),
                    p == lines.deep_view(),
                    p.len() == lines@.len(),
                    3 <= k,
                    out.deep_view() == lefts + rights_of(p.subrange(0, i as int), k as int),
                decreases lines@.len() - i,
            {
                let l = &lines[i];
                let n = l.unicode_len();
                proof {
                    assert(p[i as int] == lines@[i as int]@);
                    assert(p.subrange(0, i + 1).drop_last() =~= p.subrange(0, i as int));
                    assert(p.subrange(0, i + 1).last() == p[i as int]);
                }
                if n > k {
                    let piece = String::from_str(l.substring_char(k - 1, n));
                    let ghost prev = out.deep_view();
                    out.push(piece);
                    proof {
                        assert(out.deep_view() =~= prev.push(piece@));
                        assert(out.deep_view() =~= lefts + rights_of(
                            p.subrange(0, i + 1),
                            k as int,
                        ));
                    }
                } else {
                    proof {
                        assert(rights_of(p.subrange(0, i + 1), k as int) =~= rights_of(
                            p.subrange(0, i as int),
                            k as int,
                        ));
                    }
                }
                i = i + 1;
            }
            proof {
                assert(p.subrange(0, p.len() as int) =~= p);
            }
            out
        },
    }
}

/// The fixed non-data phrases of the source notices: a line containing any
/// of them carries no structured data.
pub open spec fn is_boilerplate(l: Seq<char>) -> bool {
    spec_contains(l, "Interruption of"@) || spec_contains(l, "Electricity Supply"@)
        || spec_contains(l, "Notice is hereby given under Rule 27 of the Electric Power Rules"@)
        || spec_contains(l, "That the electricity supply will be interrupted as here under:"@)
        || spec_contains(l, "(It is necessary to interrupt supply periodically in order to"@)
        || spec_contains(l, "facilitate maintenance and upgrade of power lines to the network;"@)
        || spec_contains(l, "to connect new customers or to replace power lines during road"@)
        || spec_contains(l, "construction, etc.)"@) || spec_contains(
        l,
        "For further information, contact"@,
    ) || spec_contains(l, "the nearest Kenya Power office"@) || spec_contains(
        l,
        "Interruption notices may be viewed at"@,
    ) || spec_contains(l, "www.kplc.co.ke"@)
}

/// Executable boilerplate test.
pub fn is_boilerplate_line(l: &str) -> (b: bool)
    ensures
        b == is_boilerplate(l@),
{
    contains_sub(l, "Interruption of") || contains_sub(l, "Electricity Supply") || contains_sub(
        l,
        "Notice is hereby given under Rule 27 of the Electric Power Rules",
    ) || contains_sub(l, "That the electricity supply will be interrupted as here under:")
        || contains_sub(l, "(It is necessary to interrupt supply periodically in order to")
        || contains_sub(l, "facilitate maintenance and upgrade of power lines to the network;")
        || contains_sub(l, "to connect new customers or to replace power lines during road")
        || contains_sub(l, "construction, etc.)") || contains_sub(
        l,
        "For further information, contact",
    ) || contains_sub(l, "the nearest Kenya Power office") || contains_sub(
        l,
        "Interruption notices may be viewed at",
    ) || contains_sub(l, "www.kplc.co.ke")
}

/// A line survives the filter when it has visible content and is not
/// boilerplate.
pub open spec fn keep_line(l: Seq<char>) -> bool {
    spec_trim(l).len() > 0 && !is_boilerplate(l)
}

/// The page's lines with blank and boilerplate lines dropped, order kept.
pub open spec fn spec_filter(lines: Seq<Seq<char>>) -> Seq<Seq<char>>
    decreases lines.len(),
{
    if lines.len() == 0 {
        Seq::empty()
    } else {
        spec_filter(lines.drop_last()) + (if keep_line(lines.last()) {
            seq![lines.last()]
        } else {
            Seq::empty()
        })
    }
}

/// Drops blank and boilerplate lines, keeping the rest in order.
pub fn filter_lines(lines: &Vec<String>) -> (r: Vec<String>)
    ensures
        r.deep_view() == spec_filter(lines.deep_view()),
{
    let ghost p = lines.deep_view();
    let mut out: Vec<String> = Vec::new();
    let mut i: usize = 0;
    proof {
        assert(out.deep_view() =~= spec_filter(p.subrange(0, 0)));
    }
    while i < lines.len()
        invariant
            i <= lines@.len(),
            p == lines.deep_view(),
            p.len() == lines@.len(),
            out.deep_view() == spec_filter(p.subrange(0, i as int)),
        decreases lines@.len() - i,
    {
        let l = &lines[i];
        proof {
            assert(p[i as int] == lines@[i as int]@);
            assert(p.subrange(0, i + 1).drop_last() =~= p.subrange(0, i as int));
            assert(p.subrange(0, i + 1).last() == p[i as int]);
        }
        let t = str_trim(l.as_str());
        if t.unicode_len() > 0 && !is_boilerplate_line(l.as_str()) {
            let ghost prev = out.deep_view();
            out.push(l.clone());
            proof {
                assert(out.deep_view() =~= prev.push(p[i as int]));
                assert(out.deep_view() =~= spec_filter(p.subrange(0, i + 1)));
            }
        } else {
            proof {
                assert(spec_filter(p.subrange(0, i + 1)) =~= spec_filter(p.subrange(0, i as int)));
            }
        }
        i = i + 1;
    }
    proof {
        assert(p.subrange(0, p.len() as int) =~= p);
    }
    out
}

/// The kind of a logical line, checked in the original's precedence order:
/// a `REGION` line is a region marker whatever else it holds; an `AREA: `
/// line that is no region marker is an area marker even when it also says
/// `PARTS OF `; only a remaining `PARTS OF ` line starts a part.
#[derive(Clone, Copy, PartialEq, Eq, Structural)]
pub enum LineClass {
    RegionMarker,
    AreaMarker,
    PartMarker,
    Plain,
}

/// Classifies one logical line.
pub open spec fn spec_classify(l: Seq<char>) -> LineClass {
    if spec_contains(l, "REGION"@) {
        LineClass::RegionMarker
    } else if spec_contains(l, "AREA: "@) {
        LineClass::AreaMarker
    } else if spec_contains(l, "PARTS OF "@) {
        LineClass::PartMarker
    } else {
        LineClass::Plain
    }
}

/// Executable line classification.
pub fn classify_line(l: &str) -> (c: LineClass)
    ensures
        c == spec_classify(l@),
{
    if contains_sub(l, "REGION") {
        LineClass::RegionMarker
    } else if contains_sub(l, "AREA: ") {
        LineClass::AreaMarker
    } else if contains_sub(l, "PARTS OF ") {
        LineClass::PartMarker
    } else {
        LineClass::Plain
    }
}

/// First index at or after `k` of a marker line (or `lines.len()` when the
/// rest of the page is plain text).
pub open spec fn place_end(lines: Seq<Seq<char>>, k: int) -> int
    decreases lines.len() - k,
{
    if k < 0 || k >= lines.len() {
        lines.len() as int
    } else if spec_classify(lines[k]) != LineClass::Plain {
        k
    } else {
        place_end(lines, k + 1)
    }
}

pub proof fn lemma_place_end(lines: Seq<Seq<char>>, k: int)
    requires
        0 <= k <= lines.len(),
    ensures
        k <= place_end(lines, k) <= lines.len(),
        forall|t: int| k <= t < place_end(lines, k) ==> spec_classify(lines[t]) == LineClass::Plain,
        place_end(lines, k) < lines.len() ==> spec_classify(lines[place_end(lines, k)])
            != LineClass::Plain,
    decreases lines.len() - k,
{
    if k < lines.len() && spec_classify(lines[k]) == LineClass::Plain {
        lemma_place_end(lines, k + 1);
    }
}

/// The trimmed lines from `from` (inclusive) to `to` (exclusive),
/// concatenated without separators.
pub open spec fn places_str(lines: Seq<Seq<char>>, from: int, to: int) -> Seq<char>
    decreases to - from,
{
    if to <= from {
        Seq::empty()
    } else {
        places_str(lines, from, to - 1) + spec_trim(lines[to - 1])
    }
}

/// The place list of an area: the accumulated string split on commas, each
/// piece trimmed (empty pieces from stray trailing commas kept).
pub open spec fn spec_places(acc: Seq<char>) -> Seq<Seq<char>> {
    spec_split(acc, ',').map_values(|q: Seq<char>| spec_trim(q))
}

/// The outcome of a parse: the finished region list, or a typed failure.
#[verifier::ext_equal]
pub ghost enum ParseOut {
    Parsed(Seq<RegionV>),
    Failed(ErrV),
}

/// One page's filtered lines, interpreted from position `i` onward against
/// the document built so far. A region marker opens a region named by the
/// line with the keyword stripped and trimmed; a part marker appends a part
/// to the last region (a failure when there is none); an area marker opens an
/// area named by the trimmed text after the keyword,
/// consumes the next line as its date/time line (a failure when the
/// page is exhausted or the line breaks the date grammar), accumulates the
/// following plain lines as its place list, and appends the area under the
/// last region (a failure when there is none). Plain lines outside an area's
/// span are skipped.
pub open spec fn run_lines(lines: Seq<Seq<char>>, i: int, doc: Seq<RegionV>) -> ParseOut
    decreases lines.len() - i,
{
    if i < 0 || i >= lines.len() {
        ParseOut::Parsed(doc)
    } else {
        let l = lines[i];
        match spec_classify(l) {
            LineClass::RegionMarker => run_lines(
                lines,
                i + 1,
                doc.push(
                    RegionV { name: spec_trim(spec_remove_all(l, "REGION"@)), parts: Seq::empty() },
                ),
            ),
            LineClass::PartMarker => if doc.len() == 0 {
                ParseOut::Failed(ErrV::Structure(l))
            } else {
                run_lines(
                    lines,
                    i + 1,
                    spec_push_part(doc, spec_trim(spec_remove_all(l, "PARTS OF "@))),
                )
            },
            LineClass::AreaMarker => if i + 1 >= lines.len() {
                ParseOut::Failed(ErrV::Structure(l))
            } else {
                match spec_parse_date(lines[i + 1]) {
                    Option::None => ParseOut::Failed(ErrV::DateTimeFormat(lines[i + 1])),
                    Option::Some(dp) => {
                        let j = place_end(lines, i + 2);
                        let a = AreaV {
                            name: spec_trim(spec_after(l, "AREA: "@)),
                            places: spec_places(places_str(lines, i + 2, j)),
                            day: dp.day,
                            month: dp.month,
                            year: dp.year,
                            time: TimeV { start: dp.from, end: dp.to },
                        };
                        if doc.len() == 0 {
                            ParseOut::Failed(ErrV::Structure(l))
                        } else if i + 2 <= j <= lines.len() {
                            run_lines(lines, j, spec_insert_area(doc, a))
                        } else {
                            // never reached: the marker scan moves forward
                            ParseOut::Parsed(doc)
                        }
                    },
                }
            },
            LineClass::Plain => run_lines(lines, i + 1, doc),
        }
    }
}

/// All pages of a book in order, threading the document state across pages.
/// A page of at most one line is decorative and skipped; every other page is
/// segmented, filtered and run through the state machine.
pub open spec fn run_book(pages: Seq<Seq<Seq<char>>>, p: int, doc: Seq<RegionV>) -> ParseOut
    decreases pages.len() - p,
{
    if p < 0 || p >= pages.len() {
        ParseOut::Parsed(doc)
    } else if pages[p].len() <= 1 {
        run_book(pages, p + 1, doc)
    } else {
        match run_lines(spec_filter(spec_segment(pages[p])), 0, doc) {
            ParseOut::Parsed(d) => run_book(pages, p + 1, d),
            ParseOut::Failed(e) => ParseOut::Failed(e),
        }
    }
}

/// The pages of a document: an exactly-empty line flushes the page being
/// collected and opens the next one (which starts with that empty line); the
/// page being collected at end of input is flushed unconditionally.
pub open spec fn spec_pages(lines: Seq<Seq<char>>, i: int, cur: Seq<Seq<char>>) -> Seq<
    Seq<Seq<char>>,
>
    decreases lines.len() - i,
{
    if i < 0 || i >= lines.len() {
        seq![cur]
    } else if lines[i].len() == 0 {
        seq![cur] + spec_pages(lines, i + 1, seq![lines[i]])
    } else {
        spec_pages(lines, i + 1, cur.push(lines[i]))
    }
}

/// The whole pipeline on a document's text.
pub open spec fn spec_parse_text(text: Seq<char>) -> ParseOut {
    run_book(spec_pages(spec_lines(text), 0, Seq::empty()), 0, Seq::empty())
}

/// Scans forward from `k` to the next marker line.
fn find_place_end(lines: &Vec<String>, k: usize) -> (j: usize)
    requires
        k <= lines@.len(),
    ensures
        k <= j <= lines@.len(),
        j as int == place_end(lines.deep_view(), k as int),
{
    let ghost p = lines.deep_view();
    let mut j = k;
    loop
        invariant
            k <= j <= lines@.len(),
            p == lines.deep_view(),
            p.len() == lines@.len(),
            place_end(p, k as int) == place_end(p, j as int),
        ensures
            k <= j <= lines@.len(),
            j as int == place_end(p, k as int),
        decreases lines@.len() - j,
    {
        if j < lines.len() {
            proof {
                assert(p[j as int] == lines@[j as int]@);
            }
            let c = classify_line(lines[j].as_str());
            if c == LineClass::Plain {
                proof {
                    assert(place_end(p, j as int) == place_end(p, j + 1));
                }
                j = j + 1;
            } else {
                proof {
                    assert(place_end(p, j as int) == j as int);
                }
                break;
            }
        } else {
            break;
        }
    }
    j
}

/// Accumulates the trimmed plain lines of an area's span into one string.
fn collect_places(lines: &Vec<String>, from: usize, to: usize) -> (acc: String)
    requires
        from <= to <= lines@.len(),
    ensures
        acc@ == places_str(lines.deep_view(), from as int, to as int),
{
    let ghost p = lines.deep_view();
    let mut acc = String::new();
    let mut i = from;
    while i < to
        invariant
            from <= i <= to <= lines@.len(),
            p == lines.deep_view(),
            p.len() == lines@.len(),
            acc@ == places_str(p, from as int, i as int),
        decreases to - i,
    {
        proof {
            assert(p[i as int] == lines@[i as int]@);
        }
        let t = str_trim(lines[i].as_str());
        acc.append(t);
        proof {
            assert(acc@ =~= places_str(p, from as int, i + 1));
        }
        i = i + 1;
    }
    acc
}

/// Splits an accumulated place string on commas and trims each piece.
fn split_places(acc: &str) -> (r: Vec<String>)
    ensures
        r.deep_view() == spec_places(acc@),
{
    let pieces = split_char(acc, ',');
    let mut out: Vec<String> = Vec::new();
    let mut i: usize = 0;
    proof {
        assert(out.deep_view() =~= spec_places(acc@).subrange(0, 0));
    }
    while i < pieces.len()
        invariant
            i <= pieces@.len(),
            pieces.deep_view() == spec_split(acc@, ','),
            pieces@.len() == spec_places(acc@).len(),
            out.deep_view() == spec_places(acc@).subrange(0, i as int),
        decreases pieces@.len() - i,
    {
        proof {
            assert(pieces.deep_view()[i as int] == pieces@[i as int]@);
        }
        let t = String::from_str(str_trim(pieces[i].as_str()));
        let ghost prev = out.deep_view();
        out.push(t);
        proof {
            assert(out.deep_view() =~= prev.push(spec_trim(pieces@[i as int]@)));
            assert(out.deep_view() =~= spec_places(acc@).subrange(0, i + 1));
        }
        i = i + 1;
    }
    proof {
        assert(spec_places(acc@).subrange(0, spec_places(acc@).len() as int) =~= spec_places(
            acc@,
        ));
    }
    out
}

/// Runs the hierarchy state machine over one page's filtered lines,
/// extending `data` in place.
fn parse_page(data: &mut KPLCData, lines: &Vec<String>) -> (r: Result<(), KPLCError>)
    ensures
        match r {
            Ok(_) => run_lines(lines.deep_view(), 0, old(data)@) == ParseOut::Parsed(
                final(data)@,
            ),
            Err(e) => run_lines(lines.deep_view(), 0, old(data)@) == ParseOut::Failed(e@),
        },
{
    let ghost lv = lines.deep_view();
    let mut i: usize = 0;
    while i < lines.len()
        invariant
            i <= lines@.len(),
            lv == lines.deep_view(),
            lv.len() == lines@.len(),
            run_lines(lv, 0, old(data)@) == run_lines(lv, i as int, data@),
        decreases lines@.len() - i,
    {
        proof {
            assert(lv[i as int] == lines@[i as int]@);
        }
        let ghost pre = data@;
        let cls = classify_line(lines[i].as_str());
        if cls == LineClass::RegionMarker {
            proof {
                reveal_strlit("REGION");
            }
            let name = String::from_str(str_trim(remove_all(lines[i].as_str(), "REGION").as_str()));
            data.insert_region(name);
            proof {
                assert(run_lines(lv, i as int, pre) == run_lines(lv, i + 1, data@));
            }
            i = i + 1;
        } else if cls == LineClass::PartMarker {
            if data.regions.len() == 0 {
                proof {
                    assert(pre.len() == 0);
                }
                return Err(KPLCError::StructureViolation(lines[i].clone()));
            }
            proof {
                reveal_strlit("PARTS OF ");
                assert(pre.len() > 0);
            }
            let name = String::from_str(
                str_trim(remove_all(lines[i].as_str(), "PARTS OF ").as_str()),
            );
            data.insert_part_to_prev_region(name);
            proof {
                assert(run_lines(lv, i as int, pre) == run_lines(lv, i + 1, data@));
            }
            i = i + 1;
        } else if cls == LineClass::AreaMarker {
            if i + 1 >= lines.len() {
                return Err(KPLCError::StructureViolation(lines[i].clone()));
            }
            proof {
                assert(lv[i + 1] == lines@[i + 1]@);
            }
            match parse_date_core(lines[i + 1].as_str()) {
                Option::None => {
                    return Err(KPLCError::DateTimeFormatViolation(lines[i + 1].clone()));
                },
                Option::Some(parts) => {
                    let j = find_place_end(lines, i + 2);
                    let acc = collect_places(lines, i + 2, j);
                    if data.regions.len() == 0 {
                        proof {
                            assert(pre.len() == 0);
                        }
                        return Err(KPLCError::StructureViolation(lines[i].clone()));
                    }
                    proof {
                        reveal_strlit("AREA: ");
                        assert(pre.len() > 0);
                    }
                    let name = String::from_str(
                        str_trim(after_first(lines[i].as_str(), "AREA: ")),
                    );
                    let places = split_places(acc.as_str());
                    let area = Area {
                        area: name,
                        places,
                        date: Date { day: parts.day, month: parts.month, year: parts.year },
                        time: Time { start: parts.from, end: parts.to },
                    };
                    let ghost dp = spec_parse_date(lv[i + 1]).unwrap();
                    proof {
                        assert(area@ == AreaV {
                            name: spec_trim(spec_after(lv[i as int], "AREA: "@)),
                            places: spec_places(places_str(lv, i + 2, j as int)),
                            day: dp.day,
                            month: dp.month,
                            year: dp.year,
                            time: TimeV { start: dp.from, end: dp.to },
                        });
                    }
                    data.insert_area_to_last_part(area);
                    proof {
                        assert(run_lines(lv, i as int, pre) == run_lines(lv, j as int, data@));
                    }
                    i = j;
                },
            }
        } else {
            proof {
                assert(run_lines(lv, i as int, pre) == run_lines(lv, i + 1, pre));
            }
            i = i + 1;
        }
    }
    Ok(())
}

/// Splits a document's lines into pages: an exactly-empty line closes the
/// page being built and opens the next one (which starts with that line);
/// the page being built at end of input is flushed unconditionally.
pub fn build_book(lines: Vec<String>) -> (b: Book)
    ensures
        b@ == spec_pages(lines.deep_view(), 0, Seq::empty()),
{
    let ghost lv = lines.deep_view();
    let mut book = Book { pages: Vec::new() };
    let mut page = Page::new();
    let mut i: usize = 0;
    proof {
        assert(book@ =~= Seq::<Seq<Seq<char>>>::empty());
        assert(book@ + spec_pages(lv, 0, page@) =~= spec_pages(lv, 0, Seq::empty()));
    }
    while i < lines.len()
        invariant
            i <= lines@.len(),
            lv == lines.deep_view(),
            lv.len() == lines@.len(),
            spec_pages(lv, 0, Seq::empty()) == book@ + spec_pages(lv, i as int, page@),
        decreases lines@.len() - i,
    {
        proof {
            assert(lv[i as int] == lines@[i as int]@);
        }
        let line = lines[i].clone();
        if line.as_str().unicode_len() == 0 {
            let ghost prevb = book@;
            let ghost cur = page@;
            book.pages.push(page);
            page = Page::new();
            page.insert_line(line);
            proof {
                assert(book@ =~= prevb.push(cur));
                assert(page@ =~= seq![lv[i as int]]);
                assert(spec_pages(lv, i as int, cur) == seq![cur] + spec_pages(lv, i + 1, page@));
                assert(prevb.push(cur) + spec_pages(lv, i + 1, page@) =~= prevb + (seq![cur]
                    + spec_pages(lv, i + 1, page@)));
            }
        } else {
            let ghost cur = page@;
            page.insert_line(line);
            proof {
                assert(spec_pages(lv, i as int, cur) == spec_pages(lv, i + 1, cur.push(
                    lv[i as int],
                )));
            }
        }
        i = i + 1;
    }
    let ghost prevb = book@;
    let ghost cur = page@;
    book.pages.push(page);
    proof {
        assert(book@ =~= prevb.push(cur));
        assert(spec_pages(lv, lv.len() as int, cur) == seq![cur]);
        assert(prevb.push(cur) =~= prevb + seq![cur]);
    }
    book
}

impl KPLCClient {
    /// Creates a client.
    pub fn new() -> Self {
        Self {  }
    }

    /// Parses a whole book (pages of raw lines) into the region tree, or the
    /// first typed failure.
    pub fn parse_book_for_kplc_data(&mut self, book: Book) -> (r: Result<KPLCData, KPLCError>)
        ensures
            match r {
                Ok(d) => run_book(book@, 0, Seq::empty()) == ParseOut::Parsed(d@),
                Err(e) => run_book(book@, 0, Seq::empty()) == ParseOut::Failed(e@),
            },
    {
        let ghost bv = book@;
        let mut data = KPLCData::new();
        let mut p: usize = 0;
        while p < book.pages.len()
            invariant
                p <= book.pages@.len(),
                bv == book@,
                bv.len() == book.pages@.len(),
                run_book(bv, 0, Seq::empty()) == run_book(bv, p as int, data@),
            decreases book.pages@.len() - p,
        {
            proof {
                assert(bv[p as int] == book.pages@[p as int]@);
            }
            if book.pages[p].lines.len() <= 1 {
                proof {
                    assert(bv[p as int].len() <= 1);
                    assert(run_book(bv, p as int, data@) == run_book(bv, p + 1, data@));
                }
                p = p + 1;
            } else {
                proof {
                    assert(bv[p as int].len() > 1);
                }
                let seg = segment_page(&book.pages[p].lines);
                let filt = filter_lines(&seg);
                let ghost pre = data@;
                match parse_page(&mut data, &filt) {
                    Ok(_) => {
                        proof {
                            assert(run_book(bv, p as int, pre) == run_book(bv, p + 1, data@));
                        }
                        p = p + 1;
                    },
                    Err(e) => {
                        proof {
                            assert(run_book(bv, p as int, pre) == ParseOut::Failed(e@));
                        }
                        return Err(e);
                    },
                }
            }
        }
        Ok(data)
    }

    /// The whole pipeline: a document's layout-preserving text in, the
    /// region tree (or the first typed failure) out.
    pub fn parse_text_as_data_object(&mut self, text: &str) -> (r: Result<KPLCData, KPLCError>)
        ensures
            match r {
                Ok(d) => spec_parse_text(text@) == ParseOut::Parsed(d@),
                Err(e) => spec_parse_text(text@) == ParseOut::Failed(e@),
            },
    {
        let lines = split_lines(text);
        let book = build_book(lines);
        self.parse_book_for_kplc_data(book)
    }
}

} // verus!
