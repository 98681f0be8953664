//! Laws of the parser, stated and proved over the spec-level pipeline.

use vstd::prelude::*;
use crate::client::{
    spec_segment, spec_filter, spec_classify, spec_insert_area, split_pos, page_has_gap,
    line_has_gap, gap_at, line_first_gap, page_gap_line, lefts_of, rights_of, keep_line,
    run_lines, run_book, spec_pages, spec_parse_text, LineClass, ParseOut, RegionV, AreaV,
    lemma_line_first_gap, lemma_page_gap_line, lemma_place_end, place_end,
};
use crate::text::{spec_contains, match_at, spec_lines};
use crate::dates::spec_parse_date;

verus! {

/// A page none of whose lines holds three consecutive spaces anywhere passes
/// through segmentation unchanged, in the original order.
pub proof fn lemma_segment_no_gap_identity(p: Seq<Seq<char>>)
    requires
        forall|i: int, k: int|
            #![trigger p[i][k]]
            0 <= i < p.len() && 0 <= k && k + 3 <= p[i].len() ==> !(p[i][k] == ' ' && p[i][k + 1]
                == ' ' && p[i][k + 2] == ' '),
    ensures
        spec_segment(p) == p,
{
    assert forall|i: int| 0 <= i < p.len() implies !line_has_gap(p[i]) by {
        if line_has_gap(p[i]) {
            let k = choose|k: int| gap_at(p[i], k);
            assert(!(p[i][k - 3] == ' ' && p[i][k - 2] == ' ' && p[i][k - 1] == ' '));
        }
    }
    assert(!page_has_gap(p));
}

/// The shape of the left column: one line out for every line in, cut two
/// characters before the split where the line reaches past it.
pub proof fn lemma_lefts_of(p: Seq<Seq<char>>, rsp: int)
    ensures
        lefts_of(p, rsp).len() == p.len(),
        forall|i: int|
            0 <= i < p.len() ==> lefts_of(p, rsp)[i] == (if p[i].len() > rsp {
                p[i].subrange(0, rsp - 2)
            } else {
                p[i]
            }),
    decreases p.len(),
{
    if p.len() > 0 {
        lemma_lefts_of(p.drop_last(), rsp);
        assert(forall|i: int| 0 <= i < p.len() - 1 ==> p.drop_last()[i] == p[i]);
    }
}

/// The right column never has more lines than the page.
pub proof fn lemma_rights_len(p: Seq<Seq<char>>, rsp: int)
    ensures
        rights_of(p, rsp).len() <= p.len(),
    decreases p.len(),
{
    if p.len() > 0 {
        lemma_rights_len(p.drop_last(), rsp);
    }
}

/// For a page whose every line has a gutter gap ending at the same column
/// `k` and at no other column, segmentation splits exactly at `k`: the left
/// set keeps one line per input line (truncated two before `k` where long
/// enough), the right set holds the tails of the long lines, and at most
/// twice the original number of lines comes out.
pub proof fn lemma_segment_uniform_gap(p: Seq<Seq<char>>, k: int)
    requires
        p.len() > 0,
        forall|i: int| 0 <= i < p.len() ==> gap_at(p[i], k),
        forall|i: int, t: int| 0 <= i < p.len() && gap_at(p[i], t) ==> t == k,
    ensures
        page_has_gap(p),
        split_pos(p) == k,
        spec_segment(p) == lefts_of(p, k) + rights_of(p, k),
        lefts_of(p, k).len() == p.len(),
        rights_of(p, k).len() <= p.len(),
        spec_segment(p).len() <= 2 * p.len(),
        forall|i: int|
            0 <= i < p.len() ==> lefts_of(p, k)[i] == (if p[i].len() > k {
                p[i].subrange(0, k - 2)
            } else {
                p[i]
            }),
{
    assert(line_has_gap(p[0]));
    assert(page_has_gap(p));
    assert(page_gap_line(p, 0) == 0);
    let l = p[0];
    lemma_line_first_gap(l, 0);
    let fg = line_first_gap(l, 0);
    if fg < l.len() {
        assert(gap_at(l, fg));
        assert(fg == k);
    } else {
        assert(gap_at(l, k));
        assert(false);
    }
    lemma_lefts_of(p, k);
    lemma_rights_len(p, k);
}

/// Every line the filter lets through satisfies `keep_line`.
pub proof fn lemma_filter_all_kept(s: Seq<Seq<char>>)
    ensures
        forall|i: int| 0 <= i < spec_filter(s).len() ==> keep_line(#[trigger] spec_filter(s)[i]),
    decreases s.len(),
{
    if s.len() > 0 {
        lemma_filter_all_kept(s.drop_last());
        let pre = spec_filter(s.drop_last());
        assert forall|i: int| 0 <= i < spec_filter(s).len() implies keep_line(
            #[trigger] spec_filter(s)[i],
        ) by {
            if i < pre.len() {
                assert(spec_filter(s)[i] == pre[i]);
            } else {
                assert(keep_line(s.last()));
                assert(spec_filter(s)[i] == s.last());
            }
        }
    }
}

/// Filtering a sequence whose every line already satisfies `keep_line`
/// changes nothing.
pub proof fn lemma_filter_of_kept(s: Seq<Seq<char>>)
    requires
        forall|i: int| 0 <= i < s.len() ==> keep_line(s[i]),
    ensures
        spec_filter(s) == s,
    decreases s.len(),
{
    if s.len() > 0 {
        assert(forall|i: int| 0 <= i < s.len() - 1 ==> s.drop_last()[i] == s[i]);
        lemma_filter_of_kept(s.drop_last());
        assert(spec_filter(s) =~= s);
    } else {
        assert(spec_filter(s) =~= s);
    }
}

/// The boilerplate filter is idempotent: filtering an already-filtered
/// sequence yields the same sequence.
pub proof fn lemma_filter_idempotent(s: Seq<Seq<char>>)
    ensures
        spec_filter(spec_filter(s)) == spec_filter(s),
{
    lemma_filter_all_kept(s);
    lemma_filter_of_kept(spec_filter(s));
}

/// A pattern found in a slice of a line is found in the line.
pub proof fn lemma_contains_in_subrange(l: Seq<char>, a: int, b: int, pat: Seq<char>)
    requires
        0 <= a <= b <= l.len(),
        spec_contains(l.subrange(a, b), pat),
    ensures
        spec_contains(l, pat),
{
    let sub = l.subrange(a, b);
    let i = choose|i: int| match_at(sub, pat, i);
    assert(l.subrange(a + i, a + i + pat.len() as int) =~= sub.subrange(i, i + pat.len() as int));
    assert(sub.subrange(i, i + pat.len() as int) =~= pat);
    assert(match_at(l, pat, a + i));
}

/// A slice of a plain line is itself plain: no marker can appear in a piece
/// of a line that has none.
pub proof fn lemma_plain_subrange(l: Seq<char>, a: int, b: int)
    requires
        0 <= a <= b <= l.len(),
        spec_classify(l) == LineClass::Plain,
    ensures
        spec_classify(l.subrange(a, b)) == LineClass::Plain,
{
    let sub = l.subrange(a, b);
    if spec_contains(sub, "REGION"@) {
        lemma_contains_in_subrange(l, a, b, "REGION"@);
    }
    if spec_contains(sub, "AREA: "@) {
        lemma_contains_in_subrange(l, a, b, "AREA: "@);
    }
    if spec_contains(sub, "PARTS OF "@) {
        lemma_contains_in_subrange(l, a, b, "PARTS OF "@);
    }
}

/// The left column of a page of plain lines is plain.
proof fn lemma_lefts_plain(p: Seq<Seq<char>>, rsp: int)
    requires
        3 <= rsp,
        forall|i: int| 0 <= i < p.len() ==> spec_classify(p[i]) == LineClass::Plain,
    ensures
        forall|i: int|
            0 <= i < lefts_of(p, rsp).len() ==> spec_classify(#[trigger] lefts_of(p, rsp)[i])
                == LineClass::Plain,
    decreases p.len(),
{
    if p.len() > 0 {
        assert(forall|i: int| 0 <= i < p.len() - 1 ==> p.drop_last()[i] == p[i]);
        lemma_lefts_plain(p.drop_last(), rsp);
        if p.last().len() > rsp {
            lemma_plain_subrange(p.last(), 0, rsp - 2);
        }
    }
}

/// The right column of a page of plain lines is plain.
proof fn lemma_rights_plain(p: Seq<Seq<char>>, rsp: int)
    requires
        3 <= rsp,
        forall|i: int| 0 <= i < p.len() ==> spec_classify(p[i]) == LineClass::Plain,
    ensures
        forall|i: int|
            0 <= i < rights_of(p, rsp).len() ==> spec_classify(#[trigger] rights_of(p, rsp)[i])
                == LineClass::Plain,
    decreases p.len(),
{
    if p.len() > 0 {
        assert(forall|i: int| 0 <= i < p.len() - 1 ==> p.drop_last()[i] == p[i]);
        lemma_rights_plain(p.drop_last(), rsp);
        if p.last().len() > rsp {
            lemma_plain_subrange(p.last(), rsp - 1, p.last().len() as int);
        }
    }
}

/// Segmenting a page of plain lines yields only plain lines.
proof fn lemma_segment_plain(p: Seq<Seq<char>>)
    requires
        forall|i: int| 0 <= i < p.len() ==> spec_classify(p[i]) == LineClass::Plain,
    ensures
        forall|i: int|
            0 <= i < spec_segment(p).len() ==> spec_classify(#[trigger] spec_segment(p)[i])
                == LineClass::Plain,
{
    if page_has_gap(p) {
        let rsp = split_pos(p);
        lemma_page_gap_line(p, 0);
        let g = page_gap_line(p, 0);
        assert(line_has_gap(p[g]));
        lemma_line_first_gap(p[g], 0);
        if line_first_gap(p[g], 0) < p[g].len() {
            assert(gap_at(p[g], rsp));
        } else {
            let k = choose|k: int| gap_at(p[g], k);
            assert(false);
        }
        assert(3 <= rsp);
        lemma_lefts_plain(p, rsp);
        lemma_rights_plain(p, rsp);
        assert forall|i: int| 0 <= i < spec_segment(p).len() implies spec_classify(
            #[trigger] spec_segment(p)[i],
        ) == LineClass::Plain by {
            if i < lefts_of(p, rsp).len() {
                assert(spec_segment(p)[i] == lefts_of(p, rsp)[i]);
            } else {
                assert(spec_segment(p)[i] == rights_of(p, rsp)[i - lefts_of(p, rsp).len()]);
            }
        }
    }
}

/// Filtering keeps only lines of the input, so it keeps plainness.
proof fn lemma_filter_plain(s: Seq<Seq<char>>)
    requires
        forall|i: int| 0 <= i < s.len() ==> spec_classify(s[i]) == LineClass::Plain,
    ensures
        forall|i: int|
            0 <= i < spec_filter(s).len() ==> spec_classify(#[trigger] spec_filter(s)[i])
                == LineClass::Plain,
    decreases s.len(),
{
    if s.len() > 0 {
        assert(forall|i: int| 0 <= i < s.len() - 1 ==> s.drop_last()[i] == s[i]);
        lemma_filter_plain(s.drop_last());
    }
}

/// The state machine passes over plain lines without touching the document.
proof fn lemma_run_lines_plain(lines: Seq<Seq<char>>, i: int, doc: Seq<RegionV>)
    requires
        0 <= i <= lines.len(),
        forall|t: int| 0 <= t < lines.len() ==> spec_classify(lines[t]) == LineClass::Plain,
    ensures
        run_lines(lines, i, doc) == ParseOut::Parsed(doc),
    decreases lines.len() - i,
{
    if i < lines.len() {
        lemma_run_lines_plain(lines, i + 1, doc);
    }
}

/// Splitting plain lines into pages yields pages of plain lines.
proof fn lemma_pages_plain(lines: Seq<Seq<char>>, i: int, cur: Seq<Seq<char>>)
    requires
        0 <= i <= lines.len(),
        forall|t: int| 0 <= t < lines.len() ==> spec_classify(lines[t]) == LineClass::Plain,
        forall|t: int| 0 <= t < cur.len() ==> spec_classify(cur[t]) == LineClass::Plain,
    ensures
        forall|a: int, b: int|
            #![trigger spec_pages(lines, i, cur)[a][b]]
            0 <= a < spec_pages(lines, i, cur).len() && 0 <= b < spec_pages(
                lines,
                i,
                cur,
            )[a].len() ==> spec_classify(spec_pages(lines, i, cur)[a][b]) == LineClass::Plain,
    decreases lines.len() - i,
{
    if i >= lines.len() {
        assert(spec_pages(lines, i, cur) == seq![cur]);
        assert(forall|b: int| 0 <= b < cur.len() ==> spec_classify(cur[b]) == LineClass::Plain);
    } else if lines[i].len() == 0 {
        lemma_pages_plain(lines, i + 1, seq![lines[i]]);
    } else {
        lemma_pages_plain(lines, i + 1, cur.push(lines[i]));
    }
}

/// Running a book whose every line is plain leaves the document as it was.
proof fn lemma_run_book_plain(pages: Seq<Seq<Seq<char>>>, p: int, doc: Seq<RegionV>)
    requires
        0 <= p <= pages.len(),
        forall|a: int, b: int|
            #![trigger pages[a][b]]
            0 <= a < pages.len() && 0 <= b < pages[a].len() ==> spec_classify(pages[a][b])
                == LineClass::Plain,
    ensures
        run_book(pages, p, doc) == ParseOut::Parsed(doc),
    decreases pages.len() - p,
{
    if p < pages.len() {
        if pages[p].len() > 1 {
            assert(forall|b: int|
                0 <= b < pages[p].len() ==> spec_classify(#[trigger] pages[p][b])
                    == LineClass::Plain);
            lemma_segment_plain(pages[p]);
            lemma_filter_plain(spec_segment(pages[p]));
            lemma_run_lines_plain(spec_filter(spec_segment(pages[p])), 0, doc);
        }
        lemma_run_book_plain(pages, p + 1, doc);
    }
}

/// A document whose every line holds no marker keyword - in particular one
/// made only of blank lines and boilerplate, which hold none - parses to an
/// empty document, not to a failure.
pub proof fn lemma_markerless_text_parses_empty(text: Seq<char>)
    requires
        forall|t: int|
            0 <= t < spec_lines(text).len() ==> spec_classify(#[trigger] spec_lines(text)[t])
                == LineClass::Plain,
    ensures
        spec_parse_text(text) == ParseOut::Parsed(Seq::<RegionV>::empty()),
{
    let lines = spec_lines(text);
    lemma_pages_plain(lines, 0, Seq::empty());
    lemma_run_book_plain(spec_pages(lines, 0, Seq::empty()), 0, Seq::empty());
}

/// A date/time line with fewer than nine tokens - in particular a `DATE:`
/// line whose `TIME:` part is missing, which ends after its year token - is
/// rejected, never read as a defaulted date.
pub proof fn lemma_short_date_line_rejected(l: Seq<char>)
    requires
        crate::dates::spec_tokens(l).len() < 9,
    ensures
        spec_parse_date(l) is None,
{
}

/// An area inserted under a region that has no part yet lands in exactly one
/// freshly created part with an empty name.
pub proof fn lemma_insert_area_auto_part(doc: Seq<RegionV>, a: AreaV)
    requires
        doc.len() > 0,
        doc.last().parts.len() == 0,
    ensures
        spec_insert_area(doc, a).len() == doc.len(),
        spec_insert_area(doc, a).last().parts.len() == 1,
        spec_insert_area(doc, a).last().parts[0].name == Seq::<char>::empty(),
        spec_insert_area(doc, a).last().parts[0].areas == seq![a],
{
}

/// Lines that open no region never change which regions exist: parsing them
/// keeps the region count, leaves every earlier region untouched, and keeps
/// the last region's name - so a region opened on one page retains the areas
/// parsed for it from a later page's lines.
pub proof fn lemma_run_lines_no_region_marker(
    lines: Seq<Seq<char>>,
    i: int,
    doc: Seq<RegionV>,
    out: Seq<RegionV>,
)
    requires
        0 <= i <= lines.len(),
        forall|t: int|
            0 <= t < lines.len() ==> spec_classify(#[trigger] lines[t]) != LineClass::RegionMarker,
        run_lines(lines, i, doc) == ParseOut::Parsed(out),
    ensures
        out.len() == doc.len(),
        forall|t: int| 0 <= t < doc.len() - 1 ==> out[t] == doc[t],
        doc.len() > 0 ==> out.last().name == doc.last().name,
    decreases lines.len() - i,
{
    if i < lines.len() {
        let l = lines[i];
        match spec_classify(l) {
            LineClass::RegionMarker => {
                assert(false);
            },
            LineClass::PartMarker => {
                assert(doc.len() > 0);
                let doc2 = crate::client::spec_push_part(
                    doc,
                    crate::text::spec_trim(crate::text::spec_remove_all(l, "PARTS OF "@)),
                );
                lemma_run_lines_no_region_marker(lines, i + 1, doc2, out);
            },
            LineClass::AreaMarker => {
                assert(i + 1 < lines.len());
                let dp = spec_parse_date(lines[i + 1]).unwrap();
                let j = place_end(lines, i + 2);
                lemma_place_end(lines, i + 2);
                assert(doc.len() > 0);
                let a = AreaV {
                    name: crate::text::spec_trim(crate::text::spec_after(l, "AREA: "@)),
                    places: crate::client::spec_places(
                        crate::client::places_str(lines, i + 2, j),
                    ),
                    day: dp.day,
                    month: dp.month,
                    year: dp.year,
                    time: crate::client::TimeV { start: dp.from, end: dp.to },
                };
                lemma_run_lines_no_region_marker(lines, j, spec_insert_area(doc, a), out);
            },
            LineClass::Plain => {
                lemma_run_lines_no_region_marker(lines, i + 1, doc, out);
            },
        }
    }
}

/// The left column of a page that never mentions the region keyword does not
/// mention it either.
proof fn lemma_lefts_no_region(p: Seq<Seq<char>>, rsp: int)
    requires
        3 <= rsp,
        forall|i: int| 0 <= i < p.len() ==> !spec_contains(#[trigger] p[i], "REGION"@),
    ensures
        forall|i: int|
            0 <= i < lefts_of(p, rsp).len() ==> !spec_contains(
                #[trigger] lefts_of(p, rsp)[i],
                "REGION"@,
            ),
    decreases p.len(),
{
    if p.len() > 0 {
        assert(forall|i: int| 0 <= i < p.len() - 1 ==> p.drop_last()[i] == p[i]);
        lemma_lefts_no_region(p.drop_last(), rsp);
        if p.last().len() > rsp && spec_contains(p.last().subrange(0, rsp - 2), "REGION"@) {
            lemma_contains_in_subrange(p.last(), 0, rsp - 2, "REGION"@);
            assert(!spec_contains(p[p.len() - 1], "REGION"@));
        }
        let pre = lefts_of(p.drop_last(), rsp);
        assert forall|i: int| 0 <= i < lefts_of(p, rsp).len() implies !spec_contains(
            #[trigger] lefts_of(p, rsp)[i],
            "REGION"@,
        ) by {
            if i < pre.len() {
                assert(lefts_of(p, rsp)[i] == pre[i]);
            } else {
                assert(!spec_contains(p[p.len() - 1], "REGION"@));
            }
        }
    }
}

/// The right column of a page that never mentions the region keyword does not
/// mention it either.
proof fn lemma_rights_no_region(p: Seq<Seq<char>>, rsp: int)
    requires
        3 <= rsp,
        forall|i: int| 0 <= i < p.len() ==> !spec_contains(#[trigger] p[i], "REGION"@),
    ensures
        forall|i: int|
            0 <= i < rights_of(p, rsp).len() ==> !spec_contains(
                #[trigger] rights_of(p, rsp)[i],
                "REGION"@,
            ),
    decreases p.len(),
{
    if p.len() > 0 {
        assert(forall|i: int| 0 <= i < p.len() - 1 ==> p.drop_last()[i] == p[i]);
        lemma_rights_no_region(p.drop_last(), rsp);
        if p.last().len() > rsp && spec_contains(
            p.last().subrange(rsp - 1, p.last().len() as int),
            "REGION"@,
        ) {
            lemma_contains_in_subrange(p.last(), rsp - 1, p.last().len() as int, "REGION"@);
            assert(!spec_contains(p[p.len() - 1], "REGION"@));
        }
        let pre = rights_of(p.drop_last(), rsp);
        assert forall|i: int| 0 <= i < rights_of(p, rsp).len() implies !spec_contains(
            #[trigger] rights_of(p, rsp)[i],
            "REGION"@,
        ) by {
            if i < pre.len() {
                assert(rights_of(p, rsp)[i] == pre[i]);
            } else {
                assert(p[p.len() - 1].len() > rsp);
                assert(rights_of(p, rsp)[i] == p[p.len() - 1].subrange(
                    rsp - 1,
                    p[p.len() - 1].len() as int,
                ));
                assert(!spec_contains(p[p.len() - 1], "REGION"@));
            }
        }
    }
}

/// Segmentation cannot conjure the region keyword: logical lines of a page
/// that never mentions it do not mention it.
proof fn lemma_segment_no_region(p: Seq<Seq<char>>)
    requires
        forall|i: int| 0 <= i < p.len() ==> !spec_contains(#[trigger] p[i], "REGION"@),
    ensures
        forall|i: int|
            0 <= i < spec_segment(p).len() ==> !spec_contains(
                #[trigger] spec_segment(p)[i],
                "REGION"@,
            ),
{
    if page_has_gap(p) {
        let rsp = split_pos(p);
        lemma_page_gap_line(p, 0);
        let g = page_gap_line(p, 0);
        assert(line_has_gap(p[g]));
        lemma_line_first_gap(p[g], 0);
        if line_first_gap(p[g], 0) < p[g].len() {
            assert(gap_at(p[g], rsp));
        } else {
            let k = choose|k: int| gap_at(p[g], k);
            assert(false);
        }
        assert(3 <= rsp);
        lemma_lefts_no_region(p, rsp);
        lemma_rights_no_region(p, rsp);
        assert forall|i: int| 0 <= i < spec_segment(p).len() implies !spec_contains(
            #[trigger] spec_segment(p)[i],
            "REGION"@,
        ) by {
            if i < lefts_of(p, rsp).len() {
                assert(spec_segment(p)[i] == lefts_of(p, rsp)[i]);
            } else {
                assert(spec_segment(p)[i] == rights_of(p, rsp)[i - lefts_of(p, rsp).len()]);
            }
        }
    }
}

/// Filtering keeps only lines of the input, so it cannot introduce the
/// region keyword.
proof fn lemma_filter_no_region(s: Seq<Seq<char>>)
    requires
        forall|i: int| 0 <= i < s.len() ==> !spec_contains(#[trigger] s[i], "REGION"@),
    ensures
        forall|i: int|
            0 <= i < spec_filter(s).len() ==> !spec_contains(
                #[trigger] spec_filter(s)[i],
                "REGION"@,
            ),
    decreases s.len(),
{
    if s.len() > 0 {
        assert(forall|i: int| 0 <= i < s.len() - 1 ==> s.drop_last()[i] == s[i]);
        lemma_filter_no_region(s.drop_last());
        let pre = spec_filter(s.drop_last());
        assert forall|i: int| 0 <= i < spec_filter(s).len() implies !spec_contains(
            #[trigger] spec_filter(s)[i],
            "REGION"@,
        ) by {
            if i < pre.len() {
                assert(spec_filter(s)[i] == pre[i]);
            } else {
                assert(spec_filter(s)[i] == s.last());
                assert(!spec_contains(s[s.len() - 1], "REGION"@));
            }
        }
    }
}

/// State persists across page boundaries: for a book whose pages from `p` on
/// never mention the region keyword, a successful run keeps the region count,
/// every earlier region, and the last region's name - a region opened on one
/// page keeps collecting the parts and areas parsed from later pages.
pub proof fn lemma_run_book_no_new_region(
    pages: Seq<Seq<Seq<char>>>,
    p: int,
    doc: Seq<RegionV>,
    out: Seq<RegionV>,
)
    requires
        0 <= p <= pages.len(),
        forall|a: int, b: int|
            #![trigger pages[a][b]]
            p <= a < pages.len() && 0 <= b < pages[a].len() ==> !spec_contains(
                pages[a][b],
                "REGION"@,
            ),
        run_book(pages, p, doc) == ParseOut::Parsed(out),
    ensures
        out.len() == doc.len(),
        forall|t: int| 0 <= t < doc.len() - 1 ==> out[t] == doc[t],
        doc.len() > 0 ==> out.last().name == doc.last().name,
    decreases pages.len() - p,
{
    if p < pages.len() {
        if pages[p].len() <= 1 {
            lemma_run_book_no_new_region(pages, p + 1, doc, out);
        } else {
            assert(forall|b: int|
                0 <= b < pages[p].len() ==> !spec_contains(#[trigger] pages[p][b], "REGION"@));
            lemma_segment_no_region(pages[p]);
            let fil = spec_filter(spec_segment(pages[p]));
            lemma_filter_no_region(spec_segment(pages[p]));
            let d = run_lines(fil, 0, doc)->Parsed_0;
            assert(run_lines(fil, 0, doc) == ParseOut::Parsed(d));
            assert(forall|t: int|
                0 <= t < fil.len() ==> spec_classify(#[trigger] fil[t]) != LineClass::RegionMarker);
            lemma_run_lines_no_region_marker(fil, 0, doc, d);
            lemma_run_book_no_new_region(pages, p + 1, d, out);
        }
    }
}

} // verus!
