//! Character-level utilities over `&str` and `String`, each with an exact
//! specification over the string's view (`Seq<char>`). The parser's contracts
//! are stated in terms of these spec functions.

use vstd::prelude::*;
use vstd::string::*;

verus! {

/// Whitespace as this library defines it: the blank characters that appear
/// in layout-preserving text renderings of the source notices.
pub open spec fn is_ws(c: char) -> bool {
    c == ' ' || c == '\t' || c == '\r' || c == '\n'
}

/// Executable counterpart of `is_ws`.
pub fn ws_char(c: char) -> (b: bool)
    ensures
        b == is_ws(c),
{
    c == ' ' || c == '\t' || c == '\r' || c == '\n'
}

/// Index of the first non-whitespace character at or after `i` (or `s.len()`).
pub open spec fn skip_front(s: Seq<char>, i: int) -> int
    decreases s.len() - i,
{
    if 0 <= i < s.len() && is_ws(s[i]) {
        skip_front(s, i + 1)
    } else {
        i
    }
}

/// One past the last non-whitespace character strictly before `j` (or 0).
pub open spec fn skip_back(s: Seq<char>, j: int) -> int
    decreases j,
{
    if 0 < j <= s.len() && is_ws(s[j - 1]) {
        skip_back(s, j - 1)
    } else {
        j
    }
}

/// The string with surrounding whitespace removed, as `str::trim` yields it.
pub open spec fn spec_trim(s: Seq<char>) -> Seq<char> {
    let a = skip_front(s, 0);
    let b = skip_back(s, s.len() as int);
    if a <= b {
        s.subrange(a, b)
    } else {
        Seq::empty()
    }
}

pub proof fn lemma_skip_front(s: Seq<char>, i: int)
    requires
        0 <= i <= s.len(),
    ensures
        i <= skip_front(s, i) <= s.len(),
        forall|k: int| i <= k < skip_front(s, i) ==> is_ws(s[k]),
        skip_front(s, i) < s.len() ==> !is_ws(s[skip_front(s, i)]),
    decreases s.len() - i,
{
    if i < s.len() && is_ws(s[i]) {
        lemma_skip_front(s, i + 1);
    }
}

pub proof fn lemma_skip_back(s: Seq<char>, j: int)
    requires
        0 <= j <= s.len(),
    ensures
        0 <= skip_back(s, j) <= j,
        forall|k: int| skip_back(s, j) <= k < j ==> is_ws(s[k]),
        skip_back(s, j) > 0 ==> !is_ws(s[skip_back(s, j) - 1]),
    decreases j,
{
    if 0 < j && is_ws(s[j - 1]) {
        lemma_skip_back(s, j - 1);
    }
}

/// `str::trim` of the original: drops surrounding whitespace.
pub fn str_trim(s: &str) -> (r: &str)
    ensures
        r@ == spec_trim(s@),
{
    let n = s.unicode_len();
    let mut a: usize = 0;
    loop
        invariant
            a <= n,
            n == s@.len(),
            skip_front(s@, 0) == skip_front(s@, a as int),
        ensures
            a <= n,
            a as int == skip_front(s@, 0),
        decreases n - a,
    {
        if a < n {
            let c = s.get_char(a);
            if ws_char(c) {
                a = a + 1;
            } else {
                break;
            }
        } else {
            break;
        }
    }
    proof {
        lemma_skip_front(s@, 0);
    }
    let mut b: usize = n;
    loop
        invariant
            a <= b <= n,
            n == s@.len(),
            a as int == skip_front(s@, 0),
            a < n ==> !is_ws(s@[a as int]),
            skip_back(s@, n as int) == skip_back(s@, b as int),
        ensures
            a <= b <= n,
            spec_trim(s@) == s@.subrange(a as int, b as int),
        decreases b,
    {
        if b > a {
            let c = s.get_char(b - 1);
            if ws_char(c) {
                b = b - 1;
            } else {
                proof {
                    assert(skip_back(s@, b as int) == b as int);
                }
                break;
            }
        } else {
            proof {
                lemma_skip_back(s@, n as int);
                if a < n {
                    // impossible: everything from skip_back(n) on is whitespace,
                    // yet s[a] is not and skip_back(n) <= a
                    lemma_skip_back(s@, a as int);
                    assert(false);
                }
                assert(spec_trim(s@) =~= s@.subrange(a as int, b as int));
            }
            break;
        }
    }
    s.substring_char(a, b)
}

/// Does `pat` occur at character position `i` of `s`?
pub open spec fn match_at(s: Seq<char>, pat: Seq<char>, i: int) -> bool {
    0 <= i && i + pat.len() <= s.len() && s.subrange(i, i + pat.len()) == pat
}

/// Substring containment, as `str::contains` of the original.
pub open spec fn spec_contains(s: Seq<char>, pat: Seq<char>) -> bool {
    exists|i: int| match_at(s, pat, i)
}

/// Executable test for `pat` occurring at position `i`.
pub fn match_at_exec(s: &str, pat: &str, i: usize) -> (b: bool)
    ensures
        b == match_at(s@, pat@, i as int),
{
    let n = s.unicode_len();
    let m = pat.unicode_len();
    if i > n || m > n - i {
        return false;
    }
    let mut j: usize = 0;
    loop
        invariant
            j <= m,
            m == pat@.len(),
            n == s@.len(),
            i + m <= n,
            forall|k: int| 0 <= k < j ==> s@[i + k] == pat@[k],
        ensures
            forall|k: int| 0 <= k < m ==> s@[i + k] == pat@[k],
        decreases m - j,
    {
        if j == m {
            break;
        }
        if s.get_char(i + j) == pat.get_char(j) {
            j = j + 1;
        } else {
            proof {
                assert(s@.subrange(i as int, i + m) != pat@) by {
                    assert(s@.subrange(i as int, i + m)[j as int] == s@[i + j]);
                }
            }
            return false;
        }
    }
    proof {
        assert(s@.subrange(i as int, i + m) =~= pat@);
    }
    true
}

/// Executable substring containment.
pub fn contains_sub(s: &str, pat: &str) -> (b: bool)
    ensures
        b == spec_contains(s@, pat@),
{
    let n = s.unicode_len();
    let m = pat.unicode_len();
    if m > n {
        return false;
    }
    if m == 0 {
        proof {
            assert(s@.subrange(0, 0) =~= pat@);
            assert(match_at(s@, pat@, 0));
        }
        return true;
    }
    let mut i: usize = 0;
    loop
        invariant
            i <= n - m + 1,
            n == s@.len(),
            m == pat@.len(),
            0 < m <= n,
            forall|k: int| 0 <= k < i ==> !match_at(s@, pat@, k),
        ensures
            forall|k: int| !match_at(s@, pat@, k),
        decreases n - m + 1 - i,
    {
        if i > n - m {
            break;
        }
        if match_at_exec(s, pat, i) {
            proof {
                assert(spec_contains(s@, pat@));
            }
            return true;
        }
        i = i + 1;
    }
    false
}

/// `str::replace(pat, "")` of the original: removes every occurrence of
/// `pat`, scanning left to right without overlap.
pub open spec fn spec_remove_all(s: Seq<char>, pat: Seq<char>) -> Seq<char>
    decreases s.len(),
{
    if pat.len() == 0 || s.len() == 0 {
        s
    } else if pat.len() <= s.len() && s.subrange(0, pat.len() as int) == pat {
        spec_remove_all(s.subrange(pat.len() as int, s.len() as int), pat)
    } else {
        seq![s[0]] + spec_remove_all(s.subrange(1, s.len() as int), pat)
    }
}

/// Executable removal of every occurrence of `pat`.
pub fn remove_all(s: &str, pat: &str) -> (r: String)
    requires
        pat@.len() > 0,
    ensures
        r@ == spec_remove_all(s@, pat@),
{
    let n = s.unicode_len();
    let m = pat.unicode_len();
    let mut r = String::new();
    let mut i: usize = 0;
    proof {
        assert(s@.subrange(0, n as int) =~= s@);
        assert(Seq::<char>::empty() + spec_remove_all(s@, pat@) =~= spec_remove_all(s@, pat@));
    }
    while i < n
        invariant
            i <= n,
            n == s@.len(),
            m == pat@.len(),
            m > 0,
            spec_remove_all(s@, pat@) == r@ + spec_remove_all(
                s@.subrange(i as int, n as int),
                pat@,
            ),
        decreases n - i,
    {
        let ghost suf = s@.subrange(i as int, n as int);
        if match_at_exec(s, pat, i) {
            proof {
                assert(suf.subrange(0, m as int) =~= s@.subrange(i as int, i + m));
                assert(suf.subrange(m as int, suf.len() as int) =~= s@.subrange(
                    i + m,
                    n as int,
                ));
            }
            i = i + m;
        } else {
            let piece = s.substring_char(i, i + 1);
            proof {
                if m <= n - i {
                    assert(suf.subrange(0, m as int) =~= s@.subrange(i as int, i + m));
                }
                assert(seq![suf[0]] =~= piece@);
                assert(suf.subrange(1, suf.len() as int) =~= s@.subrange(i + 1, n as int));
                assert(r@ + (seq![suf[0]] + spec_remove_all(
                    s@.subrange(i + 1, n as int),
                    pat@,
                )) =~= (r@ + piece@) + spec_remove_all(s@.subrange(i + 1, n as int), pat@));
            }
            r.append(piece);
            i = i + 1;
        }
    }
    proof {
        assert(s@.subrange(n as int, n as int) =~= Seq::<char>::empty());
        assert(r@ + Seq::<char>::empty() =~= r@);
    }
    r
}

/// Index of the first occurrence of `pat` at or after `i` (or `s.len()` as a
/// sentinel when there is none).
pub open spec fn pat_idx(s: Seq<char>, pat: Seq<char>, i: int) -> int
    decreases s.len() - i,
{
    if i < 0 || pat.len() <= 0 || i + pat.len() > s.len() {
        s.len() as int
    } else if match_at(s, pat, i) {
        i
    } else {
        pat_idx(s, pat, i + 1)
    }
}

pub proof fn lemma_pat_idx(s: Seq<char>, pat: Seq<char>, i: int)
    requires
        0 <= i <= s.len(),
        pat.len() > 0,
    ensures
        i <= pat_idx(s, pat, i) <= s.len(),
        forall|k: int| i <= k < pat_idx(s, pat, i) ==> !match_at(s, pat, k),
        (exists|k: int| i <= k && match_at(s, pat, k)) ==> match_at(s, pat, pat_idx(s, pat, i)),
    decreases s.len() - i,
{
    if i + pat.len() > s.len() {
        assert forall|k: int| i <= k implies !match_at(s, pat, k) by {}
    } else if !match_at(s, pat, i) {
        lemma_pat_idx(s, pat, i + 1);
        if exists|k: int| i <= k && match_at(s, pat, k) {
            let k = choose|k: int| i <= k && match_at(s, pat, k);
            assert(i + 1 <= k && match_at(s, pat, k));
        }
    }
}

/// The text after the first occurrence of `pat` (the whole string when `pat`
/// does not occur).
pub open spec fn spec_after(s: Seq<char>, pat: Seq<char>) -> Seq<char> {
    if spec_contains(s, pat) {
        s.subrange(pat_idx(s, pat, 0) + pat.len(), s.len() as int)
    } else {
        s
    }
}

/// Executable counterpart of `spec_after`: everything after the first
/// occurrence of `pat`.
pub fn after_first<'a>(s: &'a str, pat: &str) -> (r: &'a str)
    requires
        pat@.len() > 0,
    ensures
        r@ == spec_after(s@, pat@),
{
    let n = s.unicode_len();
    let m = pat.unicode_len();
    if m > n {
        proof {
            assert(forall|k: int| !match_at(s@, pat@, k));
        }
        return s;
    }
    let mut i: usize = 0;
    loop
        invariant
            i <= n - m + 1,
            n == s@.len(),
            m == pat@.len(),
            0 < m <= n,
            forall|k: int| 0 <= k < i ==> !match_at(s@, pat@, k),
        ensures
            forall|k: int| !match_at(s@, pat@, k),
        decreases n - m + 1 - i,
    {
        if i > n - m {
            break;
        }
        if match_at_exec(s, pat, i) {
            proof {
                assert(spec_contains(s@, pat@));
                lemma_pat_idx(s@, pat@, 0);
                let pidx = pat_idx(s@, pat@, 0);
                if pidx < i {
                    assert(!match_at(s@, pat@, pidx));
                    assert(match_at(s@, pat@, pidx));
                }
                assert(pidx == i as int);
            }
            return s.substring_char(i + m, n);
        }
        i = i + 1;
    }
    proof {
        assert(!spec_contains(s@, pat@));
    }
    s
}

/// Index of the first occurrence of `c` at or after `i` (or `s.len()`).
pub open spec fn sep_idx(s: Seq<char>, c: char, i: int) -> int
    decreases s.len() - i,
{
    if i < 0 || i >= s.len() {
        s.len() as int
    } else if s[i] == c {
        i
    } else {
        sep_idx(s, c, i + 1)
    }
}

pub proof fn lemma_sep_idx(s: Seq<char>, c: char, i: int)
    requires
        0 <= i <= s.len(),
    ensures
        i <= sep_idx(s, c, i) <= s.len(),
        forall|k: int| i <= k < sep_idx(s, c, i) ==> s[k] != c,
        sep_idx(s, c, i) < s.len() ==> s[sep_idx(s, c, i)] == c,
    decreases s.len() - i,
{
    if i < s.len() && s[i] != c {
        lemma_sep_idx(s, c, i + 1);
    }
}

/// `sep_idx` is pinned down by what a left-to-right scan observed.
pub proof fn lemma_sep_idx_exact(t: Seq<char>, c: char, m: int)
    requires
        0 <= m <= t.len(),
        forall|k: int| 0 <= k < m ==> t[k] != c,
        m < t.len() ==> t[m] == c,
    ensures
        sep_idx(t, c, 0) == m,
{
    lemma_sep_idx(t, c, 0);
}

/// `str::split(sep)` of the original: the pieces between occurrences of
/// `sep`, in order, empty pieces kept.
pub open spec fn spec_split(s: Seq<char>, c: char) -> Seq<Seq<char>>
    decreases s.len(),
{
    let i = sep_idx(s, c, 0);
    if 0 <= i < s.len() {
        seq![s.subrange(0, i)] + spec_split(s.subrange(i + 1, s.len() as int), c)
    } else {
        seq![s]
    }
}

/// Executable split on a separator character.
pub fn split_char(s: &str, c: char) -> (r: Vec<String>)
    ensures
        r.deep_view() == spec_split(s@, c),
{
    let n = s.unicode_len();
    let mut r: Vec<String> = Vec::new();
    let mut start: usize = 0;
    let mut j: usize = 0;
    proof {
        assert(s@.subrange(0, n as int) =~= s@);
        assert(r.deep_view() + spec_split(s@, c) =~= spec_split(s@, c));
    }
    while j < n
        invariant
            start <= j <= n,
            n == s@.len(),
            forall|k: int| start <= k < j ==> s@[k] != c,
            r.deep_view() + spec_split(s@.subrange(start as int, n as int), c) == spec_split(
                s@,
                c,
            ),
        decreases n - j,
    {
        if s.get_char(j) == c {
            let piece = String::from_str(s.substring_char(start, j));
            let ghost prev = r.deep_view();
            proof {
                let suf = s@.subrange(start as int, n as int);
                assert(forall|k: int|
                    0 <= k < j - start ==> suf[k] == s@[start + k] && suf[k] != c);
                lemma_sep_idx_exact(suf, c, j - start);
                assert(suf.subrange(0, j - start) =~= piece@);
                assert(suf.subrange(j - start + 1, suf.len() as int) =~= s@.subrange(
                    j + 1,
                    n as int,
                ));
                assert(prev.push(piece@) + spec_split(s@.subrange(j + 1, n as int), c) =~= prev
                    + spec_split(suf, c));
            }
            r.push(piece);
            proof {
                assert(r.deep_view() =~= prev.push(piece@));
            }
            start = j + 1;
        }
        j = j + 1;
    }
    let piece = String::from_str(s.substring_char(start, n));
    let ghost prev = r.deep_view();
    proof {
        let suf = s@.subrange(start as int, n as int);
        assert(forall|k: int| 0 <= k < n - start ==> suf[k] == s@[start + k] && suf[k] != c);
        lemma_sep_idx_exact(suf, c, n - start);
        assert(suf =~= piece@);
        assert(prev.push(piece@) =~= prev + spec_split(suf, c));
    }
    r.push(piece);
    proof {
        assert(r.deep_view() =~= prev.push(piece@));
    }
    r
}

/// An ASCII decimal digit.
pub open spec fn is_digit(c: char) -> bool {
    48 <= c as u32 && c as u32 <= 57
}

/// The numeric value of a digit character.
pub open spec fn digit_val(c: char) -> int {
    c as u32 - 48
}

pub open spec fn all_digits(s: Seq<char>) -> bool {
    forall|i: int| 0 <= i < s.len() ==> is_digit(s[i])
}

/// The number a digit string denotes, most significant digit first.
pub open spec fn str_val(s: Seq<char>) -> int
    decreases s.len(),
{
    if s.len() == 0 {
        0
    } else {
        str_val(s.drop_last()) * 10 + digit_val(s.last())
    }
}

/// `str::parse::<u32>` on the tokens this library produces: succeeds exactly
/// on non-empty all-digit strings whose value fits.
pub open spec fn spec_parse_u32(s: Seq<char>) -> Option<u32> {
    if s.len() > 0 && all_digits(s) && str_val(s) <= u32::MAX {
        Some(str_val(s) as u32)
    } else {
        None
    }
}

pub proof fn lemma_str_val_nonneg(s: Seq<char>)
    requires
        all_digits(s),
    ensures
        str_val(s) >= 0,
    decreases s.len(),
{
    if s.len() > 0 {
        assert(all_digits(s.drop_last()));
        lemma_str_val_nonneg(s.drop_last());
    }
}

/// A digit string's value only grows as digits are appended.
pub proof fn lemma_str_val_grows(s: Seq<char>, a: int)
    requires
        all_digits(s),
        0 <= a <= s.len(),
    ensures
        str_val(s.subrange(0, a)) <= str_val(s),
    decreases s.len() - a,
{
    if a == s.len() {
        assert(s.subrange(0, a) =~= s);
    } else {
        let p = s.subrange(0, a);
        let q = s.subrange(0, a + 1);
        assert(q.drop_last() =~= p);
        assert(all_digits(p));
        lemma_str_val_nonneg(p);
        assert(str_val(q) == str_val(p) * 10 + digit_val(q.last()));
        lemma_str_val_grows(s, a + 1);
    }
}

/// Executable decimal parse.
pub fn parse_u32(s: &str) -> (r: Option<u32>)
    ensures
        r == spec_parse_u32(s@),
{
    let n = s.unicode_len();
    if n == 0 {
        return None;
    }
    let mut v: u32 = 0;
    let mut i: usize = 0;
    while i < n
        invariant
            i <= n,
            n == s@.len(),
            n > 0,
            forall|k: int| 0 <= k < i ==> is_digit(s@[k]),
            v as int == str_val(s@.subrange(0, i as int)),
        decreases n - i,
    {
        let c = s.get_char(i);
        let u = c as u32;
        if u < 48 || u > 57 {
            proof {
                assert(!all_digits(s@));
            }
            return None;
        }
        let d = u - 48;
        proof {
            assert(s@.subrange(0, i + 1).drop_last() =~= s@.subrange(0, i as int));
            assert(s@.subrange(0, i + 1).last() == s@[i as int]);
        }
        let w: u64 = (v as u64) * 10 + (d as u64);
        if w > 0xffff_ffffu64 {
            proof {
                if all_digits(s@) {
                    lemma_str_val_grows(s@, i + 1);
                }
            }
            return None;
        }
        v = w as u32;
        i = i + 1;
    }
    proof {
        assert(s@.subrange(0, n as int) =~= s@);
    }
    Some(v)
}

/// A trailing carriage return dropped, as a line reader strips `\r\n`.
pub open spec fn strip_cr(l: Seq<char>) -> Seq<char> {
    if l.len() > 0 && l.last() == '\r' {
        l.drop_last()
    } else {
        l
    }
}

/// The document text as a sequence of lines: pieces between newlines, each
/// with a trailing carriage return dropped, and no phantom line after a
/// final newline.
pub open spec fn spec_lines(s: Seq<char>) -> Seq<Seq<char>>
    decreases s.len(),
{
    if s.len() == 0 {
        Seq::empty()
    } else {
        let i = sep_idx(s, '\n', 0);
        if 0 <= i < s.len() {
            seq![strip_cr(s.subrange(0, i))] + spec_lines(s.subrange(i + 1, s.len() as int))
        } else {
            seq![strip_cr(s)]
        }
    }
}

/// Executable line splitting.
pub fn split_lines(s: &str) -> (r: Vec<String>)
    ensures
        r.deep_view() == spec_lines(s@),
{
    let n = s.unicode_len();
    let mut r: Vec<String> = Vec::new();
    let mut start: usize = 0;
    let mut j: usize = 0;
    proof {
        assert(s@.subrange(0, n as int) =~= s@);
        assert(r.deep_view() + spec_lines(s@) =~= spec_lines(s@));
    }
    while j < n
        invariant
            start <= j <= n,
            n == s@.len(),
            forall|k: int| start <= k < j ==> s@[k] != '\n',
            r.deep_view() + spec_lines(s@.subrange(start as int, n as int)) == spec_lines(s@),
        decreases n - j,
    {
        if s.get_char(j) == '\n' {
            let mut e = j;
            if e > start && s.get_char(e - 1) == '\r' {
                e = e - 1;
            }
            let piece = String::from_str(s.substring_char(start, e));
            let ghost prev = r.deep_view();
            proof {
                let suf = s@.subrange(start as int, n as int);
                assert(suf.len() > 0);
                assert(forall|k: int|
                    0 <= k < j - start ==> suf[k] == s@[start + k] && suf[k] != '\n');
                lemma_sep_idx_exact(suf, '\n', j - start);
                let cut = suf.subrange(0, j - start);
                assert(cut =~= s@.subrange(start as int, j as int));
                if j > start && s@[j - 1] == '\r' {
                    assert(cut.drop_last() =~= s@.subrange(start as int, j - 1));
                    assert(strip_cr(cut) =~= piece@);
                } else {
                    assert(strip_cr(cut) =~= piece@);
                }
                assert(suf.subrange(j - start + 1, suf.len() as int) =~= s@.subrange(
                    j + 1,
                    n as int,
                ));
                assert(prev.push(piece@) + spec_lines(s@.subrange(j + 1, n as int)) =~= prev
                    + spec_lines(suf));
            }
            r.push(piece);
            proof {
                assert(r.deep_view() =~= prev.push(piece@));
            }
            start = j + 1;
        }
        j = j + 1;
    }
    if start < n {
        let mut e = n;
        if s.get_char(e - 1) == '\r' {
            e = e - 1;
        }
        let piece = String::from_str(s.substring_char(start, e));
        let ghost prev = r.deep_view();
        proof {
            let suf = s@.subrange(start as int, n as int);
            assert(suf.len() > 0);
            assert(forall|k: int| 0 <= k < n - start ==> suf[k] == s@[start + k] && suf[k] != '\n');
            lemma_sep_idx_exact(suf, '\n', n - start);
            if s@[n - 1] == '\r' {
                assert(suf.drop_last() =~= s@.subrange(start as int, n - 1));
                assert(strip_cr(suf) =~= piece@);
            } else {
                assert(strip_cr(suf) =~= piece@);
            }
            assert(prev.push(piece@) =~= prev + spec_lines(suf));
        }
        r.push(piece);
        proof {
            assert(r.deep_view() =~= prev.push(piece@));
        }
    } else {
        proof {
            assert(s@.subrange(start as int, n as int) =~= Seq::<char>::empty());
            assert(r.deep_view() + spec_lines(Seq::<char>::empty()) =~= r.deep_view());
        }
    }
    r
}

} // verus!
