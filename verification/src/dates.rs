//! The date/time line grammar.
//!
//! A date/time line looks like
//! `DATE: Sunday 19.06.2022   TIME: 9.00 A.M. - 5.00 P.M.`.
//! It is tokenized into maximal runs of word characters, where one run of
//! periods between two word runs is folded into a single token (so
//! `19.06.2022` yields `19.06` and `2022`, and `A.M.` yields `A.M`).
//! The tokens are read positionally: token 1 is the weekday, token 2 the
//! `day.month` pair, token 3 the year, tokens 5 and 6 the start time,
//! tokens 7 and 8 the end time.

use vstd::prelude::*;
use vstd::string::*;
use crate::text::{spec_split, spec_parse_u32, split_char, parse_u32};

verus! {

/// A word character of the date-line grammar: an ASCII letter, digit or
/// underscore.
pub open spec fn is_word(c: char) -> bool {
    (97 <= c as u32 && c as u32 <= 122) || (65 <= c as u32 && c as u32 <= 90) || (48 <= c as u32
        && c as u32 <= 57) || c == '_'
}

/// Executable counterpart of `is_word`.
pub fn word_char(c: char) -> (b: bool)
    ensures
        b == is_word(c),
{
    let u = c as u32;
    (97 <= u && u <= 122) || (65 <= u && u <= 90) || (48 <= u && u <= 57) || c == '_'
}

/// End of the maximal run of word characters starting at `i`.
pub open spec fn word_end(s: Seq<char>, i: int) -> int
    decreases s.len() - i,
{
    if 0 <= i < s.len() && is_word(s[i]) {
        word_end(s, i + 1)
    } else {
        i
    }
}

/// End of the maximal run of periods starting at `i`.
pub open spec fn dot_end(s: Seq<char>, i: int) -> int
    decreases s.len() - i,
{
    if 0 <= i < s.len() && s[i] == '.' {
        dot_end(s, i + 1)
    } else {
        i
    }
}

pub proof fn lemma_word_end(s: Seq<char>, i: int)
    requires
        0 <= i <= s.len(),
    ensures
        i <= word_end(s, i) <= s.len(),
        forall|k: int| i <= k < word_end(s, i) ==> is_word(s[k]),
        word_end(s, i) < s.len() ==> !is_word(s[word_end(s, i)]),
    decreases s.len() - i,
{
    if i < s.len() && is_word(s[i]) {
        lemma_word_end(s, i + 1);
    }
}

pub proof fn lemma_dot_end(s: Seq<char>, i: int)
    requires
        0 <= i <= s.len(),
    ensures
        i <= dot_end(s, i) <= s.len(),
        forall|k: int| i <= k < dot_end(s, i) ==> s[k] == '.',
        dot_end(s, i) < s.len() ==> s[dot_end(s, i)] != '.',
    decreases s.len() - i,
{
    if i < s.len() && s[i] == '.' {
        lemma_dot_end(s, i + 1);
    }
}

/// Where the token that starts at `p` ends: a run of word characters,
/// optionally extended over one run of periods onto a second word run.
/// A single word character with no such extension is no token.
pub open spec fn token_end(s: Seq<char>, p: int) -> Option<int> {
    let q = word_end(s, p);
    let r = dot_end(s, q);
    if q < r < s.len() && is_word(s[r]) {
        Some(word_end(s, r))
    } else if q - p >= 2 {
        Some(q)
    } else {
        None
    }
}

/// The tokens of the line at or after position `p`, scanning left to right.
pub open spec fn spec_tokens_from(s: Seq<char>, p: int) -> Seq<Seq<char>>
    decreases s.len() - p,
{
    if p < 0 || p >= s.len() {
        Seq::empty()
    } else if !is_word(s[p]) {
        spec_tokens_from(s, p + 1)
    } else {
        match token_end(s, p) {
            Some(e) => if p < e <= s.len() {
                seq![s.subrange(p, e)] + spec_tokens_from(s, e)
            } else {
                // never reached: a token ends after the position it starts at
                Seq::empty()
            },
            None => spec_tokens_from(s, p + 1),
        }
    }
}

/// All tokens of a line.
pub open spec fn spec_tokens(s: Seq<char>) -> Seq<Seq<char>> {
    spec_tokens_from(s, 0)
}

fn scan_word_end(s: &str, i: usize) -> (e: usize)
    requires
        i <= s@.len(),
    ensures
        i <= e <= s@.len(),
        e as int == word_end(s@, i as int),
{
    let n = s.unicode_len();
    let mut w = i;
    loop
        invariant
            i <= w <= n,
            n == s@.len(),
            word_end(s@, i as int) == word_end(s@, w as int),
        ensures
            i <= w <= n,
            w as int == word_end(s@, i as int),
        decreases n - w,
    {
        if w < n {
            if word_char(s.get_char(w)) {
                w = w + 1;
            } else {
                break;
            }
        } else {
            break;
        }
    }
    w
}

fn scan_dot_end(s: &str, i: usize) -> (e: usize)
    requires
        i <= s@.len(),
    ensures
        i <= e <= s@.len(),
        e as int == dot_end(s@, i as int),
{
    let n = s.unicode_len();
    let mut w = i;
    loop
        invariant
            i <= w <= n,
            n == s@.len(),
            dot_end(s@, i as int) == dot_end(s@, w as int),
        ensures
            i <= w <= n,
            w as int == dot_end(s@, i as int),
        decreases n - w,
    {
        if w < n {
            if s.get_char(w) == '.' {
                w = w + 1;
            } else {
                break;
            }
        } else {
            break;
        }
    }
    w
}

/// Splits a line into its tokens.
pub fn tokenize(s: &str) -> (r: Vec<String>)
    ensures
        r.deep_view() == spec_tokens(s@),
{
    let n = s.unicode_len();
    let mut r: Vec<String> = Vec::new();
    let mut p: usize = 0;
    proof {
        assert(r.deep_view() + spec_tokens_from(s@, 0) =~= spec_tokens_from(s@, 0));
    }
    while p < n
        invariant
            p <= n,
            n == s@.len(),
            r.deep_view() + spec_tokens_from(s@, p as int) == spec_tokens(s@),
        decreases n - p,
    {
        let c = s.get_char(p);
        if !word_char(c) {
            p = p + 1;
        } else {
            let q = scan_word_end(s, p);
            let d = scan_dot_end(s, q);
            proof {
                assert(word_end(s@, p as int) == word_end(s@, p + 1));
                lemma_word_end(s@, p + 1);
            }
            let mut e: usize = 0;
            let mut tok = false;
            if q < d && d < n && word_char(s.get_char(d)) {
                e = scan_word_end(s, d);
                tok = true;
                proof {
                    assert(word_end(s@, d as int) == word_end(s@, d + 1));
                    lemma_word_end(s@, d + 1);
                    assert(token_end(s@, p as int) == Some(e as int));
                }
            } else if q - p >= 2 {
                e = q;
                tok = true;
                proof {
                    assert(token_end(s@, p as int) == Some(e as int));
                }
            } else {
                proof {
                    assert(token_end(s@, p as int) is None);
                }
            }
            if tok {
                let piece = String::from_str(s.substring_char(p, e));
                let ghost prev = r.deep_view();
                proof {
                    assert(prev.push(piece@) + spec_tokens_from(s@, e as int) =~= prev
                        + spec_tokens_from(s@, p as int));
                }
                r.push(piece);
                proof {
                    assert(r.deep_view() =~= prev.push(piece@));
                }
                p = e;
            } else {
                p = p + 1;
            }
        }
    }
    proof {
        assert(r.deep_view() + spec_tokens_from(s@, n as int) =~= r.deep_view());
    }
    r
}

/// The pieces extracted from one date/time line.
pub struct DateParts {
    pub weekday: String,
    pub day: u32,
    pub month: u32,
    pub year: u32,
    pub from: String,
    pub to: String,
}

#[verifier::ext_equal]
pub ghost struct SpecDateParts {
    pub weekday: Seq<char>,
    pub day: u32,
    pub month: u32,
    pub year: u32,
    pub from: Seq<char>,
    pub to: Seq<char>,
}

impl View for DateParts {
    type V = SpecDateParts;

    open spec fn view(&self) -> SpecDateParts {
        SpecDateParts {
            weekday: self.weekday@,
            day: self.day,
            month: self.month,
            year: self.year,
            from: self.from@,
            to: self.to@,
        }
    }
}

/// What one date/time line denotes: `None` when the line has fewer than nine
/// tokens, its third token is not a `day.month` pair, a numeric field does
/// not parse, or the day or month is out of range.
pub open spec fn spec_parse_date(l: Seq<char>) -> Option<SpecDateParts> {
    let t = spec_tokens(l);
    if t.len() < 9 {
        None
    } else {
        let dm = spec_split(t[2], '.');
        if dm.len() < 2 {
            None
        } else {
            match (spec_parse_u32(dm[0]), spec_parse_u32(dm[1]), spec_parse_u32(t[3])) {
                (Some(d), Some(m), Some(y)) => if 1 <= d <= 31 && 1 <= m <= 12 {
                    Some(
                        SpecDateParts {
                            weekday: t[1],
                            day: d,
                            month: m,
                            year: y,
                            from: t[5] + " "@ + t[6],
                            to: t[7] + " "@ + t[8],
                        },
                    )
                } else {
                    None
                },
                _ => None,
            }
        }
    }
}

/// Reads one date/time line. `None` exactly when the line does not follow
/// the grammar of `spec_parse_date`.
pub fn parse_date_core(line: &str) -> (r: Option<DateParts>)
    ensures
        match r {
            Some(p) => spec_parse_date(line@) == Some(p@),
            None => spec_parse_date(line@) is None,
        },
{
    let toks = tokenize(line);
    if toks.len() < 9 {
        return None;
    }
    let dm = split_char(toks[2].as_str(), '.');
    if dm.len() < 2 {
        return None;
    }
    let d_opt = parse_u32(dm[0].as_str());
    let m_opt = parse_u32(dm[1].as_str());
    let y_opt = parse_u32(toks[3].as_str());
    let day = match d_opt {
        Some(v) => v,
        None => {
            return None;
        },
    };
    let month = match m_opt {
        Some(v) => v,
        None => {
            return None;
        },
    };
    let year = match y_opt {
        Some(v) => v,
        None => {
            return None;
        },
    };
    if day < 1 || day > 31 || month < 1 || month > 12 {
        return None;
    }
    let from = toks[5].clone().concat(" ").concat(toks[6].as_str());
    let to = toks[7].clone().concat(" ").concat(toks[8].as_str());
    let weekday = toks[1].clone();
    Some(DateParts { weekday, day, month, year, from, to })
}

} // verus!
