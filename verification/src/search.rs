//! Pattern search over lines of text, backed by the `regex` crate.
//!
//! A searcher holds a validated pattern (case-insensitive matching prepends
//! the `(?i)` flag). Searching a file's lines yields one result per match:
//! the file's path, the one-based line and column, the line itself, and the
//! matched text. What the pattern matches is the regex engine's affair; the
//! engine's answer for a given pattern and line is named, not restated, and
//! everything around it is exact.

use regex::Regex;
use vstd::prelude::*;
use vstd::string::StringSliceAdditionalSpecFns;

verus! {

/// Whether the regex engine accepts `pattern`: compilation depends on the
/// pattern text alone.
pub uninterp spec fn regex_ok(pattern: Seq<char>) -> bool;

/// The matches the regex engine finds for `pattern` in `hay`, in order:
/// start and end byte offsets and the matched text. The answer depends on
/// the pattern and haystack alone.
pub uninterp spec fn matches_of(pattern: Seq<char>, hay: Seq<char>) -> Seq<(usize, usize, Seq<
    char,
>)>;

/// Relies on regex::Regex::new: it accepts or refuses the pattern text.
#[verifier::external_body]
fn regex_is_valid(pattern: &str) -> (r: bool)
    ensures
        r == regex_ok(pattern@),
{
    Regex::new(pattern).is_ok()
}

/// Relies on regex::Regex::new and regex::Regex::find_iter: compilation
/// succeeds exactly when the pattern is accepted, and each match carries
/// byte offsets with `start <= end <= haystack length` and the matched text.
#[verifier::external_body]
fn find_matches(pattern: &str, hay: &str) -> (r: Option<Vec<(usize, usize, String)>>)
    ensures
        r is Some <==> regex_ok(pattern@),
        r is Some ==> {
            let ms = matches_of(pattern@, hay@);
            &&& r.unwrap()@.len() == ms.len()
            &&& (forall|k: int|
                0 <= k < ms.len() ==> (#[trigger] r.unwrap()@[k]).0 == ms[k].0 && r.unwrap()@[k].1
                    == ms[k].1 && r.unwrap()@[k].2@ == ms[k].2)
            &&& (forall|k: int|
                0 <= k < ms.len() ==> (#[trigger] ms[k]).0 <= ms[k].1 && ms[k].1
                    <= hay.spec_bytes().len())
        },
{
    match Regex::new(pattern) {
        Err(_) => None,
        Ok(re) => Some(
            re.find_iter(hay).map(|m| (m.start(), m.end(), m.as_str().to_string())).collect(),
        ),
    }
}

/// One match: where it was found and what matched.
pub struct SearchResult {
    pub file_path: String,
    pub line_number: usize,
    pub column: usize,
    pub line_content: String,
    pub matched_text: String,
}

/// The pattern actually compiled: the caller's pattern, behind the
/// case-insensitivity flag unless matching case-sensitively.
pub open spec fn full_pattern_spec(pattern: Seq<char>, case_sensitive: bool) -> Seq<char> {
    if case_sensitive {
        pattern
    } else {
        ("(?i)")@ + pattern
    }
}

/// The results of one line, in match order: one-based line number and
/// column, the line, and the matched text.
pub open spec fn line_results_spec(pattern: Seq<char>, line: Seq<char>, line_no: int) -> Seq<
    (int, int, Seq<char>, Seq<char>),
> {
    Seq::new(
        matches_of(pattern, line).len(),
        |k: int|
            (
                line_no + 1,
                matches_of(pattern, line)[k].0 + 1,
                line,
                matches_of(pattern, line)[k].2,
            ),
    )
}

/// The results of all lines from position `i` on, concatenated in line
/// order.
pub open spec fn results_spec(pattern: Seq<char>, lines: Seq<Seq<char>>, i: int) -> Seq<
    (int, int, Seq<char>, Seq<char>),
>
    decreases lines.len() - i,
{
    if i < 0 || i >= lines.len() {
        Seq::empty()
    } else {
        line_results_spec(pattern, lines[i], i) + results_spec(pattern, lines, i + 1)
    }
}

pub struct FileSearcher {
    pattern: String,
    case_sensitive: bool,
}

impl FileSearcher {
    /// The compiled pattern text.
    pub closed spec fn pattern_spec(&self) -> Seq<char> {
        self.pattern@
    }

    pub closed spec fn spec_case_sensitive(&self) -> bool {
        self.case_sensitive
    }

    /// The held pattern was accepted by the engine.
    pub closed spec fn well_formed(&self) -> bool {
        regex_ok(self.pattern@)
    }

    /// Validates the pattern (with the case-insensitivity flag prepended
    /// unless matching case-sensitively) and keeps it. A pattern the engine
    /// refuses is reported back.
    pub fn new(pattern: &str, case_sensitive: bool) -> (r: Result<Self, String>)
        ensures
            match r {
                Ok(s) => {
                    &&& regex_ok(full_pattern_spec(pattern@, case_sensitive))
                    &&& s.well_formed()
                    &&& s.pattern_spec() == full_pattern_spec(pattern@, case_sensitive)
                    &&& s.spec_case_sensitive() == case_sensitive
                },
                Err(_) => !regex_ok(full_pattern_spec(pattern@, case_sensitive)),
            },
    {
        let full_pattern = if case_sensitive {
            String::from_str(pattern)
        } else {
            let mut p = String::from_str("(?i)");
            p.append(pattern);
            p
        };
        if regex_is_valid(full_pattern.as_str()) {
            Ok(FileSearcher { pattern: full_pattern, case_sensitive })
        } else {
            Err(String::from_str("Invalid regex pattern"))
        }
    }

    /// Searches the lines of one file, handing back every match with its
    /// one-based line and column.
    pub fn search_lines(&self, file_path: &str, lines: &Vec<String>) -> (r: Vec<SearchResult>)
        requires
            self.well_formed(),
            forall|i: int|
                0 <= i < lines@.len() ==> vstd::utf8::encode_utf8((#[trigger] lines@[i])@).len()
                    < usize::MAX,
        ensures
            ({
                let spec = results_spec(
                    self.pattern_spec(),
                    Seq::new(lines@.len(), |i: int| lines@[i]@),
                    0,
                );
                &&& r@.len() == spec.len()
                &&& (forall|k: int|
                    0 <= k < spec.len() ==> {
                        &&& (#[trigger] r@[k]).file_path@ == file_path@
                        &&& r@[k].line_number == spec[k].0
                        &&& r@[k].column == spec[k].1
                        &&& r@[k].line_content@ == spec[k].2
                        &&& r@[k].matched_text@ == spec[k].3
                    })
            }),
    {
        let ghost line_views = Seq::new(lines@.len(), |i: int| lines@[i]@);
        let ghost full = results_spec(self.pattern_spec(), line_views, 0);
        let mut results: Vec<SearchResult> = Vec::new();
        let mut i: usize = 0;
        proof {
            assert(full.skip(0) =~= full);
        }
        while i < lines.len()
            invariant
                self.well_formed(),
                line_views == Seq::new(lines@.len(), |i: int| lines@[i]@),
                full == results_spec(self.pattern_spec(), line_views, 0),
                forall|q: int|
                    0 <= q < lines@.len() ==> vstd::utf8::encode_utf8(
                        (#[trigger] lines@[q])@,
                    ).len() < usize::MAX,
                i <= lines@.len(),
                results@.len() + results_spec(self.pattern_spec(), line_views, i as int).len()
                    == full.len(),
                forall|k: int|
                    0 <= k < results@.len() ==> {
                        &&& (#[trigger] results@[k]).file_path@ == file_path@
                        &&& results@[k].line_number == full[k].0
                        &&& results@[k].column == full[k].1
                        &&& results@[k].line_content@ == full[k].2
                        &&& results@[k].matched_text@ == full[k].3
                    },
                results_spec(self.pattern_spec(), line_views, i as int) =~= full.skip(
                    results@.len() as int,
                ),
            decreases lines@.len() - i,
        {
            let line = &lines[i];
            let line_no = i + 1;
            let spans = match find_matches(self.pattern.as_str(), line.as_str()) {
                Some(s) => s,
                None => {
                    proof {
                        assert(false);
                    }
                    Vec::new()
                },
            };
            let ghost ms = matches_of(self.pattern_spec(), line_views[i as int]);
            let ghost line_part = line_results_spec(
                self.pattern_spec(),
                line_views[i as int],
                i as int,
            );
            proof {
                assert(results_spec(self.pattern_spec(), line_views, i as int) == line_part
                    + results_spec(self.pattern_spec(), line_views, i + 1));
            }
            let mut j: usize = 0;
            while j < spans.len()
                invariant
                    self.well_formed(),
                    i < lines@.len(),
                    line_no == i + 1,
                    line == lines@[i as int],
                    line_views == Seq::new(lines@.len(), |q: int| lines@[q]@),
                    vstd::utf8::encode_utf8(lines@[i as int]@).len() < usize::MAX,
                    ms == matches_of(self.pattern_spec(), line_views[i as int]),
                    line_part == line_results_spec(
                        self.pattern_spec(),
                        line_views[i as int],
                        i as int,
                    ),
                    spans@.len() == ms.len(),
                    forall|k: int|
                        0 <= k < ms.len() ==> (#[trigger] spans@[k]).0 == ms[k].0 && spans@[k].1
                            == ms[k].1 && spans@[k].2@ == ms[k].2,
                    forall|k: int|
                        0 <= k < ms.len() ==> (#[trigger] ms[k]).0 <= ms[k].1 && ms[k].1
                            <= vstd::utf8::encode_utf8(lines@[i as int]@).len(),
                    j <= spans@.len(),
                    full == results_spec(self.pattern_spec(), line_views, 0),
                    results@.len() + (line_part.len() - j) + results_spec(
                        self.pattern_spec(),
                        line_views,
                        i + 1,
                    ).len() == full.len(),
                    forall|k: int|
                        0 <= k < results@.len() ==> {
                            &&& (#[trigger] results@[k]).file_path@ == file_path@
                            &&& results@[k].line_number == full[k].0
                            &&& results@[k].column == full[k].1
                            &&& results@[k].line_content@ == full[k].2
                            &&& results@[k].matched_text@ == full[k].3
                        },
                    line_part.skip(j as int) + results_spec(self.pattern_spec(), line_views, i + 1)
                        =~= full.skip(results@.len() as int),
                decreases spans@.len() - j,
            {
                let span = &spans[j];
                let ghost rlen = results@.len() as int;
                let ghost rest = results_spec(self.pattern_spec(), line_views, i + 1);
                proof {
                    assert(*span == spans@[j as int]);
                    assert(spans@[j as int].0 == ms[j as int].0);
                    assert(ms[j as int].0 <= ms[j as int].1);
                    assert(ms[j as int].1 <= vstd::utf8::encode_utf8(lines@[i as int]@).len());
                    assert(span.0 < usize::MAX);
                    assert(full.skip(rlen)[0] == line_part[j as int]);
                    assert(full[rlen] == line_part[j as int]);
                }
                results.push(
                    SearchResult {
                        file_path: String::from_str(file_path),
                        line_number: line_no,
                        column: span.0 + 1,
                        line_content: line.clone(),
                        matched_text: span.2.clone(),
                    },
                );
                proof {
                    assert(full.skip(rlen + 1) =~= full.skip(rlen).skip(1));
                    assert(full.skip(rlen) == line_part.skip(j as int) + rest);
                    assert((line_part.skip(j as int) + rest).skip(1) =~= line_part.skip(
                        j as int,
                    ).skip(1) + rest);
                    assert(line_part.skip(j as int).skip(1) =~= line_part.skip(j + 1));
                    assert(line_part.skip(j + 1) + rest =~= full.skip(results@.len() as int));
                }
                j = j + 1;
            }
            proof {
                assert(line_part.skip(line_part.len() as int) =~= Seq::<
                    (int, int, Seq<char>, Seq<char>),
                >::empty());
                assert(results_spec(self.pattern_spec(), line_views, i + 1) =~= full.skip(
                    results@.len() as int,
                ));
            }
            i = i + 1;
        }
        proof {
            assert(results_spec(self.pattern_spec(), line_views, lines@.len() as int)
                =~= Seq::<(int, int, Seq<char>, Seq<char>)>::empty());
            assert(full.skip(results@.len() as int).len() == 0);
            assert(results@.len() == full.len());
        }
        results
    }
}

} // verus!
