//! Class-name pattern matching: regular expressions compiled from the
//! configuration's pattern lists, used to ignore windows and to pick
//! startup-policy targets.

use vstd::prelude::*;

verus! {

#[verifier::external_type_specification]
#[verifier::external_body]
pub struct ExRegex(regex::Regex);

/// Whether the regular expression written as `pattern` matches somewhere in
/// `text`; the result depends on the two strings alone.
pub uninterp spec fn regex_match(pattern: Seq<char>, text: Seq<char>) -> bool;

/// Whether `pattern` is a valid regular expression, that is, whether
/// compiling it succeeds; depends on the pattern text alone.
pub uninterp spec fn regex_valid(pattern: Seq<char>) -> bool;

/// A compiled pattern, remembering its source text. The compiled expression
/// is built from the source by `compile` alone, so the two always agree.
pub struct Pattern {
    source: String,
    compiled: regex::Regex,
}

impl View for Pattern {
    type V = Seq<char>;

    closed spec fn view(&self) -> Seq<char> {
        self.source@
    }
}

/// Relies on `regex::Regex::new`: compiling a pattern succeeds exactly when
/// it is a valid regular expression, and depends on the pattern text alone.
/// On failure the error's rendering is returned.
#[verifier::external_body]
fn compile(source: &str) -> (r: Result<regex::Regex, String>)
    ensures
        r is Ok == regex_valid(source@),
{
    match regex::Regex::new(source) {
        Ok(re) => Ok(re),
        Err(e) => Err(format!("{}", e)),
    }
}

impl Pattern {
    /// Compile `source`; succeeds exactly on valid regular expressions.
    pub fn new(source: &str) -> (r: Result<Pattern, String>)
        ensures
            r is Ok == regex_valid(source@),
            r matches Ok(p) ==> p@ == source@,
    {
        match compile(source) {
            Ok(compiled) => Ok(Pattern { source: source.to_owned(), compiled }),
            Err(e) => Err(e),
        }
    }

    /// Relies on `regex::Regex::is_match`: whether the pattern matches
    /// somewhere in `text`. The compiled expression is the compilation of
    /// `self.source` (both fields are private and set only by `new`), so
    /// the answer is `regex_match` of the source text and `text`.
    #[verifier::external_body]
    pub(crate) fn matches(&self, text: &str) -> (r: bool)
        ensures
            r == regex_match(self@, text@),
    {
        self.compiled.is_match(text)
    }
}

/// The texts of a list of compiled patterns.
pub open spec fn pattern_views(ps: Seq<Pattern>) -> Seq<Seq<char>> {
    ps.map_values(|p: Pattern| p@)
}

/// Some pattern in the list matches `text`.
pub open spec fn any_match(patterns: Seq<Seq<char>>, text: Seq<char>) -> bool {
    exists|i: int| 0 <= i < patterns.len() && regex_match(#[trigger] patterns[i], text)
}

/// Whether any pattern in `haystack` matches the window class `class`.
pub fn any_apply(class: &str, haystack: &Vec<Pattern>) -> (r: bool)
    ensures
        r == any_match(pattern_views(haystack@), class@),
{
    let mut i: usize = 0;
    while i < haystack.len()
        invariant
            i <= haystack@.len(),
            forall|j: int|
                0 <= j < i ==> !regex_match(#[trigger] pattern_views(haystack@)[j], class@),
        decreases haystack@.len() - i,
    {
        if haystack[i].matches(class) {
            proof {
                assert(pattern_views(haystack@)[i as int] == haystack@[i as int]@);
            }
            return true;
        }
        proof {
            assert(pattern_views(haystack@)[i as int] == haystack@[i as int]@);
        }
        i += 1;
    }
    false
}

/// The four pattern lists the run is configured with, matched against a
/// window's class name: windows to ignore entirely, and the three startup
/// actions (ask to close, send terminate, send kill).
pub struct Config {
    pub ignore: Vec<Pattern>,
    pub on_start_ask: Vec<Pattern>,
    pub on_start_tell: Vec<Pattern>,
    pub on_start_kill: Vec<Pattern>,
}

/// Compile a list of pattern texts; succeeds exactly when every entry is a
/// valid regular expression, and keeps the entries' order. On failure the
/// first invalid pattern's error is reported.
pub fn compile_list(items: &Vec<String>) -> (r: Result<Vec<Pattern>, String>)
    ensures
        r matches Ok(ps) ==> {
            &&& ps@.len() == items@.len()
            &&& forall|i: int| 0 <= i < ps@.len() ==> (#[trigger] ps@[i])@ == items@[i]@
            &&& forall|i: int| 0 <= i < items@.len() ==> regex_valid((#[trigger] items@[i])@)
        },
        r is Err ==> exists|i: int|
            0 <= i < items@.len() && !regex_valid((#[trigger] items@[i])@) && (forall|j: int|
                0 <= j < i ==> regex_valid((#[trigger] items@[j])@)),
{
    let mut out: Vec<Pattern> = Vec::new();
    let mut i: usize = 0;
    while i < items.len()
        invariant
            i <= items@.len(),
            out@.len() == i,
            forall|j: int| 0 <= j < i ==> (#[trigger] out@[j])@ == items@[j]@,
            forall|j: int| 0 <= j < i ==> regex_valid((#[trigger] items@[j])@),
        decreases items@.len() - i,
    {
        match Pattern::new(items[i].as_str()) {
            Ok(p) => {
                out.push(p);
            },
            Err(e) => {
                proof {
                    assert(0 <= i < items@.len() && !regex_valid((items@[i as int])@) && (
                    forall|j: int| 0 <= j < i ==> regex_valid((#[trigger] items@[j])@)));
                }
                return Err(e);
            },
        }
        i += 1;
    }
    Ok(out)
}

impl Config {
    /// Build a configuration from the four raw pattern lists; succeeds
    /// exactly when every pattern in every list is valid.
    pub fn from_lists(
        ignore: &Vec<String>,
        on_start_ask: &Vec<String>,
        on_start_tell: &Vec<String>,
        on_start_kill: &Vec<String>,
    ) -> (r: Result<Config, String>)
        ensures
            r matches Ok(c) ==> {
                &&& pattern_views(c.ignore@) =~= ignore@.map_values(|s: String| s@)
                &&& pattern_views(c.on_start_ask@) =~= on_start_ask@.map_values(|s: String| s@)
                &&& pattern_views(c.on_start_tell@) =~= on_start_tell@.map_values(
                    |s: String| s@,
                )
                &&& pattern_views(c.on_start_kill@) =~= on_start_kill@.map_values(
                    |s: String| s@,
                )
            },
            r is Err ==> {
                ||| exists|i: int|
                    0 <= i < ignore@.len() && !regex_valid((#[trigger] ignore@[i])@)
                ||| exists|i: int|
                    0 <= i < on_start_ask@.len() && !regex_valid((#[trigger] on_start_ask@[i])@)
                ||| exists|i: int|
                    0 <= i < on_start_tell@.len() && !regex_valid(
                        (#[trigger] on_start_tell@[i])@,
                    )
                ||| exists|i: int|
                    0 <= i < on_start_kill@.len() && !regex_valid(
                        (#[trigger] on_start_kill@[i])@,
                    )
            },
    {
        let ignore = match compile_list(ignore) {
            Ok(v) => v,
            Err(e) => {
                return Err(e);
            },
        };
        let on_start_ask = match compile_list(on_start_ask) {
            Ok(v) => v,
            Err(e) => {
                return Err(e);
            },
        };
        let on_start_tell = match compile_list(on_start_tell) {
            Ok(v) => v,
            Err(e) => {
                return Err(e);
            },
        };
        let on_start_kill = match compile_list(on_start_kill) {
            Ok(v) => v,
            Err(e) => {
                return Err(e);
            },
        };
        Ok(Config { ignore, on_start_ask, on_start_tell, on_start_kill })
    }
}

} // verus!
