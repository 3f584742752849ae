//! Which files a session leaves alone.
//!
//! A file is processed when its path matches one of the include patterns and
//! none of the exclude patterns. The patterns are regular expressions in the
//! syntax of the `regex` crate, compiled once when the configuration is read.

use vstd::prelude::*;

verus! {

/// `regex::Regex`, a compiled regular expression. Nothing of its inside is
/// known here: it is made by `compile` and only handed on.
#[verifier::external_type_specification]
#[verifier::external_body]
pub struct ExRegex(regex::Regex);

/// `regex::Error`, what the `regex` crate reports of a pattern that it does
/// not compile. Nothing of its inside is known here.
#[verifier::external_type_specification]
#[verifier::external_body]
pub struct ExRegexError(regex::Error);

/// What `regex::Regex::is_match` returns on `haystack` for the expression
/// compiled from `pattern`: whether the expression has a match anywhere in
/// the haystack.
pub uninterp spec fn regex_matches(pattern: Seq<char>, haystack: Seq<char>) -> bool;

/// A pattern that could not be compiled.
#[derive(Debug)]
pub struct InvalidPattern {
    /// The pattern as it was written.
    pub pattern: String,
    /// What the `regex` crate says of it.
    pub reason: String,
}

/// A regular expression, compiled, together with its source.
#[derive(Debug)]
pub struct RegexString {
    re: regex::Regex,
    re_str: String,
}

/// `regex::Regex::new`: compiles a pattern. Whether a pattern compiles is
/// for the crate to say: nothing is stated of the result.
#[verifier::external_body]
fn compile(re_str: &str) -> Result<regex::Regex, regex::Error> {
    regex::Regex::new(re_str)
}

/// The `Display` text of a `regex::Error`. Nothing is stated of it.
#[verifier::external_body]
fn reason_of(error: &regex::Error) -> String {
    error.to_string()
}

impl RegexString {
    /// The source of the pattern.
    pub closed spec fn pattern(&self) -> Seq<char> {
        self.re_str@
    }

    /// Compiles `re_str`. The only way to make a `RegexString`: the compiled
    /// expression is always that of the source kept beside it.
    pub fn new(re_str: String) -> (r: Result<RegexString, InvalidPattern>)
        ensures
            match r {
                Ok(compiled) => compiled.pattern() == re_str@,
                Err(invalid) => invalid.pattern@ == re_str@,
            },
    {
        let compiled = compile(re_str.as_str());
        RegexString::paired(re_str, compiled)
    }

    /// The source with what compiling it gave: the pair where it compiled,
    /// else the source with the reason.
    fn paired(re_str: String, compiled: Result<regex::Regex, regex::Error>) -> (r: Result<
        RegexString,
        InvalidPattern,
    >)
        ensures
            r is Ok <==> compiled is Ok,
            match r {
                Ok(pair) => pair.pattern() == re_str@,
                Err(invalid) => invalid.pattern@ == re_str@,
            },
    {
        match compiled {
            Ok(re) => Ok(RegexString { re, re_str }),
            Err(error) => Err(InvalidPattern { reason: reason_of(&error), pattern: re_str }),
        }
    }

    /// The source of the pattern.
    pub fn as_str(&self) -> (r: &str)
        ensures
            r@ == self.pattern(),
    {
        self.re_str.as_str()
    }

    /// `regex::Regex::is_match` on the compiled expression: whether the
    /// pattern has a match anywhere in `path`. The expression was compiled
    /// from the source that `pattern()` returns.
    #[verifier::external_body]
    fn is_match(&self, path: &str) -> (r: bool)
        ensures
            r == regex_matches(self.pattern(), path@),
    {
        self.re.is_match(path)
    }

}

/// The include and exclude patterns of the configuration.
#[derive(Debug)]
pub struct PathFilter {
    pub file_include: Vec<RegexString>,
    pub file_exclude: Vec<RegexString>,
}

/// What the filter says of a path.
#[derive(Clone, Copy, Debug, PartialEq, Eq, Structural)]
pub enum Verdict {
    /// The path is processed.
    Kept,
    /// No include pattern matches the path.
    NotIncluded,
    /// The exclude pattern with this index matches the path; no exclude
    /// pattern before it does.
    Excluded(usize),
}

/// One of `patterns` has a match in `path`.
pub open spec fn any_matches(patterns: Seq<RegexString>, path: Seq<char>) -> bool {
    exists|i: int| 0 <= i < patterns.len() && regex_matches((#[trigger] patterns[i]).pattern(), path)
}

/// The index of the first of `patterns` that has a match in `path`.
pub open spec fn first_match(patterns: Seq<RegexString>, path: Seq<char>) -> Option<int>
    decreases patterns.len(),
{
    if patterns.len() == 0 {
        None
    } else {
        match first_match(patterns.drop_last(), path) {
            Some(i) => Some(i),
            None => if regex_matches(patterns.last().pattern(), path) {
                Some(patterns.len() - 1)
            } else {
                None
            },
        }
    }
}

/// What the filter says of `path`.
pub open spec fn verdict(
    included: Seq<RegexString>,
    excluded: Seq<RegexString>,
    path: Seq<char>,
) -> Verdict {
    if first_match(included, path) is None {
        Verdict::NotIncluded
    } else {
        match first_match(excluded, path) {
            Some(i) => Verdict::Excluded(i as usize),
            None => Verdict::Kept,
        }
    }
}

/// The index of the first of `patterns` that has a match in `path`.
fn first_matching(patterns: &Vec<RegexString>, path: &str) -> (r: Option<usize>)
    ensures
        match r {
            Some(i) => first_match(patterns@, path@) == Some(i as int) && i < patterns.len(),
            None => first_match(patterns@, path@) is None,
        },
{
    let mut i: usize = 0;
    assert(patterns@.take(0).len() == 0);
    while i < patterns.len()
        invariant
            i <= patterns.len(),
            first_match(patterns@.take(i as int), path@) is None,
        decreases patterns.len() - i,
    {
        let ghost upto = patterns@.take(i + 1);
        proof {
            assert(upto.drop_last() == patterns@.take(i as int));
            assert(upto.last() == patterns@[i as int]);
        }
        if patterns[i].is_match(path) {
            proof {
                lemma_first_match_stays(patterns@, path@, i + 1);
            }
            return Some(i);
        }
        i += 1;
    }
    assert(patterns@.take(patterns.len() as int) == patterns@);
    None
}

/// A first match among the first `n` patterns is the first match among all.
pub proof fn lemma_first_match_stays(patterns: Seq<RegexString>, path: Seq<char>, n: int)
    requires
        0 <= n <= patterns.len(),
        first_match(patterns.take(n), path) is Some,
    ensures
        first_match(patterns, path) == first_match(patterns.take(n), path),
    decreases patterns.len() - n,
{
    if n < patterns.len() {
        let upto = patterns.take(n + 1);
        assert(upto.drop_last() == patterns.take(n));
        lemma_first_match_stays(patterns, path, n + 1);
    } else {
        assert(patterns.take(n) == patterns);
    }
}

impl PathFilter {
    /// What the filter says of `path`.
    pub fn verdict(&self, path: &str) -> (r: Verdict)
        ensures
            r == verdict(self.file_include@, self.file_exclude@, path@),
    {
        if first_matching(&self.file_include, path).is_none() {
            return Verdict::NotIncluded;
        }
        match first_matching(&self.file_exclude, path) {
            Some(i) => Verdict::Excluded(i),
            None => Verdict::Kept,
        }
    }

    /// Whether `path` is left alone: no include pattern matches it, or an
    /// exclude pattern does.
    pub fn is_ignored(&self, path: &str) -> (r: bool)
        ensures
            r == (verdict(self.file_include@, self.file_exclude@, path@) != Verdict::Kept),
            r == (!any_matches(self.file_include@, path@) || any_matches(
                self.file_exclude@,
                path@,
            )),
    {
        proof {
            law_first_match_iff_any(self.file_include@, path@);
            law_first_match_iff_any(self.file_exclude@, path@);
        }
        match self.verdict(path) {
            Verdict::Kept => false,
            _ => true,
        }
    }
}

/// There is a first match exactly when some pattern matches; it is the index
/// of a pattern that matches, and no pattern before it does.
pub proof fn law_first_match_iff_any(patterns: Seq<RegexString>, path: Seq<char>)
    ensures
        first_match(patterns, path) is Some <==> any_matches(patterns, path),
        first_match(patterns, path) matches Some(i) ==> {
            &&& 0 <= i < patterns.len()
            &&& regex_matches(patterns[i].pattern(), path)
            &&& forall|k: int| 0 <= k < i ==> !regex_matches((#[trigger] patterns[k]).pattern(), path)
        },
    decreases patterns.len(),
{
    if patterns.len() > 0 {
        let head = patterns.drop_last();
        law_first_match_iff_any(head, path);
        if any_matches(patterns, path) {
            let i = choose|i: int|
                0 <= i < patterns.len() && regex_matches((#[trigger] patterns[i]).pattern(), path);
            if i < head.len() {
                assert(head[i] == patterns[i]);
                assert(any_matches(head, path));
            }
        }
        match first_match(head, path) {
            Some(i) => {
                assert(head[i] == patterns[i]);
                assert forall|k: int| 0 <= k < i implies !regex_matches(
                    (#[trigger] patterns[k]).pattern(),
                    path,
                ) by {
                    assert(head[k] == patterns[k]);
                }
            },
            None => {
                assert forall|k: int| 0 <= k < head.len() implies !regex_matches(
                    (#[trigger] patterns[k]).pattern(),
                    path,
                ) by {
                    assert(head[k] == patterns[k]);
                }
            },
        }
    }
}

} // verus!
