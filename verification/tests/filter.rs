use anki_tex::filter::{PathFilter, RegexString, Verdict};

fn patterns(sources: &[&str]) -> Vec<RegexString> {
    sources
        .iter()
        .map(|s| RegexString::new(String::from(*s)).unwrap())
        .collect()
}

fn filter(included: &[&str], excluded: &[&str]) -> PathFilter {
    PathFilter { file_include: patterns(included), file_exclude: patterns(excluded) }
}

#[test]
fn pattern_keeps_its_source() {
    let pattern = RegexString::new(String::from(r".*\.tex$")).unwrap();
    assert_eq!(pattern.as_str(), r".*\.tex$");
}

#[test]
fn invalid_pattern_is_refused() {
    let invalid = RegexString::new(String::from("(unclosed")).unwrap_err();
    assert_eq!(invalid.pattern, "(unclosed");
    assert!(!invalid.reason.is_empty());
    assert_ne!(invalid.reason, invalid.pattern);
}

#[test]
fn path_is_kept_when_included_and_not_excluded() {
    let f = filter(&[r"\.tex$"], &[r"^draft/"]);
    assert_eq!(f.verdict("notes/anki.tex"), Verdict::Kept);
    assert!(!f.is_ignored("notes/anki.tex"));
}

#[test]
fn path_that_no_pattern_includes_is_ignored() {
    let f = filter(&[r"\.tex$"], &[r"^draft/"]);
    assert_eq!(f.verdict("notes/anki.md"), Verdict::NotIncluded);
    assert!(f.is_ignored("notes/anki.md"));
    // the path is not the pattern: a filter that compared texts would keep this
    assert!(f.is_ignored(r"\.tex$"));
}

#[test]
fn excluded_path_is_ignored() {
    let f = filter(&[r"\.tex$", r"\.sty$"], &[r"^tmp/", r"^draft/", r"draft"]);
    assert_eq!(f.verdict("draft/anki.tex"), Verdict::Excluded(1));
    assert_eq!(f.verdict("old/draft.sty"), Verdict::Excluded(2));
    assert!(f.is_ignored("draft/anki.tex"));
    assert_eq!(f.verdict("draft/anki.md"), Verdict::NotIncluded);
}

#[test]
fn filter_without_include_patterns_ignores_everything() {
    let f = filter(&[], &[]);
    assert_eq!(f.verdict("anki.tex"), Verdict::NotIncluded);
    assert!(f.is_ignored("anki.tex"));
    assert!(f.is_ignored(""));
}

#[test]
fn pattern_matches_anywhere_in_the_path() {
    let f = filter(&["anki"], &[]);
    assert!(!f.is_ignored("my/anki/file"));
    assert!(f.is_ignored("my/ank/file"));
    let all = filter(&[""], &[]);
    assert!(!all.is_ignored("anything"));
}
