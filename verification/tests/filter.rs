//! Filters and their patterns.

use cp2::filter::{glob, has_wildcards, pattern_matches, FilterSet};

fn chars(s: &str) -> Vec<char> {
    s.chars().collect()
}

fn set(excludes: &[&str], includes: &[&str]) -> FilterSet {
    FilterSet {
        excludes: excludes
            .iter()
            .map(std::string::ToString::to_string)
            .collect(),
        includes: includes
            .iter()
            .map(std::string::ToString::to_string)
            .collect(),
    }
}

#[test]
fn inactive_passes_everything() {
    let f = FilterSet::default();
    assert!(f.passes("a/b/c.txt"));
}

#[test]
fn basename_pattern_matches_at_any_depth() {
    let f = set(&["*.tmp"], &[]);
    assert!(!f.passes("a.tmp"));
    assert!(!f.passes("sub/b.tmp"));
    assert!(f.passes("sub/b.txt"));
}

#[test]
fn question_mark_matches_single_char() {
    let f = set(&["?x"], &[]);
    assert!(!f.passes("ax"));
    assert!(f.passes("aax"));
}

#[test]
fn anchored_pattern_is_root_only() {
    let f = set(&["/build"], &[]);
    assert!(!f.passes("build"));
    assert!(!f.passes("build/x.rs"));
    assert!(f.passes("sub/build"));
}

#[test]
fn slashed_pattern_matches_at_any_depth() {
    let f = set(&["src/*.rs"], &[]);
    assert!(!f.passes("src/main.rs"));
    assert!(!f.passes("a/b/src/main.rs"));
    assert!(f.passes("src/main.c"));
}

#[test]
fn includes_override_excludes() {
    let f = set(&["*.tmp"], &["keep.tmp"]);
    assert!(!f.passes("other.tmp"));
    assert!(f.passes("keep.tmp"));
    assert!(f.passes("other.txt"));
}

#[test]
fn wildcard_matches_across_slashes() {
    let f = set(&["**/generated"], &[]);
    assert!(!f.passes("generated"));
    assert!(!f.passes("a/generated"));
    assert!(!f.passes("a/b/generated"));
    assert!(f.passes("a/b/keep"));
}

#[test]
fn glob_star_backtracking_edge_cases() {
    // The greedy `*` backtracking must be exact for the `*`/`?` language.
    for (pat, text) in [
        ("a*b", "ab"),        // star matches empty
        ("a*b", "axxb"),      // star matches a run
        ("*a", "ba"),         // leading star
        ("a*", "a"),          // trailing star, empty run
        ("*a*", "ba"),        // two stars, one empty
        ("*a*b*", "xaybz"),   // alternating
        ("a*b*c", "abc"),     // adjacent stars
        ("*?", "x"),          // star then literal
        ("*a?b*", "zzaybzz"), // star + ? + literal + star
    ] {
        assert!(glob(&chars(pat), &chars(text)), "{pat} ~ {text}");
    }
    for (pat, text) in [
        ("a*c", "ab"),     // no room for the tail
        ("*?", ""),        // `?` needs a character
        ("?x", "xy"),      // `?` consumed the first char, literal must follow
        ("a*b", "ba"),     // order matters
        ("ab", "abc"),     // full match only
        ("ab", "aab"),     // full match only
    ] {
        assert!(!glob(&chars(pat), &chars(text)), "{pat} !~ {text}");
    }
}

#[test]
fn question_mark_stands_for_one_character_not_one_byte() {
    let f = set(&["?x"], &[]);
    assert!(!f.passes("\u{e9}x"));
    assert!(!f.passes("\u{4e2d}x"));
}

#[test]
fn star_in_the_text_is_an_ordinary_character() {
    // The pattern's star still matches more than the star in the text.
    assert!(glob(&chars("*b"), &chars("*ab")));
    assert!(glob(&chars("a*c"), &chars("a*bc")));
    assert!(!glob(&chars("a*c"), &chars("a*b")));
}

#[test]
fn only_the_two_wildcards_are_wildcards() {
    assert!(has_wildcards(&chars("a*")));
    assert!(has_wildcards(&chars("a?")));
    assert!(!has_wildcards(&chars("a[b]")));
}

#[test]
fn slashes_at_the_ends_only_anchor() {
    assert!(pattern_matches("build/", "a/build", "build"));
    assert!(!pattern_matches("build/", "build/x.o", "x.o"));
    assert!(pattern_matches("/build/", "build/x.o", "x.o"));
    assert!(!pattern_matches("/build", "builder/x.o", "x.o"));
    assert!(!pattern_matches("/", "x", "x"));
}

#[test]
fn active_only_with_patterns() {
    assert!(!FilterSet::default().is_active());
    assert!(set(&["x"], &[]).is_active());
    assert!(set(&[], &["x"]).is_active());
}
