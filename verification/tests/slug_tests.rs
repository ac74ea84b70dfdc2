use mdsycx::SlugState;

#[test]
fn check_slug() {
    let mut state = SlugState::default();
    assert_eq!(state.slugify("Hello World"), "hello-world");
    assert_eq!(state.slugify("Hello World"), "hello-world-2");
    assert_eq!(state.slugify("hello world"), "hello-world-3");
    assert_eq!(state.slugify("hello-world"), "hello-world-4");
    assert_eq!(state.slugify("hello world!"), "hello-world-5");

    assert_eq!(state.slugify("Goodbye World"), "goodbye-world");
}

#[test]
fn slug_trims_dashes() {
    let mut state = SlugState::new();
    assert_eq!(state.slugify("--Spaced  Out--"), "spaced--out");
    assert_eq!(state.slugify("!!!"), "");
    assert_eq!(state.slugify("???"), "-2");
}

#[test]
fn slug_keeps_digits() {
    let mut state = SlugState::new();
    assert_eq!(state.slugify("Chapter 12, part 3"), "chapter-12--part-3");
}

#[test]
fn slug_unicode_lowercase_reaching_ascii() {
    // The Kelvin sign lower-cases to the ASCII letter `k`, and the dotted
    // capital I to `i` plus a combining dot; everything else non-ASCII
    // lower-cases outside ASCII and becomes `-`.
    let mut state = SlugState::new();
    assert_eq!(state.slugify("\u{212A}"), "k");
    assert_eq!(state.slugify("a\u{130}b"), "ai-b");
    assert_eq!(state.slugify("\u{130}"), "i");
    assert_eq!(state.slugify("caf\u{E9}"), "caf");
}

#[test]
fn slug_counts_per_base() {
    let mut state = SlugState::new();
    assert_eq!(state.slugify("a"), "a");
    assert_eq!(state.slugify("b"), "b");
    assert_eq!(state.slugify("a"), "a-2");
    assert_eq!(state.slugify("b"), "b-2");
    assert_eq!(state.slugify("a"), "a-3");
}
