use unparser_shared::refine::anchor::{assign_section_anchors, github_slug, unique_slug, SlugTable};
use unparser_shared::refine::link::{normalize, normalize_link_destinations};
use unparser_shared::refine::roundtrip::{parse, serialize};

fn anchored(input: &str) -> String {
    serialize(&assign_section_anchors(parse(input))).unwrap()
}

fn linked(input: &str) -> String {
    serialize(&normalize_link_destinations(parse(input))).unwrap()
}

// ---- section anchors ----

#[test]
fn assigns_a_slug_to_a_plain_heading() {
    assert_eq!(anchored("# Overview\n"), "# Overview { #overview }");
}

#[test]
fn lowercases_and_hyphenates_a_multi_word_heading() {
    assert_eq!(
        anchored("## Getting Started\n"),
        "## Getting Started { #getting-started }"
    );
}

#[test]
fn preserves_non_ascii_letters_in_the_slug() {
    assert_eq!(anchored("# 한글 제목\n"), "# 한글 제목 { #한글-제목 }");
}

#[test]
fn drops_punctuation_the_bare_slug_form_forbids() {
    assert_eq!(anchored("# What's New?\n"), "# What's New? { #whats-new }");
}

#[test]
fn disambiguates_repeated_headings() {
    let output = anchored("# Notes\n\ntext\n\n# Notes\n");
    assert!(output.contains("# Notes { #notes }"));
    assert!(output.contains("# Notes { #notes-1 }"));
}

#[test]
fn leaves_a_heading_that_already_has_an_id_alone() {
    let input = "# Custom {#my-id}\n";
    assert_eq!(anchored(input), "# Custom { #my-id }");
}

#[test]
fn a_second_pass_is_a_no_op() {
    let once = anchored("# Overview\n\n## Overview\n");
    let twice = serialize(&assign_section_anchors(parse(&once))).unwrap();
    assert_eq!(once, twice);
}

#[test]
fn leaves_non_heading_text_untouched() {
    let output = anchored("just some text\n");
    assert_eq!(output, "just some text");
}

#[test]
fn a_heading_with_no_sluggable_text_falls_back_to_section() {
    assert_eq!(anchored("# ???\n"), "# ??? { #section }");
}

#[test]
fn github_slug_keeps_letters_digits_underscores_and_hyphens() {
    assert_eq!(github_slug("A_b-C 1.2!"), "a_b-c-12");
    assert_eq!(github_slug(""), "");
}

#[test]
fn unique_slug_counts_repeats_of_a_base() {
    let mut seen = SlugTable::new();
    assert_eq!(unique_slug("Notes", &mut seen), "notes");
    assert_eq!(unique_slug("Notes", &mut seen), "notes-1");
    assert_eq!(unique_slug("notes", &mut seen), "notes-2");
    assert_eq!(unique_slug("!!", &mut seen), "section");
    assert_eq!(unique_slug("", &mut seen), "section-1");
}

#[test]
fn a_heading_of_dashes_falls_back_to_section() {
    let mut seen = SlugTable::new();
    assert_eq!(unique_slug("---", &mut seen), "section");
    assert_eq!(unique_slug("_-_", &mut seen), "section-1");
    assert_eq!(unique_slug("a-b", &mut seen), "a-b");
}

// ---- link and image destinations ----

#[test]
fn converts_backslashes_to_forward_slashes() {
    let output = linked(r"[text](my\folder\file.png)");
    assert_eq!(output, "[text](my/folder/file.png)");
}

#[test]
fn collapses_duplicate_slashes() {
    let output = linked("[text](folder//sub///file.png)");
    assert_eq!(output, "[text](folder/sub/file.png)");
}

#[test]
fn normalizes_image_destinations_too() {
    let output = linked(r"![alt](my\folder\img.png)");
    assert_eq!(output, "![alt](my/folder/img.png)");
}

#[test]
fn leaves_a_real_url_untouched() {
    let input = "[text](https://example.com//path)";
    assert_eq!(linked(input), input);
}

#[test]
fn leaves_a_protocol_relative_reference_untouched() {
    let input = "[text](//example.com/path)";
    assert_eq!(linked(input), input);
}

#[test]
fn leaves_an_already_clean_relative_path_untouched() {
    let input = "[text](folder/file.png)";
    assert_eq!(linked(input), input);
}

#[test]
fn leaves_non_link_text_untouched() {
    let output = linked("just some text");
    assert_eq!(output, "just some text");
}

#[test]
fn destination_normalization_is_idempotent() {
    for url in [r"a\\b//c", "x///y", r"C:\dir\\file", "//host/p", "s://a//b", ""] {
        let once = normalize(url);
        assert_eq!(normalize(&once), once, "not idempotent on {url:?}");
    }
}

#[test]
fn normalize_turns_a_backslash_colon_slash_into_a_single_slash() {
    assert_eq!(normalize(r"a:\/b"), "a:/b");
    assert_eq!(normalize("https://x//y"), "https://x//y");
}
