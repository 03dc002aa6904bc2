use unparser_shared::refine::frontmatter::{extract, normalize};
use unparser_shared::refine::roundtrip::round_trip;
use unparser_shared::refine::table::{recover_missing_separators, widen_ragged_tables};
use unparser_shared::refine::{refine, RefineOptions};

// ---- refine ----

#[test]
fn round_trips_plain_markdown() {
    let options = RefineOptions::default();
    assert_eq!(refine("hello world\n", &options), "hello world");
}

#[test]
fn preserves_frontmatter_verbatim() {
    let options = RefineOptions::default();
    let input = "---\ntitle: x\n---\n\nhello\n";
    let output = refine(input, &options);
    assert!(
        output.starts_with("---\ntitle: x\n---\n"),
        "frontmatter not preserved verbatim: {output:?}"
    );
}

#[test]
fn drops_an_exact_duplicate_frontmatter_entry() {
    let options = RefineOptions::default();
    let input = "---\ntitle: \"x\"\ntitle: \"x\"\n---\n\nhello\n";
    let output = refine(input, &options);
    assert_eq!(
        output.matches("title:").count(),
        1,
        "exact duplicate entry not deduped: {output:?}"
    );
}

#[test]
fn keeps_a_same_key_entry_with_a_different_value() {
    let options = RefineOptions::default();
    let input = "---\ntitle: \"x\"\ntitle: \"y\"\n---\n\nhello\n";
    let output = refine(input, &options);
    assert!(
        output.contains("\"x\"") && output.contains("\"y\""),
        "a non-duplicate value was dropped: {output:?}"
    );
}

#[test]
fn assigns_a_section_anchor_to_a_heading() {
    let options = RefineOptions::default();
    let output = refine("# Getting Started\n", &options);
    assert!(
        output.contains("{ #getting-started }"),
        "no anchor assigned: {output:?}"
    );
}

#[test]
fn round_trips_a_table() {
    let options = RefineOptions::default();
    let input = "| a | b |\n| --- | --- |\n| 1 | 2 |\n";
    let output = refine(input, &options);
    for token in ["a", "b", "1", "2"] {
        assert!(output.contains(token), "missing {token:?} in {output:?}");
    }
}

#[test]
fn recovers_a_table_missing_its_separator_row() {
    let options = RefineOptions::default();
    let input = "| a | b |\n| 1 | 2 |\n";
    let output = refine(input, &options);
    assert!(
        !output.contains(r"\|"),
        "pipes were escaped, meaning the block was not recognized as a table: {output:?}"
    );
    for token in ["a", "b", "1", "2"] {
        assert!(output.contains(token), "missing {token:?} in {output:?}");
    }
}

#[test]
fn preserves_a_row_wider_than_the_header_by_widening_it() {
    let options = RefineOptions::default();
    let input = "| a | b |\n| --- | --- |\n| 1 | 2 | hello |\n";
    let output = refine(input, &options);
    assert!(output.contains("hello"), "excess cell was lost: {output:?}");
}

#[test]
fn pads_a_short_data_row_with_an_empty_cell() {
    let options = RefineOptions::default();
    let input = "| a | b | c |\n| --- | --- | --- |\n| 1 | 2 |\n";
    let output = refine(input, &options);
    let data_row = output
        .lines()
        .find(|line| line.contains('1'))
        .expect("data row present");
    assert_eq!(
        data_row.matches('|').count(),
        4,
        "expected a padded 3-cell row (4 pipes): {data_row:?}"
    );
}

// ---- frontmatter ----

#[test]
fn extracts_frontmatter_and_remainder() {
    let input = "---\ntitle: x\n---\n\n# Heading\n";
    let (fm, rest) = extract(input);
    assert_eq!(fm.as_deref(), Some("---\ntitle: x\n---\n"));
    assert_eq!(rest, "# Heading\n");
}

#[test]
fn no_frontmatter_returns_input_unchanged() {
    let input = "# Heading\nbody\n";
    let (fm, rest) = extract(input);
    assert_eq!((fm.as_deref(), rest.as_str()), (None, input));
}

#[test]
fn unterminated_frontmatter_is_not_extracted() {
    let input = "---\ntitle: x\nbody\n";
    let (fm, rest) = extract(input);
    assert_eq!((fm.as_deref(), rest.as_str()), (None, input));
}

#[test]
fn accepts_dots_closing_delimiter() {
    let input = "---\ntitle: x\n...\nbody\n";
    let (fm, rest) = extract(input);
    assert_eq!(fm.as_deref(), Some("---\ntitle: x\n...\n"));
    assert_eq!(rest, "body\n");
}

#[test]
fn tolerates_leading_blank_lines() {
    let input = "\n\n---\ntitle: x\n---\nbody\n";
    let (fm, rest) = extract(input);
    assert_eq!(fm.as_deref(), Some("---\ntitle: x\n---\n"));
    assert_eq!(rest, "body\n");
}

#[test]
fn dashes_inside_body_do_not_close_early() {
    let input = "---\ntitle: \"a --- b\"\n---\nbody\n";
    let (fm, rest) = extract(input);
    assert_eq!(fm.as_deref(), Some("---\ntitle: \"a --- b\"\n---\n"));
    assert_eq!(rest, "body\n");
}

#[test]
fn normalize_leaves_an_already_canonical_block_unchanged() {
    let block = "---\ntitle: \"x\"\nauthor: \"y\"\n---\n";
    assert_eq!(normalize(block), block);
}

#[test]
fn normalize_canonicalizes_colon_spacing() {
    assert_eq!(
        normalize("---\ntitle  :\"x\"\n---\n"),
        "---\ntitle: \"x\"\n---\n"
    );
}

#[test]
fn normalize_drops_an_exact_duplicate_entry() {
    assert_eq!(
        normalize("---\ntitle: \"x\"\ntitle: \"x\"\n---\n"),
        "---\ntitle: \"x\"\n---\n"
    );
}

#[test]
fn normalize_keeps_a_same_key_entry_with_a_different_value() {
    let block = "---\ntitle: \"x\"\ntitle: \"y\"\n---\n";
    assert_eq!(normalize(block), block);
}

#[test]
fn normalize_preserves_authored_key_order() {
    let block = "---\ntitle: \"x\"\nauthor: \"y\"\n---\n";
    assert_eq!(normalize(block), block);
}

#[test]
fn normalize_round_trips_a_block_sequence() {
    let block = "---\ntags:\n  - \"a\"\n  - \"b\"\n---\n";
    assert_eq!(normalize(block), block);
}

#[test]
fn normalize_drops_an_exact_duplicate_list_item() {
    assert_eq!(
        normalize("---\ntags:\n  - \"a\"\n  - \"a\"\n  - \"b\"\n---\n"),
        "---\ntags:\n  - \"a\"\n  - \"b\"\n---\n"
    );
}

#[test]
fn normalize_is_idempotent_on_a_mixed_block() {
    let block = "---\ntitle:\"x\"\ntitle: \"x\"\ntags:\n  - \"a\"\n  - \"a\"\n---\n";
    let once = normalize(block);
    let twice = normalize(&once);
    assert_eq!(once, twice);
}

#[test]
fn normalize_falls_back_on_a_blank_line_inside_the_block() {
    let block = "---\ntitle: \"x\"\n\nauthor: \"y\"\n---\n";
    assert_eq!(normalize(block), block);
}

#[test]
fn normalize_falls_back_on_an_unrecognized_bare_key() {
    let block = "---\nkey:\nnext: \"x\"\n---\n";
    assert_eq!(normalize(block), block);
}

// ---- round trip ----

#[test]
fn round_trip_preserves_plain_text() {
    assert_eq!(round_trip("hello world").unwrap(), "hello world");
}

#[test]
fn round_trip_preserves_table_cells() {
    let input = "| a | b |\n| --- | --- |\n| 1 | 2 |\n";
    let output = round_trip(input).unwrap();
    for token in ["a", "b", "1", "2"] {
        assert!(output.contains(token), "missing {token:?} in {output:?}");
    }
}

#[test]
fn round_trip_of_empty_content_is_empty() {
    assert_eq!(round_trip("").unwrap(), "");
}

#[test]
fn renumbers_an_out_of_order_ordered_list_sequentially() {
    let output = round_trip("1. a\n5. b\n3. c\n").unwrap();
    assert_eq!(output, "1. a\n2. b\n3. c");
}

#[test]
fn renumbers_a_same_number_ordered_list_sequentially() {
    let output = round_trip("1. a\n1. b\n1. c\n").unwrap();
    assert_eq!(output, "1. a\n2. b\n3. c");
}

#[test]
fn preserves_an_already_sequential_lists_start_value() {
    let output = round_trip("5. a\n6. b\n7. c\n").unwrap();
    assert_eq!(output, "5. a\n6. b\n7. c");
}

#[test]
fn numbers_a_nested_ordered_list_independently_of_its_parent() {
    let output = round_trip("1. a\n   1. x\n   3. y\n2. b\n").unwrap();
    assert_eq!(output, "1. a\n   1. x\n   2. y\n2. b");
}

// ---- table ----

#[test]
fn inserts_separator_between_header_and_data_row() {
    let input = "| a | b |\n| 1 | 2 |\n";
    let output = recover_missing_separators(input);
    assert_eq!(output, "| a | b |\n| --- | --- |\n| 1 | 2 |\n");
}

#[test]
fn leaves_a_well_formed_table_untouched() {
    let input = "| a | b |\n| --- | --- |\n| 1 | 2 |\n";
    assert_eq!(recover_missing_separators(input), input);
}

#[test]
fn does_not_touch_pipes_inside_a_fenced_code_block() {
    let input = "```\n| not | a | table |\n| still | not |\n```\n";
    assert_eq!(recover_missing_separators(input), input);
}

#[test]
fn ignores_a_lone_pipe_row_with_no_matching_second_row() {
    let input = "| a | b |\nplain text\n";
    assert_eq!(recover_missing_separators(input), input);
}

#[test]
fn ignores_single_column_rows() {
    let input = "| a |\n| 1 |\n";
    assert_eq!(recover_missing_separators(input), input);
}

#[test]
fn requires_matching_cell_counts_to_fire() {
    let input = "| a | b |\n| 1 | 2 | 3 |\n";
    assert_eq!(recover_missing_separators(input), input);
}

#[test]
fn recovers_a_multi_row_table_body_in_one_pass() {
    let input = "| a | b |\n| 1 | 2 |\n| 3 | 4 |\n";
    let output = recover_missing_separators(input);
    assert_eq!(output, "| a | b |\n| --- | --- |\n| 1 | 2 |\n| 3 | 4 |\n");
}

#[test]
fn preserves_crlf_line_endings_in_the_synthetic_row() {
    let input = "| a | b |\r\n| 1 | 2 |\r\n";
    let output = recover_missing_separators(input);
    assert_eq!(output, "| a | b |\r\n| --- | --- |\r\n| 1 | 2 |\r\n");
}

#[test]
fn does_not_re_insert_a_separator_inside_an_already_well_formed_multi_row_table() {
    let input = "| a | b |\n| --- | --- |\n| 1 | 2 |\n| 3 | 4 |\n";
    assert_eq!(recover_missing_separators(input), input);
}

#[test]
fn is_idempotent_on_output_it_just_recovered() {
    let input = "| a | b |\n| 1 | 2 |\n| 3 | 4 |\n";
    let once = recover_missing_separators(input);
    let twice = recover_missing_separators(&once);
    assert_eq!(once, twice);
}

#[test]
fn does_not_fire_on_pipe_rows_lazily_continuing_a_list_item() {
    let input = "- hello\n| hello | hello |\n| hello | hello |\n";
    assert_eq!(recover_missing_separators(input), input);
}

#[test]
fn fires_after_a_blank_line_following_other_content() {
    let input = "- hello\n\n| a | b |\n| 1 | 2 |\n";
    let output = recover_missing_separators(input);
    assert_eq!(output, "- hello\n\n| a | b |\n| --- | --- |\n| 1 | 2 |\n");
}

#[test]
fn does_not_fire_on_lines_carrying_an_escaped_pipe() {
    let input = "# hello\n\n\\| hello | hello |\n\\| hello | hello |\n";
    assert_eq!(recover_missing_separators(input), input);
}

#[test]
fn counts_cells_correctly_when_content_has_an_escaped_pipe() {
    let input = "| a\\|b | c |\n| --- | --- |\n| 1 | 2 |\n";
    assert_eq!(recover_missing_separators(input), input);
}

#[test]
fn widen_ragged_tables_expands_header_and_separator() {
    let input = "| a | b |\n| --- | --- |\n| 1 | 2 | hello |\n";
    let output = widen_ragged_tables(input);
    assert_eq!(
        output,
        "| a | b |  |\n| --- | --- | --- |\n| 1 | 2 | hello |\n"
    );
}

#[test]
fn widen_ragged_tables_leaves_non_ragged_tables_untouched() {
    let input = "| a | b |\n| --- | --- |\n| 1 | 2 |\n";
    assert_eq!(widen_ragged_tables(input), input);
}

#[test]
fn widen_ragged_tables_recognizes_a_table_interrupting_a_paragraph() {
    let input = "para\n| a | b |\n| --- | --- |\n| 1 | 2 | hello |\n";
    let output = widen_ragged_tables(input);
    assert!(output.contains("hello"), "excess cell lost: {output:?}");
}

#[test]
fn widen_ragged_tables_leaves_a_list_items_lazy_text_alone() {
    let input = "- x\n| a | b |\n| --- | --- |\n| 1 | 2 | hello |\n";
    assert_eq!(widen_ragged_tables(input), input);
}

#[test]
fn widen_ragged_tables_is_idempotent() {
    let input = "| a | b |\n| --- | --- |\n| 1 | 2 | hello |\n";
    let once = widen_ragged_tables(input);
    let twice = widen_ragged_tables(&once);
    assert_eq!(once, twice);
}
