use unparser_shared::refine::anchor::assign_section_anchors;
use unparser_shared::refine::frontmatter::normalize;
use unparser_shared::refine::roundtrip::{parse, serialize};
use unparser_shared::refine::table::{recover_missing_separators, widen_with_marks, MarkKind, TableMark};

#[test]
fn recovery_only_inserts_whole_delimiter_rows() {
    let input = "intro\n\n| a | b |\n| 1 | 2 |\n| 3 | 4 |\n\nafter\n";
    let output = recover_missing_separators(input);
    assert_eq!(output, "intro\n\n| a | b |\n| --- | --- |\n| 1 | 2 |\n| 3 | 4 |\n\nafter\n");
    let kept: String = output
        .split_inclusive('\n')
        .filter(|l| l.trim_end() != "| --- | --- |")
        .collect();
    assert_eq!(kept, input);
}

#[test]
fn recovery_is_idempotent_on_mixed_content() {
    for input in [
        "| a | b |\n| 1 | 2 |\n",
        "| a | b |\r\n| 1 | 2 |\r\n| 3 | 4 |",
        "```\n| a | b |\n| 1 | 2 |\n```\n\n| x | y |\n| 5 | 6 |\n",
        "para\n| a | b |\n| 1 | 2 |\n\n| c | d |\n| --- | --- |\n| 7 | 8 |\n",
        "",
        "no tables here\n",
    ] {
        let once = recover_missing_separators(input);
        assert_eq!(recover_missing_separators(&once), once, "not idempotent on {input:?}");
    }
}

#[test]
fn anchoring_keeps_every_text_span() {
    let once = serialize(&assign_section_anchors(parse("# A `b` c\n\nsome [link](x) text\n"))).unwrap();
    assert_eq!(once, "# A `b` c { #a-b-c }\n\nsome [link](x) text");
}

#[test]
fn normalizing_twice_changes_nothing_more() {
    let block = "---\ntitle:   x\ntags:\n  - a\n  - a\n  - b\ntitle: x\n---\n";
    let once = normalize(block);
    assert_eq!(once, "---\ntitle: x\ntags:\n  - a\n  - b\n---\n");
    assert_eq!(normalize(&once), once);
}

#[test]
fn widening_keeps_a_header_cell_holding_an_escaped_pipe() {
    let input = "| a \\| x | b |\n| --- | --- |\n| 1 | 2 | 3 |\n";
    let output = unparser_shared::refine::table::widen_ragged_tables(input);
    assert_eq!(output, "| a \\| x | b |  |\n| --- | --- | --- |\n| 1 | 2 | 3 |\n");
}

#[test]
fn widening_follows_the_table_events_it_is_given() {
    let content = "| a | b |\n| --- | --- |\n| 1 | 2 | 3 |\n";
    let marks = vec![
        TableMark { kind: MarkKind::TableStart(2), start: 0, end: 38 },
        TableMark { kind: MarkKind::TableHead, start: 0, end: 10 },
        TableMark { kind: MarkKind::Other, start: 2, end: 3 },
        TableMark { kind: MarkKind::TableRow, start: 24, end: 38 },
        TableMark { kind: MarkKind::TableEnd, start: 0, end: 38 },
    ];
    assert_eq!(
        widen_with_marks(content, &marks),
        "| a | b |  |\n| --- | --- | --- |\n| 1 | 2 | 3 |\n"
    );
    let narrow = vec![
        TableMark { kind: MarkKind::TableStart(3), start: 0, end: 38 },
        TableMark { kind: MarkKind::TableHead, start: 0, end: 10 },
        TableMark { kind: MarkKind::TableRow, start: 24, end: 38 },
        TableMark { kind: MarkKind::TableEnd, start: 0, end: 38 },
    ];
    assert_eq!(widen_with_marks(content, &narrow), content);
    assert_eq!(widen_with_marks(content, &Vec::new()), content);
}
