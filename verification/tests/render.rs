use mindtask::cli::render::{
    desc_block, desc_text, hard_wrap, wrap_block, render_table, render_table_with_blocks, resolve_wrap_width,
    truncate, wrap_width_for, wrap_words, DescMode, MIN_WRAP_WIDTH,
};
use mindtask::model::project::Project;

#[test]
fn hard_wrap_short_text_unchanged() {
    assert_eq!(hard_wrap("hello", 80), "hello");
}

#[test]
fn hard_wrap_breaks_at_column_limit_mid_word() {
    assert_eq!(hard_wrap("abcdefghij", 4), "abcd\nefgh\nij");
}

#[test]
fn hard_wrap_preserves_existing_newlines() {
    assert_eq!(hard_wrap("ab\ncd", 80), "ab\ncd");
}

#[test]
fn hard_wrap_preserves_blank_lines() {
    assert_eq!(hard_wrap("a\n\nb", 80), "a\n\nb");
}

#[test]
fn hard_wrap_wraps_each_source_line_independently() {
    assert_eq!(hard_wrap("abcd\nefgh", 2), "ab\ncd\nef\ngh");
}

#[test]
fn hard_wrap_is_char_boundary_safe() {
    let wrapped = hard_wrap("ééé", 2);
    assert_eq!(wrapped, "éé\né");
    let counts: Vec<usize> = wrapped.lines().map(|l| l.chars().count()).collect();
    assert_eq!(counts, vec![2, 1]);
}

#[test]
fn hard_wrap_width_zero_counts_as_one() {
    assert_eq!(hard_wrap("abc", 0), "a\nb\nc");
}

#[test]
fn resolve_wrap_width_prefers_config() {
    let mut p = Project::new();
    p.wrap_width = Some(33);
    assert_eq!(resolve_wrap_width(&p), 33);
}

#[test]
fn resolve_wrap_width_clamps_config_to_minimum() {
    let mut p = Project::new();
    p.wrap_width = Some(1);
    assert_eq!(resolve_wrap_width(&p), MIN_WRAP_WIDTH);
}

#[test]
fn wrap_width_falls_back_to_terminal_then_default() {
    let p = Project::new();
    assert_eq!(wrap_width_for(&p, Some(120)), 120);
    assert_eq!(wrap_width_for(&p, Some(3)), 3);
    let mut q = Project::new();
    q.wrap_width = Some(50);
    assert_eq!(wrap_width_for(&q, Some(120)), 50);
    assert_eq!(wrap_width_for(&p, None), 80);
}

#[test]
fn truncate_keeps_short_and_exact() {
    assert_eq!(truncate("abc", 5), "abc");
    assert_eq!(truncate("abcde", 5), "abcde");
}

#[test]
fn truncate_adds_ellipsis_and_is_char_safe() {
    assert_eq!(truncate("abcdef", 4), "abc…");
    assert_eq!(truncate("abc", 1), "…");
    assert_eq!(truncate("abc", 0), "");
    assert_eq!(truncate("ééééé", 3).chars().count(), 3);
}

#[test]
fn render_table_sizes_columns_to_content() {
    let rows = vec![
        vec!["1".to_string(), "short".to_string()],
        vec!["20".to_string(), "longer name".to_string()],
    ];
    let out = render_table(&["ID", "NAME"], &rows, Some(1), 200);
    let lines: Vec<&str> = out.lines().collect();
    assert_eq!(lines[0], "ID  NAME");
    assert_eq!(lines[1], "1   short");
    assert_eq!(lines[2], "20  longer name");
}

#[test]
fn render_table_shrinks_flex_column_to_budget() {
    let rows = vec![vec!["1".to_string(), "abcdefghijklmnop".to_string()]];
    let out = render_table(&["ID", "NAME"], &rows, Some(1), 10);
    let name = out.lines().nth(1).unwrap();
    assert!(name.ends_with("abcdefg…"), "got: {name}");
}

#[test]
fn render_table_no_trailing_whitespace_on_empty_last_cell() {
    let rows = vec![vec!["x".to_string(), String::new()]];
    let out = render_table(&["A", "B"], &rows, None, 200);
    let row = out.lines().nth(1).unwrap();
    assert_eq!(row, "x");
}

#[test]
fn wrap_words_breaks_on_whitespace() {
    assert_eq!(wrap_words("alpha beta gamma", 11), "alpha beta\ngamma");
}

#[test]
fn wrap_words_never_leaves_trailing_space() {
    let wrapped = wrap_words("aaa bbb ccc ddd", 7);
    assert!(wrapped.lines().all(|l| l == l.trim_end()), "got: {wrapped:?}");
}

#[test]
fn wrap_words_hard_splits_a_token_too_long_to_fit() {
    assert_eq!(wrap_words("ab abcdefghij", 4), "ab\nabcd\nefgh\nij");
}

#[test]
fn wrap_words_preserves_blank_lines() {
    assert_eq!(wrap_words("a\n\nb", 80), "a\n\nb");
}

#[test]
fn wrap_words_never_exceeds_width() {
    let text = "short 10.0.7.200/24 (ip neigh FAILED, no reply) supercalifragilistic";
    for w in 4..40 {
        assert!(
            wrap_words(text, w).lines().all(|l| l.chars().count() <= w),
            "width {w} overflowed"
        );
    }
}

#[test]
fn desc_text_none_renders_nothing() {
    assert_eq!(desc_text("anything", DescMode::Omit, 40), None);
}

#[test]
fn desc_short_is_one_line_with_balanced_brackets() {
    let out = desc_text("a description far longer than the budget", DescMode::Short, 20).unwrap();
    assert_eq!(out.lines().count(), 1);
    assert!(out.starts_with('[') && out.ends_with(']'), "got: {out}");
    assert!(out.chars().count() <= 20, "got: {out}");
}

#[test]
fn desc_full_wraps_and_keeps_the_whole_text() {
    let out = desc_text("alpha beta gamma delta", DescMode::Full, 12).unwrap();
    assert!(out.lines().count() > 1, "expected a wrapped block: {out}");
    assert!(out.replace('\n', " ").contains("delta"));
}

#[test]
fn desc_block_indents_every_line_and_fits_the_width() {
    let out = desc_block("alpha beta gamma delta epsilon", DescMode::Full, 5, 24).unwrap();
    assert!(out.lines().all(|l| l.starts_with("     ")), "got: {out}");
    assert!(out.lines().all(|l| l.chars().count() <= 24), "got: {out}");
}

#[test]
fn desc_mode_parses_known_values_and_rejects_others() {
    assert_eq!("short".parse::<DescMode>(), Ok(DescMode::Short));
    assert_eq!("full".parse::<DescMode>(), Ok(DescMode::Full));
    assert!("nope".parse::<DescMode>().is_err());
}

#[test]
fn desc_mode_error_names_the_accepted_values() {
    assert_eq!(
        "nope".parse::<DescMode>().unwrap_err(),
        "invalid description mode 'nope': expected 'short' or 'full'"
    );
}

#[test]
fn table_blocks_print_beneath_their_row() {
    let rows = vec![
        vec!["1".to_string(), "first".to_string()],
        vec!["2".to_string(), "second".to_string()],
    ];
    let blocks = vec![None, Some("     [note]".to_string())];
    let out = render_table_with_blocks(&["ID", "NAME"], &rows, &blocks, Some(1), 200);
    let lines: Vec<&str> = out.lines().collect();
    assert_eq!(lines[1], "1   first");
    assert_eq!(lines[2], "2   second");
    assert_eq!(lines[3], "     [note]");
}

#[test]
fn table_blocks_do_not_disturb_column_widths() {
    let rows = vec![vec!["1".to_string(), "x".to_string()]];
    let with = render_table_with_blocks(&["ID", "NAME"], &rows, &[Some("     block".to_string())], Some(1), 200);
    let without = render_table(&["ID", "NAME"], &rows, Some(1), 200);
    assert_eq!(with.lines().next(), without.lines().next());
    assert_eq!(with.lines().nth(1), without.lines().nth(1));
}

#[test]
fn table_tolerates_a_blocks_slice_shorter_than_the_rows() {
    let rows = vec![
        vec!["1".to_string(), "a".to_string()],
        vec!["2".to_string(), "b".to_string()],
    ];
    let out = render_table_with_blocks(&["ID", "NAME"], &rows, &[], Some(1), 200);
    assert_eq!(out.lines().count(), 3);
}

fn solid(s: &str) -> String {
    s.chars().filter(|c| !c.is_whitespace()).collect()
}

#[test]
fn wrapping_keeps_every_non_space_character() {
    let text = "alpha beta\n  gammadeltaepsilon zeta\n\neta";
    for width in [1usize, 3, 5, 8, 80] {
        assert_eq!(solid(&wrap_words(text, width)), solid(text));
    }
}

#[test]
fn block_lines_start_with_the_indent_and_fit() {
    let b = wrap_block("one two three four five six seven", 4, 14);
    for line in b.lines() {
        assert!(line.starts_with("    "), "line: {line:?}");
        assert!(line.chars().count() <= 14, "line: {line:?}");
    }
    let d = desc_block("a longer description that wraps", DescMode::Full, 2, 12).unwrap();
    for line in d.lines() {
        assert!(line.starts_with("  "), "line: {line:?}");
        assert!(line.chars().count() <= 12, "line: {line:?}");
    }
}

#[test]
fn blocks_do_not_change_the_rows() {
    let rows = vec![
        vec!["1".to_string(), "first".to_string()],
        vec!["2".to_string(), "second".to_string()],
    ];
    let plain = render_table(&["ID", "NAME"], &rows, Some(1), 80);
    let blocks = vec![Some("  a wide block of text that is longer than any column".to_string()), None];
    let with = render_table_with_blocks(&["ID", "NAME"], &rows, &blocks, Some(1), 80);
    let plain_lines: Vec<&str> = plain.lines().collect();
    let with_lines: Vec<&str> = with.lines().collect();
    assert_eq!(with_lines.len(), plain_lines.len() + 1);
    assert_eq!(with_lines[0], plain_lines[0]);
    assert_eq!(with_lines[1], plain_lines[1]);
    assert_eq!(with_lines[2], "  a wide block of text that is longer than any column");
    assert_eq!(with_lines[3], plain_lines[2]);
}

#[test]
fn wrapping_a_text_is_wrapping_each_line() {
    let text = "alpha beta gamma\ndelta epsilon\n\nzeta";
    for width in [3usize, 6, 12] {
        let per_line: Vec<String> = text.split('\n').map(|l| wrap_words(l, width)).collect();
        assert_eq!(wrap_words(text, width), per_line.join("\n"));
    }
}

#[test]
fn blocks_sit_between_the_plain_table_lines() {
    let rows = vec![
        vec!["1".to_string(), "first".to_string()],
        vec!["2".to_string(), "second".to_string()],
        vec!["3".to_string(), "third".to_string()],
    ];
    let base: Vec<String> = render_table(&["ID", "NAME"], &rows, Some(1), 80).split('\n').map(String::from).collect();
    let blocks = vec![None, Some("  b1\n  b1 more".to_string())];
    let with = render_table_with_blocks(&["ID", "NAME"], &rows, &blocks, Some(1), 80);
    let expected = vec![
        base[0].clone(),
        base[1].clone(),
        base[2].clone(),
        "  b1\n  b1 more".to_string(),
        base[3].clone(),
    ]
    .join("\n");
    assert_eq!(with, expected);
}
