//! Limits on texts.

use zcode::text::sink::OutputSink;
use zcode::text::tabs::expand_tabs;
use zcode::text::truncate::{
    cap_columns, enforce_inline_byte_cap, take_prefix_within, take_suffix_within, truncate_head,
    truncate_middle, truncate_tail, TruncateLimits,
};
use zcode::text::width::{truncate_to_width, visible_width};

fn limits(max_lines: usize, max_bytes: usize, max_columns: usize) -> TruncateLimits {
    TruncateLimits {
        max_lines,
        max_bytes,
        max_columns,
    }
}

#[test]
fn default_limits_match_upstream_constants() {
    let l = TruncateLimits::default();
    assert_eq!(l.max_lines, 3000);
    assert_eq!(l.max_bytes, 50_000);
    assert_eq!(l.max_columns, 512);
}

#[test]
fn truncate_head_keeps_everything_under_budget() {
    let input = "a\nb\nc\n";
    let result = truncate_head(input, &limits(10, 100, 80));
    assert_eq!(result.text, input);
    assert_eq!(result.dropped_lines, 0);
    assert_eq!(result.dropped_bytes, 0);
    assert!(!result.first_line_exceeds_limit);
}

#[test]
fn truncate_head_first_line_exceeds_budget_returns_empty_not_partial() {
    let input = "a".repeat(1000);
    let result = truncate_head(&input, &limits(100, 100, 80));
    assert_eq!(result.text, "");
    assert!(result.first_line_exceeds_limit);
    assert_eq!(result.dropped_lines, 1);
    assert_eq!(result.dropped_bytes, 1000);
}

#[test]
fn truncate_head_drops_whole_line_when_it_does_not_fit() {
    let input = "aa\nbbbbbbbb\ncc\n";
    let result = truncate_head(input, &limits(10, 3, 80));
    assert_eq!(result.text, "aa\n");
    assert!(!result.first_line_exceeds_limit);
    assert_eq!(result.dropped_lines, 2);
    assert_eq!(result.dropped_bytes, input.len() - 3);
}

#[test]
fn truncate_head_respects_max_lines() {
    let input = "1\n2\n3\n4\n5\n";
    let result = truncate_head(input, &limits(2, 1000, 80));
    assert_eq!(result.text, "1\n2\n");
    assert_eq!(result.dropped_lines, 3);
}

#[test]
fn truncate_tail_keeps_everything_under_budget() {
    let input = "a\nb\nc\n";
    let result = truncate_tail(input, &limits(10, 100, 80));
    assert_eq!(result.text, input);
    assert_eq!(result.dropped_lines, 0);
    assert_eq!(result.dropped_bytes, 0);
}

#[test]
fn truncate_tail_returns_partial_first_line_unlike_head() {
    let input = "a".repeat(1000);
    let head = truncate_head(&input, &limits(100, 100, 80));
    let tail = truncate_tail(&input, &limits(100, 100, 80));

    assert_eq!(head.text, "");
    assert!(head.first_line_exceeds_limit);

    assert_eq!(tail.text.len(), 100);
    assert!(tail.text.chars().all(|c| c == 'a'));
    assert!(!tail.first_line_exceeds_limit);
    assert_eq!(tail.dropped_bytes, 900);
}

#[test]
fn truncate_tail_respects_max_lines() {
    let input = "1\n2\n3\n4\n5\n";
    let result = truncate_tail(input, &limits(2, 1000, 80));
    assert_eq!(result.text, "4\n5\n");
    assert_eq!(result.dropped_lines, 3);
}

#[test]
fn truncate_tail_zero_byte_budget_is_empty() {
    let input = "line1\nline2\n";
    let result = truncate_tail(input, &limits(100, 0, 80));
    assert_eq!(result.text, "");
    assert_eq!(result.dropped_bytes, input.len());
}

#[test]
fn truncate_middle_degenerates_to_byte_caption_for_single_line() {
    let input = "x".repeat(500);
    let result = truncate_middle(&input, &limits(3000, 200, 80));
    assert!(result.text.len() <= 200);
    assert!(result.text.contains("省略"));
    assert_eq!(result.dropped_lines, 0);
}

#[test]
fn truncate_middle_keeps_short_single_line_unchanged() {
    let input = "short line, no newline";
    let result = truncate_middle(input, &limits(3000, 50_000, 80));
    assert_eq!(result.text, input);
    assert_eq!(result.dropped_bytes, 0);
}

#[test]
fn truncate_middle_general_case_has_head_marker_and_tail() {
    let mut input = String::new();
    for i in 0..100 {
        input.push_str(&format!("line{i}\n"));
    }
    let result = truncate_middle(&input, &limits(10, 1_000_000, 80));
    assert!(result.text.starts_with("line0\n"));
    assert!(result.text.trim_end().ends_with("line99"));
    assert!(result.text.contains('…'));
    assert!(result.dropped_lines > 0);
}

#[test]
fn enforce_inline_byte_cap_short_input_is_unchanged() {
    let input = "hello";
    assert_eq!(enforce_inline_byte_cap(input, 100), input);
}

#[test]
fn enforce_inline_byte_cap_exact_length_is_unchanged() {
    let input = "hello";
    assert_eq!(enforce_inline_byte_cap(input, input.len()), input);
}

#[test]
fn enforce_inline_byte_cap_never_exceeds_budget() {
    let inputs = ["", "x", "short", &"y".repeat(1000), &"z".repeat(1_000_000)];
    let budgets = [0usize, 1, 2, 3, 5, 10, 50, 200];
    for input in inputs {
        for &budget in &budgets {
            let capped = enforce_inline_byte_cap(input, budget);
            assert!(
                capped.len() <= budget,
                "input_len={} budget={budget} capped_len={}",
                input.len(),
                capped.len()
            );
        }
    }
}

#[test]
fn cap_columns_truncates_cjk_line_by_display_width_not_bytes() {
    let input = "中".repeat(50);
    let max_columns = 20;
    let result = cap_columns(&input, max_columns);
    let visible_width_of_result: usize = visible_width(&result);
    assert!(
        visible_width_of_result <= max_columns,
        "visible_width={visible_width_of_result}"
    );
    assert_ne!(result, input);
    assert!(result.len() < input.len());
}

#[test]
fn cap_columns_leaves_short_ascii_line_untouched() {
    let input = "hello\nworld\n";
    assert_eq!(cap_columns(input, 80), input);
}

#[test]
fn output_sink_single_ellipsis_across_chunk_boundary() {
    let max_columns = 5;
    let ellipsis_width = visible_width("…");
    let budget = max_columns - ellipsis_width;
    let source = "abcdefgh";
    let expected_prefix = take_prefix_within(source, budget);

    let mut sink = OutputSink::new(limits(100, 10_000, max_columns));
    sink.push(source);
    sink.push("ijkl\nmore");
    let result = sink.finish();

    assert_eq!(
        result.text.matches('…').count(),
        1,
        "text={:?}",
        result.text
    );
    assert!(
        result.text.starts_with(&format!("{expected_prefix}…\n")),
        "text={:?} expected_prefix={expected_prefix:?}",
        result.text
    );
    assert!(result.text.ends_with("more"));
}

#[test]
fn output_sink_ellipsis_count_independent_of_chunking() {
    let content = "0123456789 more text here\nsecond line\n";
    let l = limits(100, 10_000, 8);

    let mut whole = OutputSink::new(l);
    whole.push(content);
    let whole_result = whole.finish();

    let mut byte_by_byte = OutputSink::new(l);
    for byte in content.as_bytes() {
        let s = std::str::from_utf8(std::slice::from_ref(byte)).unwrap_or("");
        byte_by_byte.push(s);
    }
    let byte_result = byte_by_byte.finish();

    assert_eq!(whole_result.text, byte_result.text);
    assert_eq!(whole_result.dropped_lines, byte_result.dropped_lines);
    assert_eq!(whole_result.dropped_bytes, byte_result.dropped_bytes);
}

#[test]
fn output_sink_head_and_tail_windows_with_single_large_chunk() {
    let mut chunk = String::new();
    for i in 0..10 {
        chunk.push_str(&format!("line{i}\n"));
    }
    let mut sink = OutputSink::new(limits(3, 30, 1000));
    sink.push(&chunk);
    let result = sink.finish();

    assert!(result.text.starts_with("line0\n"));
    assert!(result.text.ends_with("line8\nline9\n"));
    assert_eq!(result.dropped_lines, 7);
    assert_eq!(result.dropped_bytes, 42);
}

#[test]
fn output_sink_reset_clears_all_state() {
    let mut sink = OutputSink::new(limits(100, 10_000, 80));
    sink.push("first line one\nsecond line\n");
    sink.reset();
    sink.push("second\n");
    let result = sink.finish();

    assert_eq!(result.text, "second\n");
    assert_eq!(result.dropped_lines, 0);
    assert_eq!(result.dropped_bytes, 0);
}

#[test]
fn output_sink_empty_input_produces_empty_result() {
    let sink = OutputSink::new(TruncateLimits::default());
    let result = sink.finish();
    assert_eq!(result.text, "");
    assert_eq!(result.dropped_lines, 0);
    assert_eq!(result.dropped_bytes, 0);
}

#[test]
fn output_sink_zero_columns_hides_content_without_ellipsis() {
    let mut sink = OutputSink::new(limits(100, 10_000, 0));
    sink.push("hello\n");
    let result = sink.finish();
    assert_eq!(result.text, "\n");
    assert!(!result.text.contains('…'));
}

#[test]
fn limits_of_one_text_hold_for_another() {
    // Nothing of what was kept is more than allowed, whatever the text.
    for n in 0..60usize {
        let input = "ab\n".repeat(n);
        let kept = truncate_head(&input, &limits(7, 20, 80));
        assert!(kept.text.len() <= 20);
        assert!(kept.text.lines().count() <= 7);
        assert_eq!(kept.text.len() + kept.dropped_bytes, input.len());
        let last = truncate_tail(&input, &limits(7, 20, 80));
        assert!(last.text.len() <= 20);
        assert!(input.ends_with(&last.text));
        assert_eq!(last.text.len() + last.dropped_bytes, input.len());
    }
}

#[test]
fn pieces_of_a_stream_do_not_matter() {
    let content = "alpha beta\n中文行 with width\nshort\n\nlast line without end";
    let l = limits(3, 25, 9);
    let mut whole = OutputSink::new(l);
    whole.push(content);
    let want = whole.finish();
    let mut pieces = OutputSink::new(l);
    for c in content.chars() {
        pieces.push(&c.to_string());
    }
    assert_eq!(pieces.finish(), want);
}

#[test]
fn suffix_within_budget_keeps_characters_whole() {
    assert_eq!(take_suffix_within("a中文", 4), "文");
    assert_eq!(take_suffix_within("a中文", 6), "中文");
    assert_eq!(take_prefix_within("中文a", 5), "中");
    assert_eq!(take_prefix_within("中文a", 100), "中文a");
}

#[test]
fn widths_count_columns_and_not_control_sequences() {
    assert_eq!(visible_width("abc"), 3);
    assert_eq!(visible_width("中文"), 4);
    assert_eq!(visible_width("\u{1b}[31mred\u{1b}[0m"), 3);
    assert_eq!(truncate_to_width("abcdef", 4, "…"), "abc…");
    assert_eq!(truncate_to_width("abcd", 4, "…"), "abcd");
}

#[test]
fn tabs_reach_the_next_stop() {
    assert_eq!(expand_tabs("a\tb"), "a       b");
    assert_eq!(expand_tabs("12345678\tb"), "12345678        b");
    assert_eq!(expand_tabs("no tabs\n"), "no tabs\n");
}

#[test]
fn no_line_is_wider_than_the_limit() {
    let text = "short\n一二三四五六七八九十\n\u{1b}[31mred and much too long for it\u{1b}[0m";
    for max in [0, 1, 2, 7, 40] {
        for line in cap_columns(text, max).lines() {
            assert!(visible_width(line) <= max, "{max}: {line:?}");
        }
    }
}

#[test]
fn what_a_stream_keeps_stays_within_the_limits() {
    let limits = TruncateLimits { max_lines: 6, max_bytes: 60, max_columns: 20 };
    let mut sink = OutputSink::new(limits);
    for i in 0..200 {
        sink.push(&format!("line {i}\n"));
    }
    let kept = sink.finish();
    assert!(kept.text.starts_with("line 0\n"), "{}", kept.text);
    assert!(kept.text.ends_with("line 199\n"), "{}", kept.text);
    assert_eq!(kept.dropped_lines, 194);
    assert!(kept.text.lines().filter(|l| l.starts_with("line ")).count() <= 6);
}

#[test]
fn cutting_lines_keeps_their_breaks_and_is_done_once() {
    let text = "short\n\na line that is too long\nend\n";
    let once = cap_columns(text, 6);
    assert_eq!(once, "short\n\na lin…\nend\n");
    assert_eq!(cap_columns(&once, 6), once);
    assert_eq!(cap_columns("no break at the end", 4), "no …");
    assert_eq!(cap_columns("\n\n", 0), "\n\n");
}
