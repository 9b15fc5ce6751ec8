//! Behaviour of the shared code-masking scanner.

use tinyhivemind::masking::{code_ranges, fenced_ranges, is_masked};

#[test]
fn a_fence_indented_four_spaces_does_not_open_a_block() {
    let indented = "   ```\n@alice\n```\n";
    assert_eq!(fenced_ranges(indented), vec![(0, indented.len())]);

    let over_indented = "    ```\n@alice\n```\n";
    assert_eq!(fenced_ranges(over_indented), vec![(15, over_indented.len())]);
}

#[test]
fn a_backtick_opener_carrying_a_backtick_in_its_info_string_is_not_a_fence() {
    let body = "```a`b\ncontent\n```\n";
    assert_eq!(fenced_ranges(body), vec![(15, 19)]);
}

#[test]
fn a_tilde_opener_may_carry_a_backtick_in_its_info_string() {
    let body = "~~~a`b\ncontent\n~~~\n";
    assert_eq!(fenced_ranges(body), vec![(0, 19)]);
}

#[test]
fn a_closing_fence_must_run_at_least_as_long_as_the_opener() {
    let body = "````\n```\ncontent\n````\n";
    assert_eq!(fenced_ranges(body), vec![(0, 22)]);
}

#[test]
fn a_closing_fence_carries_nothing_after_its_run() {
    let body = "```\nhidden\n```rust\nstill hidden\n```\n";
    assert_eq!(fenced_ranges(body), vec![(0, body.len())]);
}

#[test]
fn a_tilde_fence_does_not_close_a_backtick_fence() {
    assert_eq!(fenced_ranges("```\n~~~\ncontent\n```\n"), vec![(0, 20)]);
    assert_eq!(fenced_ranges("~~~\n```\ncontent\n~~~\n"), vec![(0, 20)]);
}

#[test]
fn an_unterminated_fence_masks_to_the_end_of_the_body() {
    assert_eq!(fenced_ranges("```\n@alice"), vec![(0, 10)]);
    assert_eq!(fenced_ranges("~~~\n@alice"), vec![(0, 10)]);
}

#[test]
fn an_inline_span_is_masked_by_code_ranges_but_not_by_fenced_ranges() {
    let body = "`@alice` @bob";
    assert_eq!(fenced_ranges(body), Vec::new());
    assert_eq!(code_ranges(body), vec![(0, 8)]);
}

#[test]
fn an_unclosed_inline_tick_masks_nothing() {
    assert_eq!(code_ranges("` text @alice"), Vec::new());
}

#[test]
fn a_backtick_inside_a_fenced_block_does_not_open_an_inline_span() {
    let body = "```\n` code\n```\n@alice `";
    assert_eq!(code_ranges(body), vec![(0, 15)]);
}

#[test]
fn a_masked_range_covers_its_start_but_not_its_end() {
    let ranges = [(2, 5)];
    assert!(!is_masked(1, &ranges));
    assert!(is_masked(2, &ranges));
    assert!(is_masked(4, &ranges));
    assert!(!is_masked(5, &ranges));
}

// ---------------------------------------------------------------------------
// Further cases.
// ---------------------------------------------------------------------------

#[test]
fn documented_examples_hold() {
    assert_eq!(code_ranges("`@alice` @bob"), vec![(0, 8)]);
    let masked = code_ranges("`@alice` @bob");
    assert!(is_masked(1, &masked));
    assert!(!is_masked(9, &masked));
    let body = "```\nhidden\n```rust\nalso hidden\n```\n";
    assert_eq!(fenced_ranges(body), vec![(0, body.len())]);
}

#[test]
fn an_empty_body_masks_nothing() {
    assert_eq!(fenced_ranges(""), Vec::new());
    assert_eq!(code_ranges(""), Vec::new());
}

#[test]
fn ranges_are_byte_offsets_of_multibyte_text() {
    // "é" takes two bytes, so the span after it starts at byte 3.
    let body = "é `x` ok";
    assert_eq!(code_ranges(body), vec![(3, 6)]);
    let fenced = "é\n```\nß\n```\n";
    assert_eq!(fenced_ranges(fenced), vec![(3, fenced.len())]);
}

#[test]
fn a_closing_fence_may_trail_unicode_white_space() {
    // U+3000 is white space, so this line still closes the block.
    let body = "```\ncode\n```\u{3000}\nafter";
    assert_eq!(fenced_ranges(body), vec![(0, 16)]);
}

#[test]
fn an_inline_span_closes_only_on_a_run_of_its_own_length() {
    let body = "``a`b`` c";
    assert_eq!(code_ranges(body), vec![(0, 7)]);
    assert_eq!(code_ranges("``a` x"), Vec::new());
}

#[test]
fn fenced_blocks_and_spans_interleave_in_order() {
    let body = "`a` x\n```\nb\n```\n`c`";
    assert_eq!(code_ranges(body), vec![(0, 3), (6, 16), (16, 19)]);
    assert_eq!(fenced_ranges(body), vec![(6, 16)]);
}

#[test]
fn a_fenced_range_starts_and_ends_on_line_boundaries() {
    let body = "intro\n```\ncode\n```\nafter";
    let ranges = fenced_ranges(body);
    assert_eq!(ranges, vec![(6, 19)]);
    let bytes = body.as_bytes();
    for (start, end) in ranges {
        assert!(start == 0 || bytes[start - 1] == b'\n');
        assert!(end == bytes.len() || bytes[end - 1] == b'\n');
    }
    let wide = "é\n~~~\nx\n~~~";
    assert_eq!(fenced_ranges(wide), vec![(3, wide.len())]);
}
