use msg_line::line::Line;
use msg_line::render::Cell;
use msg_line::style::{irc_color_to_termbox, is_whitespace_char, to_dec, TB_BOLD};

#[test]
fn height_test_1() {
    let mut line = Line::new();
    line.add_text("a b c d e");
    assert_eq!(line.rendered_height(1), 5);
    assert_eq!(line.rendered_height(2), 5);
    assert_eq!(line.rendered_height(3), 3);
    assert_eq!(line.rendered_height(4), 3);
    assert_eq!(line.rendered_height(5), 2);
    assert_eq!(line.rendered_height(6), 2);
    assert_eq!(line.rendered_height(7), 2);
    assert_eq!(line.rendered_height(8), 2);
    assert_eq!(line.rendered_height(9), 1);
}

#[test]
fn height_test_2() {
    let mut line = Line::new();
    line.add_text("ab c d e");
    assert_eq!(line.rendered_height(1), 4);
    assert_eq!(line.rendered_height(2), 4);
    assert_eq!(line.rendered_height(3), 3);
    assert_eq!(line.rendered_height(4), 2);
    assert_eq!(line.rendered_height(5), 2);
    assert_eq!(line.rendered_height(6), 2);
    assert_eq!(line.rendered_height(7), 2);
    assert_eq!(line.rendered_height(8), 1);
}

#[test]
fn height_test_3() {
    let mut line = Line::new();
    line.add_text("ab cd e");
    assert_eq!(line.rendered_height(1), 3);
    assert_eq!(line.rendered_height(2), 3);
    assert_eq!(line.rendered_height(3), 3);
    assert_eq!(line.rendered_height(4), 2);
    assert_eq!(line.rendered_height(5), 2);
    assert_eq!(line.rendered_height(6), 2);
    assert_eq!(line.rendered_height(7), 1);
}

#[test]
fn height_test_4() {
    let mut line = Line::new();
    line.add_text("ab cde");
    assert_eq!(line.rendered_height(1), 2);
    assert_eq!(line.rendered_height(2), 2);
    assert_eq!(line.rendered_height(3), 2);
    assert_eq!(line.rendered_height(4), 2);
    assert_eq!(line.rendered_height(5), 2);
    assert_eq!(line.rendered_height(6), 1);
}

#[test]
fn height_test_5() {
    let mut line = Line::new();
    line.add_text("abcde");
    for i in 0..6 {
        assert_eq!(line.rendered_height(i), 1);
    }
}

#[test]
fn empty_line_is_one_row() {
    let line = Line::new();
    assert_eq!(line.len_chars(), 0);
    assert_eq!(line.rendered_height(1), 1);
    assert_eq!(line.rendered_height(80), 1);
    assert!(line.draw(0, 0, 10).is_empty());
}

#[test]
fn no_whitespace_is_one_row_at_every_width() {
    let mut line = Line::new();
    line.add_text("unbreakable");
    assert_eq!(line.len_chars(), 11);
    for w in 1..20 {
        assert_eq!(line.rendered_height(w), 1);
    }
}

#[test]
fn height_non_increasing_in_width() {
    let mut line = Line::new();
    line.add_text("the quick brown fox jumps over the lazy dog");
    let mut prev = line.rendered_height(1);
    for w in 2..50 {
        let h = line.rendered_height(w);
        assert!(h <= prev);
        prev = h;
    }
    assert_eq!(prev, 1);
}

#[test]
fn add_char_counts_whitespace_splits() {
    let mut line = Line::new();
    line.add_char('a');
    line.add_char(' ');
    line.add_char('b');
    assert_eq!(line.len_chars(), 3);
    assert_eq!(line.rendered_height(1), 2);
    assert_eq!(line.rendered_height(3), 1);
}

fn rendered_string(cells: &[Cell]) -> String {
    cells.iter().map(|c| c.ch).collect()
}

#[test]
fn round_trip_words_fit() {
    let mut line = Line::new();
    line.add_text("ab c d e");
    // width 4 wraps into "ab c" / "d e": the wrap elides one space
    let cells = line.draw(0, 0, 4);
    let text: String = rendered_string(&cells).chars().filter(|c| !c.is_whitespace()).collect();
    assert_eq!(text, "abcde");
    // wide enough: everything on one row, spaces included
    let cells = line.draw(0, 0, 8);
    assert_eq!(rendered_string(&cells), "ab c d e");
}

#[test]
fn forced_wrap_elides_whitespace() {
    let mut line = Line::new();
    line.add_text("ab cd");
    let cells = line.draw(0, 0, 2);
    // both words wrap; the space between them is never emitted
    assert_eq!(rendered_string(&cells), "abcd");
    assert!(cells.iter().all(|c| !c.ch.is_whitespace()));
    assert_eq!(cells[0].y, 0);
    assert_eq!(cells[2].y, 1);
}

#[test]
fn long_word_is_clipped_not_wrapped() {
    let mut line = Line::new();
    line.add_text("abcdef");
    assert_eq!(line.rendered_height(3), 1);
    let cells = line.draw(5, 7, 3);
    assert_eq!(rendered_string(&cells), "abc");
    for c in &cells {
        assert!(c.x >= 5 && c.x < 5 + 3);
        assert_eq!(c.y, 7);
    }
}

#[test]
fn clipped_tail_then_wrap_continues() {
    let mut line = Line::new();
    line.add_text("abcdef gh");
    // row 0 shows "abc" (def clipped), the space wraps, row 1 shows "gh"
    let cells = line.draw(0, 0, 3);
    assert_eq!(rendered_string(&cells), "abcgh");
    assert_eq!(cells[2].y, 0);
    assert_eq!(cells[3].y, 1);
    assert_eq!(cells[3].x, 0);
}

#[test]
fn first_line_skips_rows() {
    let mut line = Line::new();
    line.add_text("ab cd");
    assert_eq!(line.rendered_height(2), 2);
    let cells = line.draw_from(0, 10, 1, 2);
    // only the second row remains
    assert_eq!(rendered_string(&cells), "cd");
    assert!(cells.iter().all(|c| c.y == 11));
}

#[test]
fn first_line_at_height_renders_nothing() {
    let mut line = Line::new();
    line.add_text("ab cd");
    let h = line.rendered_height(2);
    assert_eq!(h, 2);
    assert!(line.draw_from(0, 0, h, 2).is_empty());
    assert!(line.draw_from(0, 0, h + 5, 2).is_empty());
}

#[test]
fn color_directive_sets_foreground_and_background() {
    let mut line = Line::new();
    line.add_text("\u{3}04,05x");
    assert_eq!(line.len_chars(), 1);
    let cells = line.draw(0, 0, 10);
    assert_eq!(cells.len(), 1);
    assert_eq!(cells[0].ch, 'x');
    assert_eq!(cells[0].fg, 9); // red
    assert_eq!(cells[0].bg, 88); // maroon
}

#[test]
fn color_directive_without_background_zeroes_it() {
    let mut line = Line::new();
    line.add_text("\u{3}01,02a\u{3}03b");
    let cells = line.draw(0, 0, 10);
    assert_eq!(rendered_string(&cells), "ab");
    assert_eq!(cells[0].fg, 0); // black
    assert_eq!(cells[0].bg, 17); // navy
    assert_eq!(cells[1].fg, 2); // green
    assert_eq!(cells[1].bg, 0); // no background given: reset to zero
}

#[test]
fn second_color_directive_replaces_the_first() {
    let mut line = Line::new();
    line.add_text("\u{3}04a\u{3}03b");
    let cells = line.draw(0, 0, 10);
    assert_eq!(rendered_string(&cells), "ab");
    assert_eq!(cells[0].fg, 9); // red
    assert_eq!(cells[1].fg, 2); // green, not red ORed with green
    assert_eq!(cells[1].bg, 0);
}

#[test]
fn color_directive_keeps_the_bold_bit() {
    let mut line = Line::new();
    line.add_text("\u{2}\u{3}04x");
    let cells = line.draw(0, 0, 10);
    assert_eq!(cells.len(), 1);
    assert_eq!(cells[0].fg, 9 | TB_BOLD); // red, still bold
}

#[test]
fn bold_directive_ors_the_bold_bit() {
    let mut line = Line::new();
    line.add_text("\u{3}04\u{2}x");
    let cells = line.draw(0, 0, 10);
    assert_eq!(cells.len(), 1);
    assert_eq!(cells[0].fg, 9 | TB_BOLD);
}

#[test]
fn reset_directive_restores_default_style() {
    let mut line = Line::new();
    line.add_text("\u{3}08,03hot\u{f}cool");
    let cells = line.draw(0, 0, 20);
    assert_eq!(rendered_string(&cells), "hotcool");
    for c in &cells[..3] {
        assert_eq!(c.fg, 11);
        assert_eq!(c.bg, 2);
    }
    for c in &cells[3..] {
        assert_eq!(c.fg, 0);
        assert_eq!(c.bg, 0);
    }
}

#[test]
fn native_color_directive_passes_raw_codes() {
    let mut line = Line::new();
    line.add_text("\u{0}ABx");
    assert_eq!(line.len_chars(), 1);
    let cells = line.draw(0, 0, 10);
    assert_eq!(cells.len(), 1);
    assert_eq!(cells[0].ch, 'x');
    assert_eq!(cells[0].fg, 'A' as u16);
    assert_eq!(cells[0].bg, 'B' as u16);
}

#[test]
fn truncated_directives_stop_ingestion() {
    let mut line = Line::new();
    line.add_text("ab\u{3}1");
    assert_eq!(line.len_chars(), 2);
    let mut line = Line::new();
    line.add_text("ab\u{3}12,3");
    assert_eq!(line.len_chars(), 2);
    let cells = line.draw(0, 0, 10);
    assert_eq!(rendered_string(&cells), "ab");
    let mut line = Line::new();
    line.add_text("ab\u{0}c");
    assert_eq!(line.len_chars(), 2);
}

#[test]
fn low_control_characters_are_discarded() {
    let mut line = Line::new();
    line.add_text("a\u{1}b\u{7}c");
    assert_eq!(line.len_chars(), 3);
    let cells = line.draw(0, 0, 10);
    assert_eq!(rendered_string(&cells), "abc");
}

#[test]
fn directives_do_not_affect_height() {
    let mut line = Line::new();
    line.add_text("\u{3}04ab \u{2}cd");
    assert_eq!(line.len_chars(), 5);
    assert_eq!(line.rendered_height(2), 2);
    assert_eq!(line.rendered_height(5), 1);
}

#[test]
fn incremental_appends_match_single_append() {
    let mut a = Line::new();
    a.add_text("ab ");
    a.add_text("cd e");
    let mut b = Line::new();
    b.add_text("ab cd e");
    assert_eq!(a.len_chars(), b.len_chars());
    for w in 1..10 {
        assert_eq!(a.rendered_height(w), b.rendered_height(w));
    }
    assert_eq!(a.draw(2, 3, 4), b.draw(2, 3, 4));
}

#[test]
fn to_dec_decodes_digits() {
    assert_eq!(to_dec('0'), 0);
    assert_eq!(to_dec('7'), 7);
    assert_eq!(to_dec('9'), 9);
}

#[test]
fn palette_table_and_passthrough() {
    assert_eq!(irc_color_to_termbox(0), 15);
    assert_eq!(irc_color_to_termbox(1), 0);
    assert_eq!(irc_color_to_termbox(5), 88);
    assert_eq!(irc_color_to_termbox(7), 130);
    assert_eq!(irc_color_to_termbox(15), 7);
    assert_eq!(irc_color_to_termbox(16), 16);
    assert_eq!(irc_color_to_termbox(42), 42);
    assert_eq!(irc_color_to_termbox(99), 99);
}

#[test]
fn whitespace_set_matches_unicode() {
    for c in ['a', '0', '-', '\u{0}', '\u{8}'] {
        assert!(!is_whitespace_char(c));
        assert_eq!(is_whitespace_char(c), c.is_whitespace());
    }
    for c in [' ', '\t', '\n', '\r', '\u{a0}', '\u{2003}', '\u{3000}'] {
        assert!(is_whitespace_char(c));
        assert_eq!(is_whitespace_char(c), c.is_whitespace());
    }
}
