use ascii_art::{ASCIIWriter, Color, Point, StyleAttr};

fn plain_style(scale: usize) -> StyleAttr {
    StyleAttr::new(Color::rgb(0, 0, 0), 1, None, 0, scale)
}

fn filled_style(fill: Color, scale: usize) -> StyleAttr {
    StyleAttr::new(Color::rgb(0, 0, 0), 1, Some(fill), 0, scale)
}

#[test]
fn rect_outline_exact_plain() {
    let mut w = ASCIIWriter::new_with_terminal_setting(false);
    w.draw_rect(Point::new(0, 0), Point::new(4, 3), &plain_style(1), None, None);
    assert_eq!(w.finalize(), "+--+\n|  |\n+--+\n");
}

#[test]
fn rect_fill_then_outline_in_terminal() {
    let mut w = ASCIIWriter::new_with_color_setting(true, false);
    w.draw_rect(Point::new(0, 0), Point::new(3, 3), &filled_style(Color::rgb(255, 0, 0), 1), None, None);
    assert_eq!(w.finalize(), "+-+\n|█|\n+-+\n");
}

#[test]
fn rect_colored_runs() {
    let mut w = ASCIIWriter::new_with_color_setting(true, true);
    w.draw_rect(Point::new(0, 0), Point::new(3, 3), &filled_style(Color::rgb(255, 0, 0), 1), None, None);
    assert_eq!(w.finalize(), "+-+\n|\x1b[31m█\x1b[0m|\n+-+\n");
}

#[test]
fn rect_scenario_colored_and_plain() {
    let style = filled_style(Color::rgb(255, 0, 0), 14);
    let mut colored = ASCIIWriter::new_with_color_setting(true, true);
    colored.draw_rect(Point::new(0, 0), Point::new(56, 56), &style, None, None);
    let out = colored.finalize();
    assert!(out.contains('█'));
    assert!(out.contains("\x1b[31m"));
    assert!(out.contains("\x1b[0m"));
    let mut mono = ASCIIWriter::new_with_color_setting(true, false);
    mono.draw_rect(Point::new(0, 0), Point::new(56, 56), &style, None, None);
    assert!(!mono.finalize().contains('\x1b'));
    let mut file = ASCIIWriter::new_with_terminal_setting(false);
    file.draw_rect(Point::new(0, 0), Point::new(56, 56), &style, None, None);
    let out = file.finalize();
    assert!(!out.contains('█'));
    assert!(out.contains('+'));
    assert_eq!(out, "+--+\n|  |\n|  |\n+--+\n");
}

#[test]
fn empty_rect_draws_nothing() {
    let mut w = ASCIIWriter::new_with_terminal_setting(true);
    w.draw_rect(Point::new(5, 5), Point::new(0, 30), &filled_style(Color::rgb(255, 0, 0), 1), None, None);
    w.draw_rect(Point::new(5, 5), Point::new(30, -4), &filled_style(Color::rgb(255, 0, 0), 1), None, None);
    assert_eq!(w.finalize(), "");
}

#[test]
fn narrow_rect_has_only_corners() {
    let mut w = ASCIIWriter::new_with_terminal_setting(false);
    w.draw_rect(Point::new(0, 0), Point::new(2, 2), &plain_style(1), None, None);
    assert_eq!(w.finalize(), "++\n++\n");
}

#[test]
fn negative_positions_are_dropped() {
    let mut w = ASCIIWriter::new_with_terminal_setting(false);
    w.draw_rect(Point::new(-1, -1), Point::new(3, 3), &plain_style(1), None, None);
    assert_eq!(w.finalize(), " |\n-+\n");
}

#[test]
fn rounding_half_away_from_zero() {
    let mut w = ASCIIWriter::new_with_terminal_setting(false);
    // 3 / 2 = 1.5 rounds to 2
    w.draw_text(Point::new(3, 0), "x", &plain_style(2));
    assert_eq!(w.finalize(), "  x\n");
}

#[test]
fn horizontal_line() {
    let mut w = ASCIIWriter::new_with_terminal_setting(false);
    w.draw_line(Point::new(0, 0), Point::new(3, 0), &plain_style(1), None);
    assert_eq!(w.finalize(), "----\n");
}

#[test]
fn vertical_line() {
    let mut w = ASCIIWriter::new_with_terminal_setting(false);
    w.draw_line(Point::new(1, 2), Point::new(1, 0), &plain_style(1), None);
    assert_eq!(w.finalize(), " |\n |\n |\n");
}

#[test]
fn diagonal_lines() {
    let mut w = ASCIIWriter::new_with_terminal_setting(false);
    w.draw_line(Point::new(0, 0), Point::new(2, 2), &plain_style(1), None);
    assert_eq!(w.finalize(), "\\\n \\\n  \\\n");
    let mut w = ASCIIWriter::new_with_terminal_setting(false);
    w.draw_line(Point::new(0, 2), Point::new(2, 0), &plain_style(1), None);
    assert_eq!(w.finalize(), "  /\n /\n/\n");
}

#[test]
fn shallow_line_is_dashes_and_connected() {
    let mut w = ASCIIWriter::new_with_terminal_setting(false);
    // slope 1/4 is under 22.5 degrees
    w.draw_line(Point::new(0, 0), Point::new(4, 1), &plain_style(1), None);
    let out = w.finalize();
    assert_eq!(out.matches('-').count(), 5);
    assert_eq!(out, "--\n  ---\n");
}

#[test]
fn steep_line_is_bars() {
    let mut w = ASCIIWriter::new_with_terminal_setting(false);
    // slope 3 is over 67.5 degrees
    w.draw_line(Point::new(0, 0), Point::new(1, 3), &plain_style(1), None);
    let out = w.finalize();
    assert_eq!(out.matches('|').count(), 4);
}

#[test]
fn small_circle_is_a_dot() {
    let mut w = ASCIIWriter::new_with_terminal_setting(false);
    w.draw_circle(Point::new(1, 1), Point::new(2, 2), &plain_style(1), None);
    assert_eq!(w.finalize(), "\n o\n");
}

#[test]
fn circle_outline_shape() {
    let mut w = ASCIIWriter::new_with_terminal_setting(false);
    w.draw_circle(Point::new(2, 2), Point::new(4, 4), &plain_style(1), None);
    assert_eq!(w.finalize(), "/___\\\n|   |\n|   |\n|   |\n\\___/\n");
}

#[test]
fn circle_fill_scenario_is_symmetric() {
    let mut w = ASCIIWriter::new_with_color_setting(true, false);
    let style = filled_style(Color::rgb(0, 128, 0), 14);
    w.draw_circle(Point::new(14, 14), Point::new(28, 28), &style, None);
    let out = w.finalize();
    assert_eq!(out, " ●\n●o●\n ●\n");
    let mut filled: Vec<(i64, i64)> = Vec::new();
    for (y, r) in out.lines().enumerate() {
        for (x, ch) in r.chars().enumerate() {
            if ch == '●' {
                filled.push((x as i64, y as i64));
            }
        }
    }
    // the centre (14, 14) at scale 14 is cell (1, 1)
    for &(x, y) in &filled {
        assert!(filled.contains(&(2 - x, y)) || (2 - x, y) == (1, 1));
        assert!(filled.contains(&(x, 2 - y)) || (x, 2 - y) == (1, 1));
    }
}

#[test]
fn circle_fill_in_color() {
    let mut w = ASCIIWriter::new_with_color_setting(true, true);
    let style = filled_style(Color::rgb(0, 0, 255), 14);
    w.draw_circle(Point::new(14, 14), Point::new(28, 28), &style, None);
    let out = w.finalize();
    assert_eq!(
        out,
        " \x1b[34m●\x1b[0m\n\x1b[34m●\x1b[0mo\x1b[34m●\x1b[0m\n \x1b[34m●\x1b[0m\n"
    );
}

#[test]
fn text_is_centred() {
    let mut w = ASCIIWriter::new_with_terminal_setting(false);
    w.draw_text(Point::new(4, 1), "ab\ncde\r\nf", &plain_style(1));
    assert_eq!(w.finalize(), "   ab\n   cde\n    f\n");
}

#[test]
fn empty_text_writes_nothing_visible() {
    let mut w = ASCIIWriter::new_with_terminal_setting(false);
    w.draw_text(Point::new(4, 1), "", &plain_style(1));
    assert_eq!(w.finalize(), "");
}

#[test]
fn arrow_with_heads_and_label() {
    let mut w = ASCIIWriter::new_with_terminal_setting(false);
    let path = [
        (Point::new(0, 0), Point::new(0, 0)),
        (Point::new(4, 0), Point::new(4, 0)),
    ];
    w.draw_arrow(&path, false, (true, true), &plain_style(1), None, "");
    assert_eq!(w.finalize(), ">***>\n");
}

#[test]
fn dashed_arrow_downward_with_label() {
    let mut w = ASCIIWriter::new_with_terminal_setting(false);
    let path = [
        (Point::new(0, 0), Point::new(0, 0)),
        (Point::new(0, 2), Point::new(0, 2)),
    ];
    w.draw_arrow(&path, true, (false, true), &plain_style(1), None, "L");
    assert_eq!(w.finalize(), ".\n.\nL\n");
}

#[test]
fn empty_arrow_draws_nothing() {
    let mut w = ASCIIWriter::new_with_terminal_setting(false);
    w.draw_arrow(&[], false, (true, true), &plain_style(1), None, "label");
    assert_eq!(w.finalize(), "");
}

#[test]
fn clips_are_recorded_only() {
    let mut w = ASCIIWriter::new_with_terminal_setting(false);
    assert_eq!(w.create_clip(Point::new(0, 0), Point::new(1, 1), 0), 0);
    assert_eq!(w.create_clip(Point::new(0, 0), Point::new(1, 1), 3), 1);
    w.draw_rect(Point::new(0, 0), Point::new(3, 2), &plain_style(1), None, Some(0));
    assert_eq!(w.finalize(), "+-+\n+-+\n");
}

#[test]
fn finalize_twice_is_identical() {
    let mut w = ASCIIWriter::new_with_color_setting(true, true);
    w.draw_rect(Point::new(0, 0), Point::new(5, 4), &filled_style(Color::rgb(255, 255, 0), 1), None, None);
    let a = w.finalize();
    let b = w.finalize();
    assert_eq!(a, b);
    assert!(a.contains("\x1b[33m"));
}

#[test]
fn no_trailing_blanks_in_either_mode() {
    for colors in [false, true] {
        let mut w = ASCIIWriter::new_with_color_setting(true, colors);
        w.draw_text(Point::new(3, 0), "a b ", &plain_style(1));
        w.draw_rect(Point::new(0, 2), Point::new(6, 3), &filled_style(Color::rgb(0, 255, 255), 1), None, None);
        let out = w.finalize();
        for line in out.lines() {
            assert!(!line.ends_with(' '), "{:?}", line);
        }
    }
}

#[test]
fn palette_buckets() {
    let cases = [
        (Color::rgb(255, 0, 0), "31"),
        (Color::rgb(0, 255, 0), "32"),
        (Color::rgb(0, 0, 255), "34"),
        (Color::rgb(255, 255, 0), "33"),
        (Color::rgb(255, 0, 255), "35"),
        (Color::rgb(0, 255, 255), "36"),
        (Color::rgb(255, 255, 255), "37"),
        (Color::rgb(10, 10, 10), "30"),
        (Color::rgb(128, 128, 128), "37"),
    ];
    for (c, code) in cases {
        let mut w = ASCIIWriter::new_with_color_setting(true, true);
        w.draw_rect(Point::new(0, 0), Point::new(3, 3), &filled_style(c, 1), None, None);
        let out = w.finalize();
        assert!(out.contains(&format!("\x1b[{}m", code)), "{:?}", out);
    }
}

#[test]
fn default_writer_starts_empty() {
    let w = ASCIIWriter::default();
    assert_eq!(w.finalize(), "");
    assert_eq!(w.uses_colors(), w.is_terminal());
}

#[test]
fn arrow_heads_follow_direction() {
    let mut w = ASCIIWriter::new_with_terminal_setting(false);
    let path = [
        (Point::new(4, 0), Point::new(4, 0)),
        (Point::new(0, 0), Point::new(0, 0)),
    ];
    w.draw_arrow(&path, false, (true, true), &plain_style(1), None, "");
    // the start head takes the direction from the first anchor to the second
    assert_eq!(w.finalize(), "<***<\n");
    let mut w = ASCIIWriter::new_with_terminal_setting(false);
    let path = [
        (Point::new(0, 2), Point::new(0, 2)),
        (Point::new(0, 0), Point::new(0, 0)),
    ];
    w.draw_arrow(&path, false, (false, true), &plain_style(1), None, "");
    assert_eq!(w.finalize(), "^\n*\n*\n");
}
