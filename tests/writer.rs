use ascii_art::{ASCIIWriter, Color, Point, StyleAttr};

fn style_with_fill(fill: Color) -> StyleAttr {
    StyleAttr::new(Color::rgb(0, 0, 0), 2, Some(fill), 0, 14)
}

fn red() -> Color {
    Color::rgb(255, 0, 0)
}

fn green() -> Color {
    Color::rgb(0, 128, 0)
}

#[test]
fn test_terminal_vs_non_terminal_fill() {
    let mut terminal_writer = ASCIIWriter::new_with_terminal_setting(true);
    let style = style_with_fill(red());
    terminal_writer.draw_rect(Point::new(0, 0), Point::new(56, 56), &style, None, None);
    let terminal_output = terminal_writer.finalize();
    assert!(
        terminal_output.contains('█'),
        "Terminal output should contain fill characters: {}",
        terminal_output
    );

    let mut non_terminal_writer = ASCIIWriter::new_with_terminal_setting(false);
    non_terminal_writer.draw_rect(Point::new(0, 0), Point::new(56, 56), &style, None, None);
    let non_terminal_output = non_terminal_writer.finalize();
    assert!(
        !non_terminal_output.contains('█'),
        "Non-terminal output should not contain fill characters: {}",
        non_terminal_output
    );
    assert!(
        non_terminal_output.contains('+'),
        "Non-terminal output should still contain outline"
    );
}

#[test]
fn test_color_settings() {
    let mut writer = ASCIIWriter::new_with_color_setting(true, false);
    assert!(writer.is_terminal());
    assert!(!writer.uses_colors());

    writer.set_use_colors(true);
    assert!(writer.uses_colors());

    let mut non_terminal_writer = ASCIIWriter::new_with_terminal_setting(false);
    non_terminal_writer.set_use_colors(true);
    assert!(!non_terminal_writer.uses_colors());
}

#[test]
fn test_circle_terminal_behavior() {
    let mut terminal_writer = ASCIIWriter::new_with_terminal_setting(true);
    let style = style_with_fill(green());
    terminal_writer.draw_circle(Point::new(14, 14), Point::new(28, 28), &style, None);
    let terminal_output = terminal_writer.finalize();
    assert!(
        terminal_output.contains('●'),
        "Terminal output should contain fill characters for circles"
    );

    let mut non_terminal_writer = ASCIIWriter::new_with_terminal_setting(false);
    non_terminal_writer.draw_circle(Point::new(14, 14), Point::new(28, 28), &style, None);
    let non_terminal_output = non_terminal_writer.finalize();
    assert!(
        !non_terminal_output.contains('●'),
        "Non-terminal output should not contain fill characters for circles"
    );
    assert!(
        non_terminal_output.contains('o'),
        "Non-terminal output should still contain circle outline"
    );
}

#[test]
fn test_terminal_color_output() {
    let mut terminal_writer = ASCIIWriter::new_with_color_setting(true, true);
    let style = style_with_fill(red());
    terminal_writer.draw_rect(Point::new(0, 0), Point::new(56, 56), &style, None, None);
    let colored_output = terminal_writer.finalize();
    assert!(
        colored_output.contains("\x1b[31m"),
        "Terminal color output should contain ANSI escape codes: {}",
        colored_output
    );
    assert!(
        colored_output.contains("\x1b[0m"),
        "Terminal color output should contain ANSI reset codes: {}",
        colored_output
    );

    let mut no_color_writer = ASCIIWriter::new_with_color_setting(true, false);
    no_color_writer.draw_rect(Point::new(0, 0), Point::new(56, 56), &style, None, None);
    let plain_output = no_color_writer.finalize();
    assert!(
        !plain_output.contains("\x1b["),
        "Non-color terminal output should not contain ANSI codes: {}",
        plain_output
    );
}
