use word_freq::render_decimal;
use word_freq::render_header;
use word_freq::render_line;

#[test]
fn decimal_rendering_is_exact() {
    assert_eq!(render_decimal(0), "0");
    assert_eq!(render_decimal(7), "7");
    assert_eq!(render_decimal(10), "10");
    assert_eq!(render_decimal(12345), "12345");
    assert_eq!(render_decimal(usize::MAX), format!("{}", usize::MAX));
}

#[test]
fn line_layout_matches_left_padding_to_ten() {
    assert_eq!(render_line("cat", 2), "'cat'      2");
    assert_eq!(render_line("cat", 2), format!("{:<10} {}", "'cat'", 2));
    assert_eq!(render_line("a", 10), format!("{:<10} {}", "'a'", 10));
    assert_eq!(render_line("", 0), format!("{:<10} {}", "''", 0));
    // a quoted word at or over the column width gets no padding
    assert_eq!(
        render_line("considerable", 3),
        format!("{:<10} {}", "'considerable'", 3)
    );
}

#[test]
fn header_names_the_file() {
    assert_eq!(render_header("notes.txt"), "==> notes.txt");
    assert_eq!(render_header(""), "==> ");
}
