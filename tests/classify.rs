use aadc::{
    classify_line, detect_suffix_border, detect_vertical_border, expand_tabs, is_box_char,
    is_corner, is_horizontal_fill, is_junction, is_vertical_border, visual_width, analyze_line,
    LineKind,
};

#[test]
fn test_is_corner() {
    assert!(is_corner('+'));
    assert!(is_corner('┌'));
    assert!(is_corner('╔'));
    assert!(!is_corner('-'));
    assert!(!is_corner('a'));
}

#[test]
fn test_is_horizontal_fill() {
    assert!(is_horizontal_fill('-'));
    assert!(is_horizontal_fill('─'));
    assert!(is_horizontal_fill('═'));
    assert!(!is_horizontal_fill('|'));
    assert!(!is_horizontal_fill('a'));
}

#[test]
fn test_is_vertical_border() {
    assert!(is_vertical_border('|'));
    assert!(is_vertical_border('│'));
    assert!(is_vertical_border('║'));
    assert!(!is_vertical_border('-'));
    assert!(!is_vertical_border('a'));
}

#[test]
fn junctions_and_box_chars() {
    assert!(is_junction('┼'));
    assert!(is_junction('╪'));
    assert!(!is_junction('+'));
    assert!(is_box_char('+'));
    assert!(is_box_char('~'));
    assert!(is_box_char('┋'));
    assert!(is_box_char('╬'));
    assert!(!is_box_char('x'));
    assert!(!is_box_char(' '));
}

#[test]
fn test_classify_line_blank() {
    assert_eq!(classify_line(""), LineKind::Blank);
    assert_eq!(classify_line("   "), LineKind::Blank);
    assert_eq!(classify_line("\t"), LineKind::Blank);
}

#[test]
fn unicode_white_space_is_blank() {
    assert_eq!(classify_line("\u{3000}\u{a0} \n"), LineKind::Blank);
    assert_eq!(classify_line("\u{3000}|\u{3000}"), LineKind::Strong);
}

#[test]
fn test_classify_line_none() {
    assert_eq!(classify_line("hello world"), LineKind::Plain);
    assert_eq!(classify_line("fn main() {}"), LineKind::Plain);
}

#[test]
fn text_without_box_chars_is_plain() {
    assert_eq!(classify_line("  just some prose, 42 of it.  "), LineKind::Plain);
    assert_eq!(classify_line("日本語"), LineKind::Plain);
}

#[test]
fn test_classify_line_strong() {
    assert_eq!(classify_line("+---+"), LineKind::Strong);
    assert_eq!(classify_line("| x |"), LineKind::Strong);
    assert_eq!(classify_line("┌───┐"), LineKind::Strong);
    assert_eq!(classify_line("│ y │"), LineKind::Strong);
}

#[test]
fn weak_and_ratio_lines() {
    // one box piece in seven characters, no corner, not bordered on both ends
    assert_eq!(classify_line("a - bcd"), LineKind::Weak);
    // exactly one third box pieces
    assert_eq!(classify_line("a-b"), LineKind::Strong);
    // just under one third
    assert_eq!(classify_line("ab-c"), LineKind::Weak);
    // bordered on both ends
    assert_eq!(classify_line("| a long line of text |"), LineKind::Strong);
}

#[test]
fn test_visual_width() {
    assert_eq!(visual_width("hello"), 5);
    assert_eq!(visual_width("│──│"), 4);
    assert_eq!(visual_width(""), 0);
}

#[test]
fn wide_characters_take_two_columns() {
    assert_eq!(visual_width("日本"), 4);
    assert_eq!(visual_width("é"), 1);
    assert_eq!(visual_width("a日│"), 4);
    assert_eq!(visual_width("plain ascii text"), 16);
}

#[test]
fn test_expand_tabs() {
    assert_eq!(expand_tabs("\thello", 4), "    hello");
    assert_eq!(expand_tabs("a\tb", 4), "a   b");
    assert_eq!(expand_tabs("ab\tc", 4), "ab  c");
}

#[test]
fn expand_tabs_more() {
    assert_eq!(expand_tabs("abcd\te", 4), "abcd    e");
    assert_eq!(expand_tabs("\t\t", 2), "    ");
    assert_eq!(expand_tabs("no tabs", 8), "no tabs");
    assert_eq!(expand_tabs("", 4), "");
    let out = expand_tabs("x\ty\tzz\t", 3);
    assert!(!out.contains('\t'));
    assert_eq!(out, "x  y  zz ");
}

#[test]
fn test_detect_suffix_border() {
    let border = detect_suffix_border("| hello |");
    assert!(border.is_some());
    let b = border.unwrap();
    assert_eq!(b.char, '|');
    assert!(b.is_closing);

    let no_border = detect_suffix_border("hello world");
    assert!(no_border.is_none());
}

#[test]
fn suffix_border_column() {
    let b = detect_suffix_border("| hello |").unwrap();
    assert_eq!(b.column, 8);
    let b = detect_suffix_border("+--+   ").unwrap();
    assert_eq!(b.column, 3);
    assert_eq!(b.char, '+');
    let b = detect_suffix_border("│ 日本 │").unwrap();
    assert_eq!(b.column, 7);
    assert_eq!(b.char, '│');
    assert!(detect_suffix_border("   ").is_none());
    assert!(detect_suffix_border("| x -").is_none());
}

#[test]
fn analyze_line_fields() {
    let a = analyze_line("  | ab |  ");
    assert_eq!(a.content, "  | ab |  ");
    assert_eq!(a.kind, LineKind::Strong);
    assert_eq!(a.visual_width, 10);
    assert_eq!(a.indent, 2);
    let b = a.suffix_border.unwrap();
    assert_eq!(b.column, 7);

    // a line that is not boxy gets no border even when it ends in one
    let p = analyze_line("x");
    assert_eq!(p.kind, LineKind::Plain);
    assert!(p.suffix_border.is_none());
}

#[test]
fn vertical_border_vote() {
    let lines = vec!["│ a │".to_string(), "| b |".to_string(), "║".to_string()];
    assert_eq!(detect_vertical_border(&lines), '│');
    // a tie goes to the one seen first
    let tie = vec!["| x ║".to_string(), "║ y |".to_string()];
    assert_eq!(detect_vertical_border(&tie), '|');
    let tie2 = vec!["║ x |".to_string(), "| y ║".to_string()];
    assert_eq!(detect_vertical_border(&tie2), '║');
    // no vertical border at all
    let none = vec!["+--+".to_string(), "text".to_string()];
    assert_eq!(detect_vertical_border(&none), '|');
    assert_eq!(detect_vertical_border(&[]), '|');
    let more = vec!["┃ ┃ |".to_string(), "| |".to_string()];
    assert_eq!(detect_vertical_border(&more), '|');
}
