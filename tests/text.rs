use mfte::config::{Charset, Config, EndOfLine, IndentSize, IndentStyle};
use mfte::indent::Indented;
use mfte::text::{parse_i32, parse_u8};

fn pairs(items: &[(&str, &str)]) -> Vec<(String, String)> {
    items.iter().map(|(k, v)| (k.to_string(), v.to_string())).collect()
}

#[test]
fn indent_end_of_eight_spaces_is_eight() {
    let line = String::from("        x");
    assert_eq!(line.indent_end(4), Some(8));
    assert_eq!(String::from("      x").indent_end(4), Some(4));
    assert_eq!(String::from("  x").indent_end(4), None);
    assert_eq!(String::from("").indent_end(4), None);
    assert_eq!(String::from("\t\tx").indent_end(1), Some(2));
}

#[test]
fn pop_indentation_removes_one_unit() {
    let mut line = String::from("         x");
    line.pop_indentation(4);
    assert_eq!(line, "     x");
    let mut flat = String::from("x  ");
    flat.pop_indentation(4);
    assert_eq!(flat, "x  ");
}

#[test]
fn numbers_parse_like_std() {
    assert_eq!(parse_u8("255"), Some(255));
    assert_eq!(parse_u8("+7"), Some(7));
    assert_eq!(parse_u8("256"), None);
    assert_eq!(parse_u8("-1"), None);
    assert_eq!(parse_u8(""), None);
    assert_eq!(parse_i32("-2147483648"), Some(i32::MIN));
    assert_eq!(parse_i32("2147483647"), Some(i32::MAX));
    assert_eq!(parse_i32("2147483648"), None);
    assert_eq!(parse_i32("12a"), None);
    assert_eq!(parse_i32("-"), None);
}

#[test]
fn config_defaults() {
    let c = Config::config_for(None);
    assert!(matches!(c.indent_style, IndentStyle::Space));
    assert!(matches!(c.indent_size, IndentSize::Size(4)));
    assert!(matches!(c.end_of_line, EndOfLine::Lf));
    assert!(matches!(c.charset, Charset::UTF8));
    assert!(c.trim_trailing_whitespace);
    assert!(c.insert_final_newline);
    assert_eq!(c.indent(), "    ");
    assert_eq!(c.line_sep(), "\n");
}

#[test]
fn config_reads_settings() {
    let s = pairs(&[
        ("indent_style", "tab"),
        ("end_of_line", "crlf"),
        ("charset", "utf-16le"),
        ("trim_trailing_whitespace", "false"),
        ("insert_final_newline", "false"),
    ]);
    let c = Config::config_for(Some(&s));
    assert!(matches!(c.indent_style, IndentStyle::Tab));
    assert!(matches!(c.end_of_line, EndOfLine::CrLf));
    assert!(matches!(c.charset, Charset::UTF16LE));
    assert!(!c.trim_trailing_whitespace);
    assert!(!c.insert_final_newline);
    assert_eq!(c.indent(), "\t");
    assert_eq!(c.line_sep(), "\r\n");
}

#[test]
fn config_sizes_and_bad_values() {
    let c = Config::config_for(Some(&pairs(&[("indent_size", "2"), ("end_of_line", "cr")])));
    assert_eq!(c.indent(), "  ");
    assert_eq!(c.line_sep(), "\r");
    let c = Config::config_for(Some(&pairs(&[("indent_size", "tab"), ("tab_width", "8")])));
    assert_eq!(c.indent(), "        ");
    let c = Config::config_for(Some(&pairs(&[("indent_size", "zero"), ("tab_width", "0"), ("indent_style", "wide")])));
    assert!(matches!(c.indent_size, IndentSize::Size(4)));
    assert_eq!(c.tab_width, 4);
    assert!(matches!(c.indent_style, IndentStyle::Space));
}

#[test]
fn first_setting_wins() {
    let c = Config::config_for(Some(&pairs(&[("indent_size", "3"), ("indent_size", "5")])));
    assert_eq!(c.indent(), "   ");
}
