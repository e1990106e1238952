use plot_digitizer::markdown::{parse_inline, parse_markdown, split_lines, Block, Span, SpanKind};
use plot_digitizer::text::trim_chars;

fn plain(s: &str) -> Span {
    Span { kind: SpanKind::Plain, text: s.to_string() }
}

fn code(s: &str) -> Span {
    Span { kind: SpanKind::Code, text: s.to_string() }
}

fn bold(s: &str) -> Span {
    Span { kind: SpanKind::Bold, text: s.to_string() }
}

fn inline(s: &str) -> Vec<Span> {
    parse_inline(&s.chars().collect())
}

fn lines(s: &str) -> Vec<String> {
    split_lines(&s.chars().collect()).into_iter().map(|l| l.into_iter().collect()).collect()
}

#[test]
fn help_document_blocks() {
    let md = "# Title\n\nSome `code` and **bold**.\n```\nlet x = 1;\n\nx\n```\n| a | b |\n|---|---|\n> note\n- item\n---";
    let blocks = parse_markdown(md);
    let expected: Vec<Block<String, Vec<Span>>> = vec![
        Block::Heading(1, "Title".to_string()),
        Block::Space,
        Block::Paragraph(vec![plain("Some "), code("code"), plain(" and "), bold("bold"), plain(".")]),
        Block::Code("let x = 1;\n\nx".to_string()),
        Block::TableRow("| a | b |".to_string()),
        Block::Note("note".to_string()),
        Block::Bullet(vec![plain("item")]),
        Block::Rule,
    ];
    assert_eq!(blocks, expected);
}

#[test]
fn heading_levels() {
    let blocks = parse_markdown("### Three\n## Two\n  # One  \n####x\n#nospace");
    assert_eq!(
        blocks,
        vec![
            Block::Heading(3, "Three".to_string()),
            Block::Heading(2, "Two".to_string()),
            Block::Heading(1, "One".to_string()),
            Block::Paragraph(vec![plain("####x")]),
            Block::Paragraph(vec![plain("#nospace")]),
        ]
    );
}

#[test]
fn rules_and_bullets() {
    let blocks = parse_markdown("***\n___\n* star\n- dash\n-nospace");
    assert_eq!(
        blocks,
        vec![
            Block::Rule,
            Block::Rule,
            Block::Bullet(vec![plain("star")]),
            Block::Bullet(vec![plain("dash")]),
            Block::Paragraph(vec![plain("-nospace")]),
        ]
    );
}

#[test]
fn code_block_keeps_indentation_and_markup() {
    let blocks = parse_markdown("  ```rhai\n  # not a heading\n**x**\n   ```");
    assert_eq!(blocks, vec![Block::Code("  # not a heading\n**x**".to_string())]);
}

#[test]
fn empty_code_block() {
    assert_eq!(parse_markdown("```\n```"), vec![Block::Code(String::new())]);
}

#[test]
fn unclosed_code_block_is_dropped() {
    assert_eq!(parse_markdown("text\n```\nabc"), vec![Block::Paragraph(vec![plain("text")])]);
}

#[test]
fn blank_lines_become_space() {
    assert_eq!(parse_markdown("a\n \t\nb"), vec![
        Block::Paragraph(vec![plain("a")]),
        Block::Space,
        Block::Paragraph(vec![plain("b")]),
    ]);
}

#[test]
fn windows_line_endings() {
    assert_eq!(parse_markdown("> hi\r\n- x\r\n"), vec![
        Block::Note("hi".to_string()),
        Block::Bullet(vec![plain("x")]),
    ]);
}

#[test]
fn empty_document_has_no_blocks() {
    assert!(parse_markdown("").is_empty());
}

#[test]
fn lines_as_str_lines_gives_them() {
    assert_eq!(lines("a\nb"), vec!["a", "b"]);
    assert_eq!(lines("a\n"), vec!["a"]);
    assert_eq!(lines("\n"), vec![""]);
    assert_eq!(lines("a\n\nb\r\nc\r"), vec!["a", "", "b", "c\r"]);
    assert!(lines("").is_empty());
}

#[test]
fn trimming_unicode_white_space() {
    let t: String = trim_chars(&"\u{3000} a b\u{a0}\n".chars().collect()).into_iter().collect();
    assert_eq!(t, "a b");
    let t: String = trim_chars(&" \t ".chars().collect()).into_iter().collect();
    assert_eq!(t, "");
}

#[test]
fn plain_text_is_one_span() {
    assert_eq!(inline("just words here"), vec![plain("just words here")]);
    assert!(inline("").is_empty());
}

#[test]
fn unclosed_code_runs_to_the_end() {
    assert_eq!(inline("a `b c"), vec![plain("a "), code("b c")]);
}

#[test]
fn empty_code_span() {
    assert_eq!(inline("a``b"), vec![plain("a"), code(""), plain("b")]);
}

#[test]
fn unclosed_bold_leaves_last_character() {
    assert_eq!(inline("**abc"), vec![bold("ab"), plain("c")]);
    assert_eq!(inline("x **"), vec![plain("x "), bold("")]);
}

#[test]
fn single_star_is_text() {
    assert_eq!(inline("a * b"), vec![plain("a * b")]);
}

#[test]
fn code_inside_bold_is_bold_text() {
    assert_eq!(inline("**a `b` c**"), vec![bold("a `b` c")]);
}

#[test]
fn lines_agree_with_str_lines() {
    for s in ["", "a", "a\n", "\n", "\n\n", "a\r\nb", "a\r\n", "a\r", "c\r\r\n", "x\n\ry", "\r\n\r\n", "é\u{2028}ü\nz"] {
        let expected: Vec<String> = s.lines().map(|l| l.to_string()).collect();
        assert_eq!(lines(s), expected, "lines of {:?}", s);
    }
}

#[test]
fn trimming_agrees_with_str_trim() {
    let samples = ["", " ", "a", " a ", "\u{85}x\u{200a}", "\u{2000}\u{3000}y z\t\n", "\u{feff}w", "\u{180e}v"];
    for s in samples {
        let t: String = trim_chars(&s.chars().collect()).into_iter().collect();
        assert_eq!(t, s.trim(), "trim of {:?}", s);
    }
}
