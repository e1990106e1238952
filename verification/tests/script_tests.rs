use plot_digitizer::script::{compose_output, image_extension, number_text};

#[test]
fn output_of_unit_run_is_printed_text() {
    assert_eq!(compose_output("hello\nworld\n", None), "hello\nworld");
    assert_eq!(compose_output("", None), "");
    assert_eq!(compose_output("  x \u{3000}\n", None), "  x");
}

#[test]
fn output_appends_value_or_error() {
    assert_eq!(compose_output("a\n", Some("42")), "a\n42");
    assert_eq!(compose_output("", Some("42")), "42");
    assert_eq!(compose_output("", Some("Syntax error")), "Syntax error");
    assert_eq!(compose_output(" \n", Some("v")), "\nv");
}

#[test]
fn first_number_in_text() {
    assert_eq!(number_text("abc 12.5kg"), "12.5");
    assert_eq!(number_text("none"), "");
    assert_eq!(number_text(".5x"), "5");
    assert_eq!(number_text("v1.2.3"), "1.2");
    assert_eq!(number_text("Result: 1.5."), "1.5");
    assert_eq!(number_text("7.x"), "7");
    assert_eq!(number_text("abc"), "");
    assert_eq!(number_text("x 7 8"), "7");
    assert_eq!(number_text("20kHz"), "20");
    assert_eq!(number_text("é3."), "3");
}

#[test]
fn image_extensions() {
    assert!(image_extension("png"));
    assert!(image_extension("PNG"));
    assert!(image_extension("Jpeg"));
    assert!(image_extension("jpg"));
    assert!(!image_extension("gif"));
    assert!(!image_extension(""));
    assert!(!image_extension("pngx"));
    assert!(!image_extension("jp"));
}

#[test]
fn output_agrees_with_trim_end() {
    for printed in ["", "x\n", "a b \t\n\n", "\u{3000}\n", "line1\nline2\n"] {
        assert_eq!(compose_output(printed, None), printed.trim_end());
        let tail = "7";
        let expected = if printed.is_empty() {
            tail.to_string()
        } else {
            format!("{}\n{}", printed.trim_end(), tail)
        };
        assert_eq!(compose_output(printed, Some(tail)), expected);
    }
}

#[test]
fn extensions_agree_with_lowercasing() {
    for ext in ["png", "PnG", "JPG", "jpEg", "gif", "png ", "ｐng", "KPG", ""] {
        let low = ext.to_lowercase();
        let expected = low == "png" || low == "jpg" || low == "jpeg";
        assert_eq!(image_extension(ext), expected, "extension {:?}", ext);
    }
}

#[test]
fn number_text_always_parses() {
    for s in ["20kHz", "Result: 1.5.", "v1.2.3", "x 7 8", ".5", "a0.0001b", "12345678901234567890"] {
        assert!(number_text(s).parse::<f64>().is_ok(), "{:?}", s);
    }
}
