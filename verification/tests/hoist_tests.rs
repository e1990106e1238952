use plot_digitizer::hoist::{hoist_variables, starts_with_keyword};

fn chars(s: &str) -> Vec<char> {
    s.chars().collect()
}

#[test]
fn keyword_at_start_and_end() {
    assert!(starts_with_keyword(&chars("let x"), 0, "let"));
    assert!(starts_with_keyword(&chars("let"), 0, "let"));
    assert!(starts_with_keyword(&chars("x; let y"), 3, "let"));
}

#[test]
fn keyword_inside_identifier_is_no_keyword() {
    assert!(!starts_with_keyword(&chars("alet x"), 1, "let"));
    assert!(!starts_with_keyword(&chars("letter"), 0, "let"));
    assert!(!starts_with_keyword(&chars("_let"), 1, "let"));
    assert!(!starts_with_keyword(&chars("let_"), 0, "let"));
}

#[test]
fn keyword_past_the_end_is_no_keyword() {
    assert!(!starts_with_keyword(&chars("le"), 0, "let"));
    assert!(!starts_with_keyword(&chars("x let"), 3, "let"));
}

#[test]
fn let_keyword_becomes_spaces() {
    let (out, names) = hoist_variables("let x = 1;");
    assert_eq!(out, "    x = 1;");
    assert_eq!(names, vec!["x".to_string()]);
}

#[test]
fn const_keyword_becomes_spaces() {
    let (out, names) = hoist_variables("const PI = 3;");
    assert_eq!(out, "      PI = 3;");
    assert_eq!(names, vec!["PI".to_string()]);
}

#[test]
fn for_variable_is_listed_and_kept() {
    let script = "for i in xs { print(i); }";
    let (out, names) = hoist_variables(script);
    assert_eq!(out, script);
    assert_eq!(names, vec!["i".to_string()]);
}

#[test]
fn for_without_in_declares_nothing() {
    let script = "for i of xs";
    let (out, names) = hoist_variables(script);
    assert_eq!(out, script);
    assert!(names.is_empty());
}

#[test]
fn names_listed_once_in_order() {
    let script = "let x = 1;\nfor i in xs { const y = i; }\nlet x = 2;";
    let (out, names) = hoist_variables(script);
    assert_eq!(out, "    x = 1;\nfor i in xs {       y = i; }\n    x = 2;");
    assert_eq!(names, vec!["x".to_string(), "i".to_string(), "y".to_string()]);
}

#[test]
fn declarations_in_strings_and_comments_are_kept() {
    let script = "print(\"let a = 1\"); // let b = 2\n/* const c = 3 */ 'let d'";
    let (out, names) = hoist_variables(script);
    assert_eq!(out, script);
    assert!(names.is_empty());
}

#[test]
fn escaped_quote_stays_inside_string() {
    let script = "\"a \\\" let b\" let c = 1";
    let (out, names) = hoist_variables(script);
    assert_eq!(out, "\"a \\\" let b\"     c = 1");
    assert_eq!(names, vec!["c".to_string()]);
}

#[test]
fn keyword_without_name_is_kept() {
    for script in ["let = 1", "let", "let 5", "letx = 1", "let\n\tx"] {
        let (out, names) = hoist_variables(script);
        if script == "let\n\tx" {
            assert_eq!(out, "   \n\tx");
            assert_eq!(names, vec!["x".to_string()]);
        } else {
            assert_eq!(out, script);
            assert!(names.is_empty());
        }
    }
}

#[test]
fn hoisting_keeps_columns() {
    let script = "let a = 1;\n  const bb = a;\nfor k in [1, 2] { let z = k; } // let q";
    let (out, _) = hoist_variables(script);
    let s: Vec<char> = script.chars().collect();
    let o: Vec<char> = out.chars().collect();
    assert_eq!(s.len(), o.len());
    for (a, b) in s.iter().zip(o.iter()) {
        assert!(a == b || *b == ' ');
    }
}

#[test]
fn hoisted_names_are_unique() {
    let (_, names) = hoist_variables("let a = 1; let a = 2; const a = 3; for a in b {}");
    assert_eq!(names, vec!["a".to_string()]);
}

#[test]
fn unicode_text_passes_through() {
    // A name must start with an ASCII letter or an underscore.
    let script = "let ä = 1; let é_1 = 2; x = \"ü\"; let _ü = 3;";
    let (out, names) = hoist_variables(script);
    assert_eq!(out, "let ä = 1; let é_1 = 2; x = \"ü\";     _ü = 3;");
    assert_eq!(names, vec!["_".to_string()]);
}

#[test]
fn backtick_strings_are_literals() {
    let script = "print(`let me`);";
    let (out, names) = hoist_variables(script);
    assert_eq!(out, script);
    assert!(names.is_empty());
    let (out, names) = hoist_variables("print(`x = ${x}`); let y = 1;");
    assert_eq!(out, "print(`x = ${x}`);     y = 1;");
    assert_eq!(names, vec!["y".to_string()]);
}
