use plot_digitizer::inspect::{describe_value, short_value, ValueShape};

fn describe(v: ValueShape) -> (String, String) {
    describe_value(&v)
}

fn pair(a: &str, b: &str) -> (String, String) {
    (a.to_string(), b.to_string())
}

#[test]
fn describes_arrays() {
    assert_eq!(describe(ValueShape::Array { len: 3, first_map_keys: Some(2) }), pair("Array<Map>", "[3×2]"));
    assert_eq!(describe(ValueShape::Array { len: 12, first_map_keys: None }), pair("Array", "[12]"));
    assert_eq!(describe(ValueShape::Array { len: 0, first_map_keys: None }), pair("Array", "[0]"));
}

#[test]
fn describes_maps_and_strings() {
    assert_eq!(describe(ValueShape::KeyMap { keys: 5 }), pair("Map", "5 keys"));
    assert_eq!(describe(ValueShape::Str("héllo".to_string())), pair("String", "len 6"));
    assert_eq!(describe(ValueShape::Str(String::new())), pair("String", "len 0"));
}

#[test]
fn describes_scalars() {
    assert_eq!(describe(ValueShape::Int(7)), pair("i64", "scalar"));
    assert_eq!(describe(ValueShape::Float { text: "1.000000".to_string() }), pair("f64", "scalar"));
    assert_eq!(describe(ValueShape::Bool(false)), pair("bool", "scalar"));
    assert_eq!(describe(ValueShape::Unit), pair("()", "—"));
    assert_eq!(
        describe(ValueShape::Other { kind_name: "Fn".to_string(), text: "Fn(f)".to_string() }),
        pair("Fn", "—")
    );
}

#[test]
fn short_texts() {
    assert_eq!(short_value(&ValueShape::Int(-42)), "-42");
    assert_eq!(short_value(&ValueShape::Int(0)), "0");
    assert_eq!(short_value(&ValueShape::Int(1234567)), "1234567");
    assert_eq!(short_value(&ValueShape::Int(i64::MIN)), "-9223372036854775808");
    assert_eq!(short_value(&ValueShape::Int(i64::MAX)), "9223372036854775807");
    assert_eq!(short_value(&ValueShape::Str("ab".to_string())), "\"ab\"");
    assert_eq!(short_value(&ValueShape::Bool(true)), "true");
    assert_eq!(short_value(&ValueShape::Bool(false)), "false");
    assert_eq!(short_value(&ValueShape::Array { len: 7, first_map_keys: Some(1) }), "Array[7]");
    assert_eq!(short_value(&ValueShape::KeyMap { keys: 3 }), "Map{3 keys}");
    assert_eq!(short_value(&ValueShape::Unit), "()");
    assert_eq!(short_value(&ValueShape::Float { text: "1.500000".to_string() }), "1.500000");
    assert_eq!(
        short_value(&ValueShape::Other { kind_name: "Fn".to_string(), text: "Fn(f)".to_string() }),
        "Fn(f)"
    );
}

#[test]
fn integers_match_std_formatting() {
    for i in [-1000000i64, -10, -9, -1, 1, 9, 10, 99, 100, 65536, 4294967296] {
        assert_eq!(short_value(&ValueShape::Int(i)), format!("{}", i));
    }
}
