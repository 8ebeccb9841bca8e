use neoscim::cell::{Cell, CellStyle, CellType, FormatRule};

#[test]
fn to_string_variants() {
    let v = 20.1f64;
    let mut c = Cell::from_value(CellType::duck_type(v.to_string(), Some(v.to_string())));
    c.push_rule(FormatRule::GT(20f64.to_string(), CellStyle::default()));

    assert_eq!(c.value_string(), "20.1");
    assert_eq!(c.value.as_ref().unwrap().to_string(), "20.1");
    assert_eq!(c.format_string(), "1 rule");
}

#[test]
fn to_string_escape() {
    let c = Cell::from_value(CellType::duck_type("Hello, \"World\"!".to_string(), None));
    assert_eq!(c.value_string(), "Hello, \"World\"!");
}
