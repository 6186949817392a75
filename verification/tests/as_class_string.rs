use rusty_css::schema::{Field, Record, SchemaNode};

fn scalar(text: &str) -> SchemaNode {
    SchemaNode::Scalar(text.to_string())
}

fn field(name: &str, node: SchemaNode) -> Field {
    Field { name: name.to_string(), node }
}

fn create_nstruct() -> SchemaNode {
    SchemaNode::Record(Record {
        fields: vec![
            field("func1", scalar("func_prop1")),
            field("func2", scalar("func_prop2")),
        ],
    })
}

// test class string

#[test]
fn test_standard_class_string_export() {
    let b = Record {
        fields: vec![field("prop", scalar("200px")), field("nested", create_nstruct())],
    };
    assert_eq!(
        b.format_rule("B"),
        ".B { prop: 200px; nested:  func1(func_prop1) func2(func_prop2); }"
    );
}

// test class string with pseudo classes 1

#[test]
fn test_class_string_export_with_pseudo_classes_1() {
    let b = Record {
        fields: vec![
            field("append", scalar(":before")),
            field("prop", scalar("200px")),
            field("nested", create_nstruct()),
        ],
    };
    assert_eq!(
        b.format_rule("BA"),
        ".BA:before { prop: 200px; nested:  func1(func_prop1) func2(func_prop2); }"
    );
}

// test class string with pseudo classes 2

#[test]
fn test_class_string_export_with_pseudo_classes_2() {
    let b = Record {
        fields: vec![
            field("append", scalar(":arbitrary_name")),
            field("prop", scalar("200px")),
            field("nested", create_nstruct()),
        ],
    };
    assert_eq!(
        b.format_rule("BB"),
        ".BB:arbitrary_name { prop: 200px; nested:  func1(func_prop1) func2(func_prop2); }"
    );
}
