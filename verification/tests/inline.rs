use rusty_css::schema::{Field, Record, SchemaNode};

fn scalar(text: &str) -> SchemaNode {
    SchemaNode::Scalar(text.to_string())
}

fn field(name: &str, node: SchemaNode) -> Field {
    Field { name: name.to_string(), node }
}

fn record(fields: Vec<Field>) -> Record {
    Record { fields }
}

// simple String

fn create_a() -> Record {
    record(vec![field("width", scalar("200px"))])
}

#[test]
fn test1() {
    let a = create_a();
    assert_eq!(a.inline(), "width: 200px; ");
}

// with nested struct

fn create_nstruct() -> SchemaNode {
    SchemaNode::Record(record(vec![
        field("func1", scalar("func_prop1")),
        field("func2", scalar("func_prop2")),
    ]))
}

fn create_b() -> Record {
    record(vec![field("prop", scalar("200px")), field("nested", create_nstruct())])
}

#[test]
fn test2() {
    let b = create_b();
    assert_eq!(b.inline(), "prop: 200px; nested:  func1(func_prop1) func2(func_prop2); ");
}

// with nested struct and a fixed-size list

fn create_array3() -> SchemaNode {
    SchemaNode::List(vec![scalar("firststr"), scalar("secondstr"), scalar("thirdstr")])
}

fn create_c() -> Record {
    record(vec![
        field("prop", scalar("200px")),
        field("nested", create_nstruct()),
        field("array", create_array3()),
    ])
}

#[test]
fn test3() {
    let c = create_c();
    assert_eq!(
        c.inline(),
        "prop: 200px; nested:  func1(func_prop1) func2(func_prop2); array: firststr, secondstr, thirdstr; "
    );
}

// with nested struct holding a list of its own

fn create_d() -> Record {
    record(vec![
        field("prop", scalar("200px")),
        field(
            "nested",
            SchemaNode::Record(record(vec![
                field("func1", scalar("func_prop1")),
                field(
                    "func2",
                    SchemaNode::List(vec![
                        scalar("func_prop2_vec_1"),
                        scalar("func_prop2_vec_2"),
                        scalar("func_prop2_vec_3"),
                        scalar("func_prop2_vec_4"),
                    ]),
                ),
            ])),
        ),
        field("array", create_array3()),
    ])
}

#[test]
fn test4() {
    let d = create_d();
    assert_eq!(
        d.inline(),
        "prop: 200px; nested:  func1(func_prop1) func2(func_prop2_vec_1, func_prop2_vec_2, func_prop2_vec_3, func_prop2_vec_4); array: firststr, secondstr, thirdstr; "
    );
}
