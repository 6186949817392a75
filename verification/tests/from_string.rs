use rusty_css::schema::{record_eq, Field, Record, SchemaNode};

fn scalar(text: &str) -> SchemaNode {
    SchemaNode::Scalar(text.to_string())
}

fn field(name: &str, node: SchemaNode) -> Field {
    Field { name: name.to_string(), node }
}

fn nstruct(func1: &str, func2: &str) -> SchemaNode {
    SchemaNode::Record(Record {
        fields: vec![field("func1", scalar(func1)), field("func2", scalar(func2))],
    })
}

// String & record test

fn create_bb() -> Record {
    Record {
        fields: vec![
            field("append", scalar(":arbitrary_name")),
            field("prop_with_underscore", scalar("prop_underscore_value")),
            field("prop", scalar("200px")),
            field("nested", nstruct("func_prop1", "func_prop2")),
        ],
    }
}

#[test]
fn test_from_string_nested() {
    let mut bb = create_bb();
    bb.apply_declarations("nested: func1(val1) func2(val2);");

    let mut newbb = create_bb();
    assert!(!record_eq(&bb, &newbb));

    newbb.fields[3] = field("nested", nstruct("val1", "val2"));
    assert!(record_eq(&bb, &newbb));
}

#[test]
fn test_from_string_with_underscore() {
    let mut bb = create_bb();
    bb.apply_declarations("prop-with-underscore: new_underscore_val;");

    let mut newbb = create_bb();
    newbb.fields[1] = field("prop_with_underscore", scalar("new_underscore_val"));

    assert!(record_eq(&bb, &newbb));
}

#[test]
fn test_from_string() {
    let mut bb = create_bb();
    bb.apply_declarations("prop: newpropval;");

    let mut newbb = create_bb();
    newbb.fields[2] = field("prop", scalar("newpropval"));

    assert!(record_eq(&bb, &newbb));
}

// List test

fn create_cc() -> Record {
    Record {
        fields: vec![
            field("append", scalar(":arbitrary_name")),
            field(
                "prop",
                SchemaNode::List(vec![scalar("200px"), scalar("400px"), scalar("600px")]),
            ),
        ],
    }
}

#[test]
fn test_from_string_with_vec() {
    let mut cc = create_cc();
    cc.apply_declarations("prop: newpropval1, newpropval2, newpropval3;");

    let mut newcc = create_cc();
    newcc.fields[1] = field(
        "prop",
        SchemaNode::List(vec![
            scalar("newpropval1"),
            scalar("newpropval2"),
            scalar("newpropval3"),
        ]),
    );

    assert!(record_eq(&cc, &newcc));
}

// Tuple test

fn rgbt(a: &str, b: &str, c: &str) -> SchemaNode {
    SchemaNode::Record(Record {
        fields: vec![field(
            "rgb",
            SchemaNode::List(vec![scalar(a), scalar(b), scalar(c)]),
        )],
    })
}

fn create_tt() -> Record {
    Record {
        fields: vec![
            field(
                "border",
                SchemaNode::Tuple(vec![scalar("thick"), scalar("double"), scalar("#32a1ce")]),
            ),
            field(
                "background_image",
                SchemaNode::Record(Record {
                    fields: vec![field(
                        "linear_gradient",
                        SchemaNode::List(vec![SchemaNode::Tuple(vec![
                            rgbt("1", "2", "3"),
                            scalar("0%"),
                            scalar("50%"),
                        ])]),
                    )],
                }),
            ),
        ],
    }
}

#[test]
fn test_from_string_with_tuple() {
    let mut tt = create_tt();
    tt.apply_declarations(
        "border: donts topmen owowowo; background-image: linear-gradient(rgb(4,5,6) 1% 51%);",
    );

    let mut newtt = create_tt();
    newtt.fields[0] = field(
        "border",
        SchemaNode::Tuple(vec![scalar("donts"), scalar("topmen"), scalar("owowowo")]),
    );
    newtt.fields[1] = field(
        "background_image",
        SchemaNode::Record(Record {
            fields: vec![field(
                "linear_gradient",
                SchemaNode::List(vec![SchemaNode::Tuple(vec![
                    rgbt("4", "5", "6"),
                    scalar("1%"),
                    scalar("51%"),
                ])]),
            )],
        }),
    );

    assert!(record_eq(&tt, &newtt));
}

// All together

fn nstruct_with_strings(f1: &str, f2: &str, f3: &str) -> SchemaNode {
    SchemaNode::Record(Record {
        fields: vec![
            field("func1", scalar(f1)),
            field("func2", scalar(f2)),
            field("func3", scalar(f3)),
        ],
    })
}

fn nstruct_vecs_strings_structs(
    v: (&str, &str, &str),
    s: &str,
    f1: &str,
    f2: &str,
) -> SchemaNode {
    SchemaNode::Record(Record {
        fields: vec![
            field(
                "vec",
                SchemaNode::List(vec![scalar(v.0), scalar(v.1), scalar(v.2)]),
            ),
            field("str", scalar(s)),
            field("struc", nstruct(f1, f2)),
        ],
    })
}

fn create_dd() -> Record {
    Record {
        fields: vec![
            field("append", scalar(":arbitrary_name")),
            field("nstruct", nstruct_with_strings("NStopf1", "NStopf2", "NStopf3")),
            field(
                "nstruct_vec_str_struc",
                nstruct_vecs_strings_structs(("old1", "old2", "old3"), "oldx", "sssss", "ddddd"),
            ),
            field(
                "prop",
                SchemaNode::List(vec![scalar("str1"), scalar("str2"), scalar("str3")]),
            ),
            field(
                "prop2",
                SchemaNode::List(vec![nstruct("NS1f1", "NS1f2"), nstruct("NS2f1", "NS2f2")]),
            ),
        ],
    }
}

fn expected_dd() -> Record {
    let mut newdd = create_dd();
    newdd.fields[2] = field(
        "nstruct_vec_str_struc",
        nstruct_vecs_strings_structs(("new1", "new2", "new3"), "new4", "str1", "str2"),
    );
    newdd.fields[3] = field(
        "prop",
        SchemaNode::List(vec![
            scalar("newpropval1"),
            scalar("newpropval2"),
            scalar("newpropval3"),
        ]),
    );
    newdd.fields[0] = field("append", scalar("new_append"));
    newdd.fields[1] = field("nstruct", nstruct_with_strings("new1", "new2", "new3"));
    newdd.fields[4] = field(
        "prop2",
        SchemaNode::List(vec![nstruct("1deg", "2deg"), nstruct("3deg", "4deg")]),
    );
    newdd
}

#[test]
fn test_from_string_with_vec_struct_and_vec_of_struct() {
    let mut dd = create_dd();
    dd.apply_declarations(
        "
        nstruct-vec-str-struc: vec(new1,new2,new3) str(new4) struc(func1(str1) func2(str2));
        nstruct: func1(new1) func2(new2) func3(new3) bloat1(b);
        append: new_append;
        prop: newpropval1, newpropval2, newpropval3;
        prop2: func1(1deg) func2(2deg), func1(3deg) func2(4deg)",
    );

    let newdd = expected_dd();

    assert!(record_eq(&dd, &newdd));

    // position of declaration units should be irrelevant
    dd.apply_declarations(
        "
        nstruct-vec-str-struc: str(new4) struc(func1(str1) func2(str2)) bloat() vec(new1,new2,new3);
        nstruct: func1(new1) func3(new3) bloat1(b) func2(new2);
        append: new_append;
        prop: newpropval1, newpropval2, newpropval3;
        prop2: func1(1deg) func2(2deg), func1(3deg) func2(4deg)",
    );

    assert!(record_eq(&dd, &newdd));

    // number of units should be irrelevant
    dd.apply_declarations(
        "
        nstruct-vec-str-struc: struc(func1(str1) func2(str2) bloat()) bloat());
        nstruct: func1(new1) func3(new3) bloat1(b) func2(new2);
        append: new_append;
        prop: newpropval1, newpropval2, newpropval3;
        prop2: func1(1deg) func2(2deg), func1(3deg) func2(4deg)",
    );

    assert!(record_eq(&dd, &newdd));
}

#[test]
fn faulty_css() {
    let mut dd = create_dd();
    dd.apply_declarations(
        "
        nstruct-vec-str-struc: vec(new1,new2,new3) str(new4) struc(func1(str1) func2(str2));
        nstruct: func1(new1) func2() func3(new3) bloat1(b);
        append: new_append;
        prop: newpropval1, newpropval2, newpropval3;
        prop2: func1(1deg) func2deg), func1(3deg func2(4deg)",
    );

    let newdd = expected_dd();

    assert!(!record_eq(&dd, &newdd));
}

// real world example test

fn rgba(r: &str, g: &str, b: &str, a: &str) -> SchemaNode {
    SchemaNode::Record(Record {
        fields: vec![field(
            "rgba",
            SchemaNode::List(vec![scalar(r), scalar(g), scalar(b), scalar(a)]),
        )],
    })
}

fn create_realistic() -> Record {
    let gradients = SchemaNode::List(vec![
        SchemaNode::Tuple(vec![rgba("255", "127", "127", "1"), scalar("33%")]),
        SchemaNode::Tuple(vec![rgba("127", "255", "127", "1"), scalar("67%")]),
        SchemaNode::Tuple(vec![rgba("127", "127", "255", "1"), scalar("100%")]),
    ]);
    Record {
        fields: vec![
            field("background", rgba("127", "127", "127", "1")),
            field(
                "background_image",
                SchemaNode::Record(Record {
                    fields: vec![field(
                        "linear_gradient",
                        SchemaNode::Tuple(vec![scalar("9000deg,"), gradients]),
                    )],
                }),
            ),
        ],
    }
}

#[test]
fn realistic_example() {
    let css = "background: rgba(0, 255, 250, 1); background-image: linear-gradient(90deg, rgba(5, 97, 179, 1) 29%, rgba(34, 25, 0, 1) 56%, rgba(5, 97, 179, 1) 78%, rgba(34, 25, 0, 1) 56%, rgba(5, 97, 179, 1) 78%); ";
    let output_css = "background:  rgba(0, 255, 250, 1); background-image:  linear-gradient(90deg,  rgba(5, 97, 179, 1) 29%,  rgba(34, 25, 0, 1) 56%,  rgba(5, 97, 179, 1) 78%); ";

    let mut realistic_struct = create_realistic();
    realistic_struct.apply_declarations(css);

    assert_eq!(output_css, realistic_struct.inline());
}
