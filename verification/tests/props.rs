use rusty_css::diag::Diagnostic;
use rusty_css::extract::try_extract_nums;
use rusty_css::names::{normalize_name, to_external_name, to_internal_name};
use rusty_css::schema::{clone_node, node_eq, record_eq, Field, Record, SchemaNode};
use rusty_css::split::{find_close, split_plain, split_top_level};
use rusty_css::text::{find_char, trim_str};

fn scalar(text: &str) -> SchemaNode {
    SchemaNode::Scalar(text.to_string())
}

fn field(name: &str, node: SchemaNode) -> Field {
    Field { name: name.to_string(), node }
}

// tuple arity invariant: too few segments leave the tuple untouched

#[test]
fn tuple_arity_mismatch_is_reported_and_harmless() {
    let mut t = SchemaNode::Tuple(vec![scalar("one"), scalar("two")]);
    let orig = clone_node(&t);
    let diags = t.apply("justone");
    assert!(node_eq(&t, &orig));
    assert_eq!(diags, vec![Diagnostic::ArityMismatch]);
}

#[test]
fn tuple_exact_arity_applies_all() {
    let mut t = SchemaNode::Tuple(vec![scalar("one"), scalar("two")]);
    let diags = t.apply(" a  b with spaces ");
    // one break only: the second segment absorbs the rest, and the scalar
    // setter trims it
    let expected = SchemaNode::Tuple(vec![scalar("a"), scalar("b with spaces")]);
    assert!(node_eq(&t, &expected));
    assert!(diags.is_empty());
}

// list truncation: "a,b" against three stored elements

#[test]
fn list_truncates_then_sets() {
    let mut l = SchemaNode::List(vec![scalar("x"), scalar("y"), scalar("z")]);
    let diags = l.apply("a,b");
    let expected = SchemaNode::List(vec![scalar("a"), scalar("b")]);
    assert!(node_eq(&l, &expected));
    assert!(diags.is_empty());
}

#[test]
fn list_never_grows() {
    let mut l = SchemaNode::List(vec![scalar("x")]);
    l.apply("a,b,c");
    let expected = SchemaNode::List(vec![scalar("a")]);
    assert!(node_eq(&l, &expected));
}

// unknown field resilience

#[test]
fn unknown_field_reported_once_knowns_still_set() {
    let mut r = Record {
        fields: vec![field("known", scalar("0")), field("known2", scalar("0"))],
    };
    let diags = r.apply_declarations("known: 1; bogus: 2; known2: 3;");
    let expected = Record {
        fields: vec![field("known", scalar("1")), field("known2", scalar("3"))],
    };
    assert!(record_eq(&r, &expected));
    assert_eq!(diags, vec![Diagnostic::UnknownField]);
}

#[test]
fn malformed_declaration_skipped() {
    let mut r = Record { fields: vec![field("known", scalar("0"))] };
    let diags = r.apply_declarations("nocolonhere; known: 1;");
    let expected = Record { fields: vec![field("known", scalar("1"))] };
    assert!(record_eq(&r, &expected));
    assert_eq!(diags, vec![Diagnostic::MalformedDeclaration]);
}

// name translation round trip on the identifier alphabet

#[test]
fn name_translation_round_trips() {
    assert_eq!(to_external_name("prop_with_underscore_2"), "prop-with-underscore-2");
    assert_eq!(to_internal_name("prop-with-underscore-2"), "prop_with_underscore_2");
    assert_eq!(
        to_internal_name(&to_external_name("background_image")),
        "background_image"
    );
    assert_eq!(to_external_name(&to_internal_name("z-index")), "z-index");
    assert_eq!(normalize_name(" background\n-image "), "background_image");
}

// scenario B: a nested record is set, the sibling scalar untouched

#[test]
fn nested_record_set_sibling_untouched() {
    let mut r = Record {
        fields: vec![
            field("prop", scalar("old")),
            field(
                "nested",
                SchemaNode::Record(Record {
                    fields: vec![
                        field("func1", scalar("a")),
                        field("func2", scalar("b")),
                    ],
                }),
            ),
        ],
    };
    r.apply_declarations("nested: func1(val1) func2(val2);");
    let expected = Record {
        fields: vec![
            field("prop", scalar("old")),
            field(
                "nested",
                SchemaNode::Record(Record {
                    fields: vec![
                        field("func1", scalar("val1")),
                        field("func2", scalar("val2")),
                    ],
                }),
            ),
        ],
    };
    assert!(record_eq(&r, &expected));
}

// scenario D: an unmatched parenthesis in one declaration does not spoil a
// later well-formed one

#[test]
fn unmatched_paren_does_not_stop_later_declarations() {
    let mut r = Record {
        fields: vec![
            field("bad", SchemaNode::Record(Record { fields: vec![] })),
            field("good", scalar("0")),
        ],
    };
    let diags = r.apply_declarations("bad: foo); good: 42;");
    let expected = Record {
        fields: vec![
            field("bad", SchemaNode::Record(Record { fields: vec![] })),
            field("good", scalar("42")),
        ],
    };
    assert!(record_eq(&r, &expected));
    assert_eq!(diags, vec![Diagnostic::UnmatchedParenthesis]);
}

#[test]
fn unclosed_argument_reported_and_tail_abandoned() {
    let mut n = SchemaNode::Record(Record {
        fields: vec![field("inner", scalar("a")), field("other", scalar("b"))],
    });
    let orig = clone_node(&n);
    // the argument span never closes: nothing is written
    let diags = n.apply("inner(unclosed other(c)");
    assert!(node_eq(&n, &orig));
    assert_eq!(diags, vec![Diagnostic::UnmatchedParenthesis]);
}

// round trip: rendering then applying reproduces the tree

#[test]
fn render_then_apply_round_trips() {
    let tree = SchemaNode::Record(Record {
        fields: vec![
            field("width", scalar("200px")),
            field(
                "transform",
                SchemaNode::Record(Record {
                    fields: vec![
                        field("skew_x", scalar("30deg")),
                        field("skew_y", scalar("10deg")),
                    ],
                }),
            ),
            field(
                "margin",
                SchemaNode::Tuple(vec![scalar("1px"), scalar("2px"), scalar("3px")]),
            ),
            field(
                "stops",
                SchemaNode::List(vec![scalar("red"), scalar("green"), scalar("blue")]),
            ),
        ],
    });
    let text = tree.render();
    let mut reparsed = clone_node(&tree);
    let diags = reparsed.apply(&text);
    assert!(node_eq(&reparsed, &tree));
    assert!(diags.is_empty());
}

// the depth-aware splitter

#[test]
fn splitter_respects_nesting() {
    let parts = split_top_level("a(b,c),d, e(f(g,h))", ',', 10);
    assert_eq!(parts, vec!["a(b,c)", "d", " e(f(g,h))"]);
}

#[test]
fn splitter_honours_break_cap() {
    let parts = split_top_level("a b c d", ' ', 2);
    assert_eq!(parts, vec!["a", "b", "c d"]);
}

#[test]
fn splitter_survives_unbalanced_input() {
    // after the stray close the depth is negative: the comma is not at
    // top level and no break happens
    let parts = split_top_level("a),b", ',', 10);
    assert_eq!(parts, vec!["a),b"]);
}

#[test]
fn plain_splitter_splits_everywhere() {
    let parts = split_plain("a(b;c);d;", ';');
    assert_eq!(parts, vec!["a(b", "c)", "d", ""]);
}

#[test]
fn find_close_matches_nesting() {
    // counter starts one group deep: "b(c)" is inside, the last ')' closes
    assert_eq!(find_close("b(c))x"), Some(4));
    assert_eq!(find_close("never"), None);
    assert_eq!(find_char("abc", 'b'), Some(1));
    assert_eq!(find_char("abc", 'z'), None);
}

#[test]
fn trim_matches_reference_behaviour() {
    assert_eq!(trim_str("  a b \n"), "a b");
    assert_eq!(trim_str("\t\n "), "");
    assert_eq!(trim_str("x"), "x");
}

// number extraction

#[test]
fn extract_nums_keeps_number_characters() {
    assert_eq!(try_extract_nums("200px").unwrap(), "200");
    assert_eq!(try_extract_nums("-1.5em").unwrap(), "-1.5");
    assert_eq!(try_extract_nums("no digits").unwrap(), "");
    // the extracted text feeds a float parse downstream
    let parsed: f64 = try_extract_nums("12.25rem").unwrap().parse().unwrap();
    assert!((parsed - 12.25).abs() < 1e-9);
}

// serialization externalizes field names

#[test]
fn inline_hyphenates_names() {
    let r = Record {
        fields: vec![field("background_image", scalar("none"))],
    };
    assert_eq!(r.inline(), "background-image: none; ");
}

// a modifier field that is not a scalar contributes no selector suffix

#[test]
fn non_scalar_modifier_is_ignored_in_selector() {
    let r = Record {
        fields: vec![
            field("append", SchemaNode::List(vec![scalar(":x")])),
            field("width", scalar("1px")),
        ],
    };
    assert_eq!(r.format_rule("A"), ".A { width: 1px; }");
}

// empty containers stay harmless

#[test]
fn empty_record_and_list_apply_cleanly() {
    let mut l = SchemaNode::List(vec![]);
    let diags = l.apply("a,b,c");
    assert!(node_eq(&l, &SchemaNode::List(vec![])));
    assert!(diags.is_empty());

    let mut r = Record { fields: vec![] };
    let diags = r.apply_declarations("");
    assert!(record_eq(&r, &Record { fields: vec![] }));
    assert!(diags.is_empty());
}
