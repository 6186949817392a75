//! The value serializer and the rule formatter.
//!
//! [`SchemaNode::render`] turns a tree into the compact function-call style
//! text: a scalar is its stored text, tuple children join with a single
//! space, list children join with `", "`, and every non-modifier record
//! field renders as a `" name(value)"` unit.  [`Record::inline`] renders a
//! record as inline declaration text, and [`Record::format_rule`] wraps that
//! text as a `.selector { declarations }` rule.

use vstd::prelude::*;
use vstd::string::StringExecFns;
use crate::names::{to_external_name, to_external_spec};
use crate::schema::{
    field_index_spec, field_view, fields_view, find_field, lemma_fields_view, node_view,
    nodes_view, Field, Record, SchemaNode, SpecField, SpecNode,
};

verus! {

/// The internal spelling of the modifier field's identifier.  A record field
/// of this name holds a selector suffix: it is appended to the selector by
/// the formatter and excluded from declaration output.
pub open spec fn modifier_name() -> Seq<char> {
    seq!['a', 'p', 'p', 'e', 'n', 'd']
}

/// Whether `name` designates the modifier field.
pub open spec fn is_modifier(name: Seq<char>) -> bool {
    name == modifier_name()
}

/// Executable test for [`is_modifier`].
pub fn is_modifier_str(name: &String) -> (r: bool)
    ensures
        r == is_modifier(name@),
{
    let m = String::from_str("append");
    proof {
        reveal_strlit("append");
        assert("append"@ =~= modifier_name());
    }
    *name == m
}

/// The serialized text of a tree.
pub open spec fn render_spec(n: SpecNode) -> Seq<char>
    decreases n,
{
    match n {
        SpecNode::Scalar(s) => s,
        SpecNode::Tuple(cs) => render_join_spec(cs, seq![' ']),
        SpecNode::List(cs) => render_join_spec(cs, seq![',', ' ']),
        SpecNode::Record(fs) => render_units_spec(fs),
    }
}

/// The children's serialized texts joined with `sep`.
pub open spec fn render_join_spec(cs: Seq<SpecNode>, sep: Seq<char>) -> Seq<char>
    decreases cs,
{
    if cs.len() == 0 {
        Seq::empty()
    } else {
        render_spec(cs[0]) + render_tail_spec(cs.skip(1), sep)
    }
}

/// `sep` before each child's serialized text, concatenated.
pub open spec fn render_tail_spec(cs: Seq<SpecNode>, sep: Seq<char>) -> Seq<char>
    decreases cs,
{
    if cs.len() == 0 {
        Seq::empty()
    } else {
        sep + render_spec(cs[0]) + render_tail_spec(cs.skip(1), sep)
    }
}

/// The serialized text of one non-modifier field as a record-value unit.
pub open spec fn render_unit_spec(f: SpecField) -> Seq<char>
    decreases f,
{
    seq![' '] + to_external_spec(f.name) + seq!['('] + render_spec(f.node) + seq![')']
}

/// The `" name(value)"` units of every non-modifier field, concatenated.
pub open spec fn render_units_spec(fs: Seq<SpecField>) -> Seq<char>
    decreases fs,
{
    if fs.len() == 0 {
        Seq::empty()
    } else {
        let unit = if is_modifier(fs[0].name) {
            Seq::<char>::empty()
        } else {
            render_unit_spec(fs[0])
        };
        unit + render_units_spec(fs.skip(1))
    }
}

/// The `"name: value; "` declarations of every non-modifier field,
/// concatenated.
pub open spec fn inline_spec(fs: Seq<SpecField>) -> Seq<char>
    decreases fs,
{
    if fs.len() == 0 {
        Seq::empty()
    } else {
        let decl = if is_modifier(fs[0].name) {
            Seq::<char>::empty()
        } else {
            to_external_spec(fs[0].name) + seq![':', ' '] + render_spec(fs[0].node) + seq![';', ' ']
        };
        decl + inline_spec(fs.skip(1))
    }
}

/// The selector suffix a record contributes: the stored text of its modifier
/// field, if it has one and that field is a scalar, else nothing.
pub open spec fn modifier_text_spec(fs: Seq<SpecField>) -> Seq<char> {
    let k = field_index_spec(fs, modifier_name());
    if k >= 0 {
        match fs[k].node {
            SpecNode::Scalar(s) => s,
            _ => Seq::empty(),
        }
    } else {
        Seq::empty()
    }
}

/// A whole style rule: `.` then the selector (base name plus modifier
/// suffix), then the inline declarations between braces.
pub open spec fn format_rule_spec(fs: Seq<SpecField>, base: Seq<char>) -> Seq<char> {
    seq!['.'] + base + modifier_text_spec(fs) + seq![' ', '{', ' '] + inline_spec(fs) + seq!['}']
}

/// Serializes one tree, as [`render_spec`] describes.
pub fn render_node(n: &SchemaNode) -> (r: String)
    ensures
        r@ == render_spec(n@),
    decreases *n,
{
    match n {
        SchemaNode::Scalar(s) => s.clone(),
        SchemaNode::Tuple(cs) => {
            proof {
                assert(decreases_to!(*n => *cs));
                reveal_strlit(" ");
                assert(" "@ =~= seq![' ']);
            }
            render_join(cs, " ")
        },
        SchemaNode::List(cs) => {
            proof {
                assert(decreases_to!(*n => *cs));
                reveal_strlit(", ");
                assert(", "@ =~= seq![',', ' ']);
            }
            render_join(cs, ", ")
        },
        SchemaNode::Record(rec) => {
            proof {
                assert(decreases_to!(*n => rec.fields));
            }
            render_units(&rec.fields)
        },
    }
}

/// Serializes a sequence of children joined with `sep`.
fn render_join(cs: &Vec<SchemaNode>, sep: &str) -> (r: String)
    ensures
        r@ == render_join_spec(nodes_view(cs@), sep@),
    decreases *cs,
{
    let ghost nv = nodes_view(cs@);
    proof {
        crate::schema::lemma_nodes_view(cs@);
    }
    if cs.len() == 0 {
        return String::new();
    }
    proof {
        assert(decreases_to!(*cs => cs@[0]));
    }
    let mut out = render_node(&cs[0]);
    let n = cs.len();
    let mut i: usize = 1;
    proof {
        assert(nv.skip(1) =~= nodes_view(cs@).skip(1));
    }
    while i < n
        invariant
            1 <= i <= n,
            n == cs@.len(),
            nv == nodes_view(cs@),
            nv.len() == n,
            forall|k: int| 0 <= k < n ==> nv[k] == node_view(cs@[k]),
            out@ + render_tail_spec(nv.skip(i as int), sep@) == render_join_spec(nv, sep@),
        decreases n - i,
    {
        proof {
            assert(decreases_to!(*cs => cs@[i as int]));
            assert(nv.skip(i as int)[0] == nv[i as int]);
            assert(nv.skip(i as int).skip(1) =~= nv.skip(i as int + 1));
        }
        let ghost old_out = out@;
        out.append(sep);
        let piece = render_node(&cs[i]);
        out.append(piece.as_str());
        proof {
            assert(out@ =~= old_out + sep@ + render_spec(nv[i as int]));
        }
        i = i + 1;
    }
    proof {
        assert(nv.skip(i as int).len() == 0);
        assert(render_tail_spec(nv.skip(i as int), sep@) =~= Seq::<char>::empty());
        assert(out@ + Seq::<char>::empty() =~= out@);
    }
    out
}

/// Serializes the record-value units of a sequence of fields.
fn render_units(fs: &Vec<Field>) -> (r: String)
    ensures
        r@ == render_units_spec(fields_view(fs@)),
    decreases *fs,
{
    let ghost fv = fields_view(fs@);
    proof {
        lemma_fields_view(fs@);
    }
    let mut out = String::new();
    let n = fs.len();
    let mut i: usize = 0;
    proof {
        assert(fv.skip(0) =~= fv);
        assert(out@ + render_units_spec(fv) =~= render_units_spec(fv));
    }
    while i < n
        invariant
            0 <= i <= n,
            n == fs@.len(),
            fv == fields_view(fs@),
            fv.len() == n,
            forall|k: int| 0 <= k < n ==> fv[k] == field_view(fs@[k]),
            out@ + render_units_spec(fv.skip(i as int)) == render_units_spec(fv),
        decreases n - i,
    {
        proof {
            assert(fv.skip(i as int)[0] == fv[i as int]);
            assert(fv.skip(i as int).skip(1) =~= fv.skip(i as int + 1));
        }
        let ghost old_out = out@;
        if !is_modifier_str(&fs[i].name) {
            proof {
                assert(decreases_to!(*fs => fs@[i as int].node));
                reveal_strlit(" ");
                reveal_strlit("(");
                reveal_strlit(")");
                assert(" "@ =~= seq![' ']);
                assert("("@ =~= seq!['(']);
                assert(")"@ =~= seq![')']);
            }
            out.append(" ");
            let ext = to_external_name(fs[i].name.as_str());
            out.append(ext.as_str());
            out.append("(");
            let piece = render_node(&fs[i].node);
            out.append(piece.as_str());
            out.append(")");
            proof {
                assert(out@ =~= old_out + render_unit_spec(fv[i as int]));
            }
        } else {
            proof {
                assert(out@ + render_units_spec(fv.skip(i as int + 1)) =~= old_out
                    + render_units_spec(fv.skip(i as int)));
            }
        }
        i = i + 1;
    }
    proof {
        assert(fv.skip(i as int).len() == 0);
        assert(render_units_spec(fv.skip(i as int)) =~= Seq::<char>::empty());
        assert(out@ + Seq::<char>::empty() =~= out@);
    }
    out
}

impl SchemaNode {
    /// Serializes this tree, as [`render_spec`] describes: pure, with no
    /// side effect on the tree.
    pub fn render(&self) -> (r: String)
        ensures
            r@ == render_spec(self@),
    {
        render_node(self)
    }
}

impl Record {
    /// Renders this record as inline declaration text: one
    /// `"name: value; "` declaration per non-modifier field, in declaration
    /// order, as [`inline_spec`] describes.
    pub fn inline(&self) -> (r: String)
        ensures
            r@ == inline_spec(self@),
    {
        let fs = &self.fields;
        let ghost fv = fields_view(fs@);
        proof {
            lemma_fields_view(fs@);
        }
        let mut out = String::new();
        let n = fs.len();
        let mut i: usize = 0;
        proof {
            assert(fv.skip(0) =~= fv);
            assert(out@ + inline_spec(fv) =~= inline_spec(fv));
        }
        while i < n
            invariant
                0 <= i <= n,
                n == fs@.len(),
                fv == fields_view(fs@),
                fv.len() == n,
                forall|k: int| 0 <= k < n ==> fv[k] == field_view(fs@[k]),
                out@ + inline_spec(fv.skip(i as int)) == inline_spec(fv),
            decreases n - i,
        {
            proof {
                assert(fv.skip(i as int)[0] == fv[i as int]);
                assert(fv.skip(i as int).skip(1) =~= fv.skip(i as int + 1));
            }
            let ghost old_out = out@;
            if !is_modifier_str(&fs[i].name) {
                proof {
                    reveal_strlit(": ");
                    reveal_strlit("; ");
                    assert(": "@ =~= seq![':', ' ']);
                    assert("; "@ =~= seq![';', ' ']);
                }
                let ext = to_external_name(fs[i].name.as_str());
                out.append(ext.as_str());
                out.append(": ");
                let piece = render_node(&fs[i].node);
                out.append(piece.as_str());
                out.append("; ");
                proof {
                    assert(out@ =~= old_out + (to_external_spec(fv[i as int].name) + seq![':', ' ']
                        + render_spec(fv[i as int].node) + seq![';', ' ']));
                }
            } else {
                proof {
                    assert(out@ + inline_spec(fv.skip(i as int + 1)) =~= old_out + inline_spec(
                        fv.skip(i as int),
                    ));
                }
            }
            i = i + 1;
        }
        proof {
            assert(fv.skip(i as int).len() == 0);
            assert(inline_spec(fv.skip(i as int)) =~= Seq::<char>::empty());
            assert(out@ + Seq::<char>::empty() =~= out@);
        }
        out
    }

    /// Wraps this record's inline declarations as a style rule for the
    /// selector `base_name` plus the modifier field's suffix, as
    /// [`format_rule_spec`] describes.
    pub fn format_rule(&self, base_name: &str) -> (r: String)
        ensures
            r@ == format_rule_spec(self@, base_name@),
    {
        proof {
            reveal_strlit(".");
            reveal_strlit(" { ");
            reveal_strlit("}");
            reveal_strlit("append");
            assert("."@ =~= seq!['.']);
            assert(" { "@ =~= seq![' ', '{', ' ']);
            assert("}"@ =~= seq!['}']);
            assert("append"@ =~= modifier_name());
            lemma_fields_view(self.fields@);
        }
        let mut out = String::from_str(".");
        out.append(base_name);
        let target = String::from_str("append");
        let found = find_field(&self.fields, &target);
        match found {
            Some(k) => {
                match &self.fields[k].node {
                    SchemaNode::Scalar(s) => {
                        out.append(s.as_str());
                        proof {
                            assert(fields_view(self.fields@)[k as int].node == node_view(
                                self.fields@[k as int].node,
                            ));
                            assert(out@ =~= seq!['.'] + base_name@ + modifier_text_spec(self@));
                        }
                    },
                    _ => {
                        proof {
                            assert(fields_view(self.fields@)[k as int].node == node_view(
                                self.fields@[k as int].node,
                            ));
                            assert(out@ =~= seq!['.'] + base_name@ + modifier_text_spec(self@));
                        }
                    },
                }
            },
            None => {
                proof {
                    assert(out@ =~= seq!['.'] + base_name@ + modifier_text_spec(self@));
                }
            },
        }
        out.append(" { ");
        let decls = self.inline();
        out.append(decls.as_str());
        out.append("}");
        proof {
            assert(out@ =~= format_rule_spec(self@, base_name@));
        }
        out
    }
}

} // verus!
