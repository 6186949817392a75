//! The value setter and the declaration router.
//!
//! [`SchemaNode::apply`] mutates a tree in place according to one text
//! fragment: a scalar stores the trimmed text, a tuple distributes exactly
//! its arity of space-separated segments, a list truncates to the number of
//! comma-separated segments and distributes them, and a record repeatedly
//! consumes `name(argument)` units from the front of the text.
//! [`Record::apply_declarations`] splits a whole style string into
//! `name: value;` declarations and dispatches each to the setter.
//!
//! Every anomaly is recoverable: it is reported as a [`Diagnostic`] and the
//! remaining well-formed input is still processed.

use vstd::prelude::*;
use vstd::pervasive::VecAdditionalExecFns;
use vstd::string::{StrSliceExecFns, StringExecFns};
use crate::diag::Diagnostic;
use crate::names::{normalize_name, normalize_name_spec, to_internal_name, to_internal_spec};
use crate::schema::{
    field_index_spec, field_view, fields_view, find_field, lemma_fields_view,
    lemma_fields_view_update, lemma_nodes_view, clone_fields, clone_nodes, Field, Record,
    SchemaNode, SpecField, SpecNode, node_view, nodes_view,
};
use crate::split::{
    close_scan, find_close, lemma_close_scan_bound, lemma_split_rec_len, split_plain,
    split_plain_spec, split_rec, split_top_level,
};
use crate::text::{
    find_char, find_char_spec, lemma_find_char, lemma_trim_len, trim_spec, trim_str,
};

verus! {

/// The number of breaks a tuple of arity `n` honours when splitting: one
/// less than its arity, so the final segment absorbs the remaining text.
pub open spec fn tuple_breaks(n: nat) -> nat {
    if n == 0 {
        0
    } else {
        (n - 1) as nat
    }
}

/// The text a sequence of children is cut from: trimmed for a tuple, taken
/// verbatim for a list.
pub open spec fn elem_source(text: Seq<char>, tup: bool) -> Seq<char> {
    if tup {
        trim_spec(text)
    } else {
        text
    }
}

/// The break cap: a tuple honours `arity - 1` breaks, a list as many as the
/// text could possibly hold, which never binds.
pub open spec fn elem_cap(n: nat, text: Seq<char>, tup: bool) -> nat {
    if tup {
        tuple_breaks(n)
    } else {
        text.len()
    }
}

/// The segments an application distributes over the children of a tuple
/// (`sep == ' '`, `tup`) or list (`sep == ','`, not `tup`) of `n` children.
pub open spec fn elem_segs(n: nat, text: Seq<char>, sep: char, tup: bool) -> Seq<Seq<char>> {
    split_rec(elem_source(text, tup), sep, elem_cap(n, text, tup), 0)
}

/// The tree after applying `text` to `n`, paired with the diagnostics
/// reported, in order.
pub open spec fn apply_spec(n: SpecNode, text: Seq<char>) -> (SpecNode, Seq<Diagnostic>)
    decreases text.len(), n, 1int,
{
    match n {
        SpecNode::Scalar(_) => (SpecNode::Scalar(trim_spec(text)), Seq::empty()),
        SpecNode::Tuple(cs) => {
            if elem_segs(cs.len(), text, ' ', true).len() != cs.len() {
                (SpecNode::Tuple(cs), seq![Diagnostic::ArityMismatch])
            } else {
                let r = apply_elems_spec(cs, text, ' ', true, 0);
                (SpecNode::Tuple(r.0), r.1)
            }
        },
        SpecNode::List(cs) => {
            let r = apply_elems_spec(cs, text, ',', false, 0);
            (SpecNode::List(r.0), r.1)
        },
        SpecNode::Record(fs) => {
            let r = apply_record_spec(fs, text);
            (SpecNode::Record(r.0), r.1)
        },
    }
}

/// The children from position `i` on after applying their segments, paired
/// with the diagnostics.  Children beyond the last segment are dropped, and
/// segments beyond the last child are ignored.
pub open spec fn apply_elems_spec(
    cs: Seq<SpecNode>,
    text: Seq<char>,
    sep: char,
    tup: bool,
    i: int,
) -> (Seq<SpecNode>, Seq<Diagnostic>)
    decreases text.len(), cs, cs.len() - i,
    via apply_elems_decreases
{
    let segs = elem_segs(cs.len(), text, sep, tup);
    if i < 0 || i >= cs.len() || i >= segs.len() {
        (Seq::empty(), Seq::empty())
    } else {
        let head = apply_spec(cs[i], segs[i]);
        let rest = apply_elems_spec(cs, text, sep, tup, i + 1);
        (seq![head.0] + rest.0, head.1 + rest.1)
    }
}

#[via_fn]
proof fn apply_elems_decreases(cs: Seq<SpecNode>, text: Seq<char>, sep: char, tup: bool, i: int) {
    lemma_trim_len(text);
    lemma_split_rec_len(elem_source(text, tup), sep, elem_cap(cs.len(), text, tup), 0);
}

/// The fields after consuming every `name(argument)` unit from the front of
/// `text`, paired with the diagnostics.  An unknown name skips only its own
/// unit; a unit whose parentheses never balance abandons the remaining
/// text.
pub open spec fn apply_record_spec(fs: Seq<SpecField>, text: Seq<char>) -> (
    Seq<SpecField>,
    Seq<Diagnostic>,
)
    decreases text.len(), fs, 0int,
    via apply_record_decreases
{
    if trim_spec(text).len() == 0 {
        (fs, Seq::empty())
    } else {
        match find_char_spec(text, '(') {
            None => (fs, seq![Diagnostic::UnmatchedParenthesis]),
            Some(p) => {
                let name = to_internal_spec(trim_spec(text.take(p)));
                let rest = text.skip(p + 1);
                match close_scan(rest, 1) {
                    None => (fs, seq![Diagnostic::UnmatchedParenthesis]),
                    Some(j) => {
                        let arg = rest.take(j);
                        let remaining = rest.skip(j + 1);
                        let k = field_index_spec(fs, name);
                        if k < 0 {
                            let r = apply_record_spec(fs, remaining);
                            (r.0, seq![Diagnostic::UnknownField] + r.1)
                        } else {
                            let head = apply_spec(fs[k].node, arg);
                            let r = apply_record_spec(
                                fs.update(k, SpecField { name: fs[k].name, node: head.0 }),
                                remaining,
                            );
                            (r.0, head.1 + r.1)
                        }
                    },
                }
            },
        }
    }
}

#[via_fn]
proof fn apply_record_decreases(fs: Seq<SpecField>, text: Seq<char>) {
    lemma_find_char(text, '(');
    match find_char_spec(text, '(') {
        None => {},
        Some(p) => {
            lemma_close_scan_bound(text.skip(p + 1), 1);
        },
    }
}

/// One declaration applied to the fields: blank text does nothing, text
/// without `:` is malformed, an unknown normalized name is skipped, and a
/// known one dispatches the setter on its field.
pub open spec fn apply_decl_spec(fs: Seq<SpecField>, d: Seq<char>) -> (
    Seq<SpecField>,
    Seq<Diagnostic>,
) {
    if trim_spec(d).len() == 0 {
        (fs, Seq::empty())
    } else {
        match find_char_spec(d, ':') {
            None => (fs, seq![Diagnostic::MalformedDeclaration]),
            Some(p) => {
                let name = normalize_name_spec(d.take(p));
                let value = d.skip(p + 1);
                let k = field_index_spec(fs, name);
                if k < 0 {
                    (fs, seq![Diagnostic::UnknownField])
                } else {
                    let head = apply_spec(fs[k].node, value);
                    (fs.update(k, SpecField { name: fs[k].name, node: head.0 }), head.1)
                }
            },
        }
    }
}

/// The declarations applied in order, each to the fields the previous ones
/// produced.
pub open spec fn apply_decls_spec(fs: Seq<SpecField>, decls: Seq<Seq<char>>) -> (
    Seq<SpecField>,
    Seq<Diagnostic>,
)
    decreases decls.len(),
{
    if decls.len() == 0 {
        (fs, Seq::empty())
    } else {
        let head = apply_decl_spec(fs, decls[0]);
        let rest = apply_decls_spec(head.0, decls.skip(1));
        (rest.0, head.1 + rest.1)
    }
}

/// A whole style string applied to the fields: split on every `;`, each
/// segment treated as one declaration.
pub open spec fn apply_declarations_spec(fs: Seq<SpecField>, style: Seq<char>) -> (
    Seq<SpecField>,
    Seq<Diagnostic>,
) {
    apply_decls_spec(fs, split_plain_spec(style, ';'))
}

/// Applies the segments to the children from position `i` on, as
/// [`apply_elems_spec`] describes.
fn apply_elems(
    cs: &Vec<SchemaNode>,
    segs: &Vec<String>,
    i: usize,
    Ghost(text): Ghost<Seq<char>>,
    sep: char,
    tup: bool,
) -> (r: (Vec<SchemaNode>, Vec<Diagnostic>))
    requires
        segs.deep_view() == elem_segs(cs@.len() as nat, text, sep, tup),
    ensures
        nodes_view(r.0@) == apply_elems_spec(nodes_view(cs@), text, sep, tup, i as int).0,
        r.1@ == apply_elems_spec(nodes_view(cs@), text, sep, tup, i as int).1,
    decreases text.len(), *cs, cs@.len() - i,
{
    proof {
        lemma_nodes_view(cs@);
    }
    let ghost nv = nodes_view(cs@);
    if i >= cs.len() || i >= segs.len() {
        let r = (Vec::<SchemaNode>::new(), Vec::<Diagnostic>::new());
        proof {
            assert(nodes_view(r.0@) =~= apply_elems_spec(nv, text, sep, tup, i as int).0);
            assert(r.1@ =~= apply_elems_spec(nv, text, sep, tup, i as int).1);
        }
        return r;
    }
    proof {
        lemma_trim_len(text);
        lemma_split_rec_len(elem_source(text, tup), sep, elem_cap(nv.len(), text, tup), 0);
        assert(segs.deep_view()[i as int] == segs@[i as int]@);
        assert(segs@[i as int]@.len() <= text.len());
        assert(decreases_to!(*cs => cs@[i as int]));
    }
    let head = apply_node(&cs[i], segs[i].as_str());
    let rest = apply_elems(cs, segs, i + 1, Ghost(text), sep, tup);
    let (mut ns, mut ds2) = rest;
    let (n1, mut d1) = head;
    let ghost old_ns = ns@;
    let ghost n1v = n1@;
    ns.insert(0, n1);
    d1.append(&mut ds2);
    proof {
        let spec_rest = apply_elems_spec(nv, text, sep, tup, i as int + 1);
        lemma_nodes_view(old_ns);
        lemma_nodes_view(ns@);
        assert(ns@ =~= seq![n1] + old_ns);
        assert(nodes_view(ns@).len() == 1 + old_ns.len());
        assert forall|k: int| 0 <= k < nodes_view(ns@).len() implies nodes_view(ns@)[k] == (seq![
            n1v,
        ] + nodes_view(old_ns))[k] by {
            if k == 0 {
                assert(ns@[0] == n1);
            } else {
                assert(ns@[k] == old_ns[k - 1]);
            }
        }
        assert(nodes_view(ns@) =~= seq![n1v] + nodes_view(old_ns));
        assert(nodes_view(ns@) =~= seq![apply_spec(nv[i as int], segs@[i as int]@).0]
            + spec_rest.0);
    }
    (ns, d1)
}

/// Applies `text` to one tree, building the applied copy, as [`apply_spec`]
/// describes.
fn apply_node(n: &SchemaNode, text: &str) -> (r: (SchemaNode, Vec<Diagnostic>))
    ensures
        r.0@ == apply_spec(n@, text@).0,
        r.1@ == apply_spec(n@, text@).1,
    decreases text@.len(), *n, 1int,
{
    match n {
        SchemaNode::Scalar(_) => {
            let t = trim_str(text);
            let r = (SchemaNode::Scalar(String::from_str(t)), Vec::<Diagnostic>::new());
            proof {
                assert(r.1@ =~= apply_spec(n@, text@).1);
            }
            r
        },
        SchemaNode::Tuple(cs) => {
            proof {
                lemma_nodes_view(cs@);
            }
            let trimmed = trim_str(text);
            let nb: usize = if cs.len() == 0 {
                0
            } else {
                cs.len() - 1
            };
            let segs = split_top_level(trimmed, ' ', nb);
            proof {
                assert(nb as nat == tuple_breaks(nodes_view(cs@).len()));
                assert(segs.deep_view() == elem_segs(cs@.len() as nat, text@, ' ', true));
            }
            if segs.len() != cs.len() {
                let copy = clone_nodes(cs);
                let mut ds = Vec::<Diagnostic>::new();
                ds.push(Diagnostic::ArityMismatch);
                proof {
                    assert(ds@ =~= seq![Diagnostic::ArityMismatch]);
                }
                (SchemaNode::Tuple(copy), ds)
            } else {
                proof {
                    assert(decreases_to!(*n => *cs));
                }
                let r = apply_elems(cs, &segs, 0, Ghost(text@), ' ', true);
                (SchemaNode::Tuple(r.0), r.1)
            }
        },
        SchemaNode::List(cs) => {
            proof {
                lemma_nodes_view(cs@);
            }
            let cap = text.unicode_len();
            let segs = split_top_level(text, ',', cap);
            proof {
                assert(segs.deep_view() == elem_segs(cs@.len() as nat, text@, ',', false));
                assert(decreases_to!(*n => *cs));
            }
            let r = apply_elems(cs, &segs, 0, Ghost(text@), ',', false);
            (SchemaNode::List(r.0), r.1)
        },
        SchemaNode::Record(rec) => {
            proof {
                assert(decreases_to!(*n => rec.fields));
            }
            let r = apply_fields(&rec.fields, text);
            (SchemaNode::Record(Record { fields: r.0 }), r.1)
        },
    }
}

/// Consumes `name(argument)` units from the front of `text` and applies
/// each to its field, as [`apply_record_spec`] describes.
fn apply_fields(fields: &Vec<Field>, text: &str) -> (r: (Vec<Field>, Vec<Diagnostic>))
    ensures
        fields_view(r.0@) == apply_record_spec(fields_view(fields@), text@).0,
        r.1@ == apply_record_spec(fields_view(fields@), text@).1,
    decreases text@.len(), *fields, 1int,
{
    proof {
        lemma_fields_view(fields@);
    }
    let ghost fv = fields_view(fields@);
    let trimmed = trim_str(text);
    if trimmed.unicode_len() == 0 {
        let r = (clone_fields(fields), Vec::<Diagnostic>::new());
        proof {
            assert(r.1@ =~= apply_record_spec(fv, text@).1);
        }
        return r;
    }
    let n_len = text.unicode_len();
    let found_open = find_char(text, '(');
    proof {
        lemma_find_char(text@, '(');
    }
    match found_open {
        None => {
            let mut ds = Vec::<Diagnostic>::new();
            ds.push(Diagnostic::UnmatchedParenthesis);
            proof {
                assert(ds@ =~= seq![Diagnostic::UnmatchedParenthesis]);
            }
            (clone_fields(fields), ds)
        },
        Some(p) => {
            let name_raw = text.substring_char(0, p);
            proof {
                assert(name_raw@ =~= text@.take(p as int));
            }
            let name_trimmed = trim_str(name_raw);
            let name = to_internal_name(name_trimmed);
            let rest = text.substring_char(p + 1, n_len);
            proof {
                assert(rest@ =~= text@.skip(p as int + 1));
            }
            let found_close = find_close(rest);
            proof {
                lemma_close_scan_bound(rest@, 1);
            }
            match found_close {
                None => {
                    let mut ds = Vec::<Diagnostic>::new();
                    ds.push(Diagnostic::UnmatchedParenthesis);
                    proof {
                        assert(ds@ =~= seq![Diagnostic::UnmatchedParenthesis]);
                    }
                    (clone_fields(fields), ds)
                },
                Some(j) => {
                    let rest_len = rest.unicode_len();
                    let arg = rest.substring_char(0, j);
                    let remaining = rest.substring_char(j + 1, rest_len);
                    proof {
                        assert(arg@ =~= rest@.take(j as int));
                        assert(remaining@ =~= rest@.skip(j as int + 1));
                    }
                    let found_field = find_field(fields, &name);
                    match found_field {
                        None => {
                            let rec = apply_fields(fields, remaining);
                            let mut ds = Vec::<Diagnostic>::new();
                            ds.push(Diagnostic::UnknownField);
                            let (fs2, mut ds2) = rec;
                            ds.append(&mut ds2);
                            proof {
                                assert(ds@ =~= seq![Diagnostic::UnknownField]
                                    + apply_record_spec(fv, remaining@).1);
                            }
                            (fs2, ds)
                        },
                        Some(k) => {
                            let ghost kk = k as int;
                            proof {
                                assert(fv[kk] == field_view(fields@[kk]));
                            }
                            let head = apply_node(&fields[k].node, arg);
                            let (n2, mut d1) = head;
                            let mut fs1 = clone_fields(fields);
                            proof {
                                lemma_fields_view(fs1@);
                            }
                            let newf = Field { name: fields[k].name.clone(), node: n2 };
                            let ghost old_fs1 = fs1@;
                            let ghost nf = newf;
                            fs1.set(k, newf);
                            let ghost target_fs = fv.update(
                                kk,
                                SpecField { name: fv[kk].name, node: apply_spec(fv[kk].node, arg@).0 },
                            );
                            proof {
                                lemma_fields_view_update(old_fs1, kk, nf);
                                assert(fields_view(fs1@) =~= target_fs);
                            }
                            let rec = apply_fields(&fs1, remaining);
                            let (fs2, mut ds2) = rec;
                            d1.append(&mut ds2);
                            (fs2, d1)
                        },
                    }
                },
            }
        },
    }
}

/// Applies one declaration to the fields, as [`apply_decl_spec`] describes.
fn apply_decl(fields: &Vec<Field>, d: &str) -> (r: (Vec<Field>, Vec<Diagnostic>))
    ensures
        fields_view(r.0@) == apply_decl_spec(fields_view(fields@), d@).0,
        r.1@ == apply_decl_spec(fields_view(fields@), d@).1,
{
    proof {
        lemma_fields_view(fields@);
    }
    let ghost fv = fields_view(fields@);
    let trimmed = trim_str(d);
    if trimmed.unicode_len() == 0 {
        let r = (clone_fields(fields), Vec::<Diagnostic>::new());
        proof {
            assert(r.1@ =~= apply_decl_spec(fv, d@).1);
        }
        return r;
    }
    let n_len = d.unicode_len();
    let found_colon = find_char(d, ':');
    proof {
        lemma_find_char(d@, ':');
    }
    match found_colon {
        None => {
            let mut ds = Vec::<Diagnostic>::new();
            ds.push(Diagnostic::MalformedDeclaration);
            proof {
                assert(ds@ =~= seq![Diagnostic::MalformedDeclaration]);
            }
            (clone_fields(fields), ds)
        },
        Some(p) => {
            let name_raw = d.substring_char(0, p);
            proof {
                assert(name_raw@ =~= d@.take(p as int));
            }
            let name = normalize_name(name_raw);
            let value = d.substring_char(p + 1, n_len);
            proof {
                assert(value@ =~= d@.skip(p as int + 1));
            }
            let found_field = find_field(fields, &name);
            match found_field {
                None => {
                    let mut ds = Vec::<Diagnostic>::new();
                    ds.push(Diagnostic::UnknownField);
                    proof {
                        assert(ds@ =~= seq![Diagnostic::UnknownField]);
                    }
                    (clone_fields(fields), ds)
                },
                Some(k) => {
                    let ghost kk = k as int;
                    proof {
                        assert(fv[kk] == field_view(fields@[kk]));
                    }
                    let head = apply_node(&fields[k].node, value);
                    let (n2, d1) = head;
                    let mut fs1 = clone_fields(fields);
                    proof {
                        lemma_fields_view(fs1@);
                    }
                    let newf = Field { name: fields[k].name.clone(), node: n2 };
                    fs1.set(k, newf);
                    let ghost target_fs = fv.update(
                        kk,
                        SpecField { name: fv[kk].name, node: apply_spec(fv[kk].node, value@).0 },
                    );
                    proof {
                        lemma_fields_view(fs1@);
                        assert(fields_view(fs1@) =~= target_fs);
                    }
                    (fs1, d1)
                },
            }
        },
    }
}

impl SchemaNode {
    /// Applies one text fragment to this tree, mutating it in place, as
    /// [`apply_spec`] describes; the diagnostics met are returned in order.
    /// The call always succeeds: a malformed fragment is reported, never
    /// fatal.
    pub fn apply(&mut self, text: &str) -> (r: Vec<Diagnostic>)
        ensures
            final(self)@ == apply_spec(old(self)@, text@).0,
            r@ == apply_spec(old(self)@, text@).1,
    {
        let applied = apply_node(self, text);
        let (n2, ds) = applied;
        *self = n2;
        ds
    }
}

impl Record {
    /// Applies a whole inline style string to this record: the text is split
    /// on `;`, and each non-blank declaration is routed to the field its
    /// normalized name designates, as [`apply_declarations_spec`] describes.
    /// Unknown names and malformed declarations are reported and skipped;
    /// the remaining declarations are still applied.
    pub fn apply_declarations(&mut self, style: &str) -> (r: Vec<Diagnostic>)
        ensures
            final(self)@ == apply_declarations_spec(old(self)@, style@).0,
            r@ == apply_declarations_spec(old(self)@, style@).1,
    {
        let ghost orig = fields_view(self.fields@);
        let decls = split_plain(style, ';');
        let ghost dv = decls.deep_view();
        let n = decls.len();
        let mut diags = Vec::<Diagnostic>::new();
        let mut i: usize = 0;
        proof {
            assert(dv.skip(0) =~= dv);
            assert(diags@ + apply_decls_spec(orig, dv).1 =~= apply_decls_spec(orig, dv).1);
        }
        while i < n
            invariant
                0 <= i <= n,
                n == dv.len(),
                dv == decls.deep_view(),
                forall|k: int| 0 <= k < n ==> dv[k] == #[trigger] decls@[k]@,
                apply_decls_spec(fields_view(self.fields@), dv.skip(i as int)).0
                    == apply_decls_spec(orig, dv).0,
                diags@ + apply_decls_spec(fields_view(self.fields@), dv.skip(i as int)).1
                    == apply_decls_spec(orig, dv).1,
            decreases n - i,
        {
            let ghost cur = fields_view(self.fields@);
            proof {
                assert(dv.skip(i as int)[0] == dv[i as int]);
                assert(dv.skip(i as int).skip(1) =~= dv.skip(i as int + 1));
            }
            let stepped = apply_decl(&self.fields, decls[i].as_str());
            let (nf, mut nd) = stepped;
            self.fields = nf;
            let ghost old_diags = diags@;
            diags.append(&mut nd);
            proof {
                let head = apply_decl_spec(cur, dv[i as int]);
                assert(diags@ =~= old_diags + head.1);
                assert(diags@ + apply_decls_spec(fields_view(self.fields@), dv.skip(i as int + 1)).1
                    =~= old_diags + apply_decls_spec(cur, dv.skip(i as int)).1);
            }
            i = i + 1;
        }
        proof {
            assert(dv.skip(i as int).len() == 0);
            assert(apply_decls_spec(fields_view(self.fields@), dv.skip(i as int)).0
                == fields_view(self.fields@));
            assert(diags@ + apply_decls_spec(fields_view(self.fields@), dv.skip(i as int)).1
                =~= diags@);
        }
        diags
    }
}

} // verus!
