//! The laws of the codec: what holds of the setter and router on every
//! input, stated over the functional model and proved once for all.

use vstd::prelude::*;
use crate::apply::{
    apply_decl_spec, apply_decls_spec, apply_elems_spec, apply_record_spec, apply_spec, elem_segs,
};
use crate::diag::Diagnostic;
use crate::names::{
    lemma_name_roundtrip_internal, normalize_name_spec, to_external_spec, to_internal_spec,
};
use crate::render::{
    is_modifier, render_join_spec, render_spec, render_tail_spec, render_unit_spec,
    render_units_spec,
};
use crate::schema::{field_index_spec, lemma_field_index, SpecField, SpecNode};
use crate::split::{
    close_scan, depth_nonneg, lemma_close_scan_concat, lemma_depth_nonneg_concat,
    lemma_net_depth_concat, lemma_net_depth_shift, lemma_no_top_sep_concat,
    lemma_no_top_sep_positive, lemma_split_b0, lemma_split_consume_sep, lemma_split_no_sep,
    lemma_split_opaque_prepend, lemma_stays_open, net_depth, no_top_sep, paren_delta, split_rec,
};
use crate::text::{
    all_space, find_char_spec, is_space_char, lemma_find_char_concat, lemma_trim_all_space,
    lemma_trim_nonempty, lemma_trim_pad, trim_spec,
};

verus! {

/// Law: applying text whose top-level segmentation does not match a tuple's
/// arity never mutates the tuple, not even partially, and the one
/// diagnostic reported is the arity mismatch.
pub proof fn tuple_arity_mismatch_leaves_tuple_unchanged(cs: Seq<SpecNode>, text: Seq<char>)
    requires
        elem_segs(cs.len(), text, ' ', true).len() != cs.len(),
    ensures
        apply_spec(SpecNode::Tuple(cs), text).0 == SpecNode::Tuple(cs),
        apply_spec(SpecNode::Tuple(cs), text).1 == seq![Diagnostic::ArityMismatch],
{
}

/// The shape of an element-wise application: one applied child per segment,
/// stopping at whichever of the children or the segments runs out first.
proof fn lemma_apply_elems_shape(cs: Seq<SpecNode>, text: Seq<char>, sep: char, tup: bool, i: int)
    requires
        0 <= i,
    ensures
        ({
            let segs = elem_segs(cs.len(), text, sep, tup);
            let m = if cs.len() <= segs.len() {
                cs.len() as int
            } else {
                segs.len() as int
            };
            let r = apply_elems_spec(cs, text, sep, tup, i);
            &&& r.0.len() == if i <= m {
                m - i
            } else {
                0
            }
            &&& forall|k: int| i <= k < m ==> r.0[k - i] == apply_spec(cs[k], segs[k]).0
        }),
    decreases cs.len() - i,
{
    let segs = elem_segs(cs.len(), text, sep, tup);
    if i < cs.len() && i < segs.len() {
        lemma_apply_elems_shape(cs, text, sep, tup, i + 1);
    }
}

/// Law: applying comma-separated text to a list truncates the list to the
/// number of segments (never grows it), then applies each remaining child
/// to its positional segment, in order.
pub proof fn list_truncates_to_segments(cs: Seq<SpecNode>, text: Seq<char>)
    ensures
        ({
            let segs = elem_segs(cs.len(), text, ',', false);
            let m = if cs.len() <= segs.len() {
                cs.len() as int
            } else {
                segs.len() as int
            };
            apply_spec(SpecNode::List(cs), text).0 == SpecNode::List(
                Seq::new(m as nat, |k: int| apply_spec(cs[k], segs[k]).0),
            )
        }),
{
    let segs = elem_segs(cs.len(), text, ',', false);
    let m = if cs.len() <= segs.len() {
        cs.len() as int
    } else {
        segs.len() as int
    };
    lemma_apply_elems_shape(cs, text, ',', false, 0);
    assert(apply_elems_spec(cs, text, ',', false, 0).0 =~= Seq::new(
        m as nat,
        |k: int| apply_spec(cs[k], segs[k]).0,
    ));
}

/// The field identifier a declaration addresses: the normalized text before
/// its first `:`, if the declaration is non-blank and holds one.
pub open spec fn decl_target(d: Seq<char>) -> Option<Seq<char>> {
    if trim_spec(d).len() == 0 {
        None
    } else {
        match find_char_spec(d, ':') {
            None => None,
            Some(p) => Some(normalize_name_spec(d.take(p))),
        }
    }
}

/// One declaration never renames fields, nor changes their number.
proof fn lemma_apply_decl_names(fs: Seq<SpecField>, d: Seq<char>)
    ensures
        apply_decl_spec(fs, d).0.len() == fs.len(),
        forall|k: int| 0 <= k < fs.len() ==> #[trigger] apply_decl_spec(fs, d).0[k].name
            == fs[k].name,
{
    if trim_spec(d).len() != 0 {
        match find_char_spec(d, ':') {
            None => {},
            Some(p) => {
                let name = normalize_name_spec(d.take(p));
                lemma_field_index(fs, name);
            },
        }
    }
}

/// A declaration that addresses some other name, or none, leaves field `k`
/// exactly as it was.
proof fn lemma_apply_decl_untouched(fs: Seq<SpecField>, d: Seq<char>, k: int)
    requires
        0 <= k < fs.len(),
        decl_target(d) != Some(fs[k].name),
    ensures
        apply_decl_spec(fs, d).0[k] == fs[k],
{
    if trim_spec(d).len() != 0 {
        match find_char_spec(d, ':') {
            None => {},
            Some(p) => {
                let name = normalize_name_spec(d.take(p));
                lemma_field_index(fs, name);
                let j = field_index_spec(fs, name);
                if j >= 0 {
                    assert(fs[j].name == name);
                    assert(name != fs[k].name);
                }
            },
        }
    }
}

/// Law: unknown-field resilience, seen from the untouched side.  A field
/// that no declaration of the style addresses keeps its exact value, however
/// many unknown or malformed declarations surround it: no anomaly elsewhere
/// in the style ever spills over.
pub proof fn unaddressed_field_unchanged(fs: Seq<SpecField>, decls: Seq<Seq<char>>, k: int)
    requires
        0 <= k < fs.len(),
        forall|i: int|
            0 <= i < decls.len() ==> #[trigger] decl_target(decls[i]) != Some(fs[k].name),
    ensures
        apply_decls_spec(fs, decls).0.len() == fs.len(),
        apply_decls_spec(fs, decls).0[k] == fs[k],
    decreases decls.len(),
{
    if decls.len() > 0 {
        assert(decl_target(decls[0]) != Some(fs[k].name));
        let fs1 = apply_decl_spec(fs, decls[0]).0;
        lemma_apply_decl_names(fs, decls[0]);
        lemma_apply_decl_untouched(fs, decls[0], k);
        assert(fs1[k] == fs[k]);
        assert forall|i: int| 0 <= i < decls.skip(1).len() implies #[trigger] decl_target(
            decls.skip(1)[i],
        ) != Some(fs1[k].name) by {
            assert(decls.skip(1)[i] == decls[i + 1]);
        }
        unaddressed_field_unchanged(fs1, decls.skip(1), k);
    }
}

/// A character the grammar never treats specially: not whitespace, not a
/// separator, not a parenthesis.
pub open spec fn plain_char(c: char) -> bool {
    !is_space_char(c) && c != ',' && c != '(' && c != ')'
}

/// A stored scalar text that survives the grammar untouched: non-empty and
/// made of plain characters only.
pub open spec fn scalar_clean(s: Seq<char>) -> bool {
    s.len() > 0 && forall|i: int| 0 <= i < s.len() ==> plain_char(s[i])
}

/// A field identifier in the allowed alphabet: non-empty, plain characters,
/// and no hyphen of its own (the internal spelling uses underscores).
pub open spec fn name_ok(s: Seq<char>) -> bool {
    s.len() > 0 && forall|i: int| 0 <= i < s.len() ==> plain_char(s[i]) && s[i] != '-'
}

/// A scalar leaf with clean stored text.
pub open spec fn clean_scalar_node(n: SpecNode) -> bool {
    match n {
        SpecNode::Scalar(s) => scalar_clean(s),
        _ => false,
    }
}

/// The trees whose serialized text parses back to the identical tree.
/// Tuples may hold only clean scalars (a child whose text carries top-level
/// spaces would shift the arity segmentation), lists may hold anything but
/// lists (the inner commas of a nested list would split the outer one), and
/// record field names come from the allowed identifier alphabet, one field
/// per name.
pub open spec fn rt_safe(n: SpecNode) -> bool
    decreases n,
{
    match n {
        SpecNode::Scalar(s) => scalar_clean(s),
        SpecNode::Tuple(cs) => cs.len() >= 1 && (forall|i: int|
            0 <= i < cs.len() ==> clean_scalar_node(#[trigger] cs[i])),
        SpecNode::List(cs) => forall|i: int|
            0 <= i < cs.len() ==> rt_safe(#[trigger] cs[i]) && !(cs[i] is List),
        SpecNode::Record(fs) => record_safe(fs),
    }
}

/// The record side of [`rt_safe`]: well-formed, pairwise distinct names and
/// round-trip-safe children.
pub open spec fn record_safe(fs: Seq<SpecField>) -> bool
    decreases fs,
{
    (forall|i: int| 0 <= i < fs.len() ==> name_ok((#[trigger] fs[i]).name) && rt_safe(fs[i].node))
        && (forall|i: int, j: int|
        #![trigger fs[i].name, fs[j].name]
        0 <= i < j < fs.len() ==> fs[i].name != fs[j].name)
}

/// Plain text moves no parenthesis counter and offers no break.
proof fn lemma_plain_scan(s: Seq<char>, sep: char, d: int)
    requires
        forall|i: int| 0 <= i < s.len() ==> plain_char(s[i]),
        d >= 0,
        sep == ' ' || sep == ',',
    ensures
        net_depth(s, d) == d,
        depth_nonneg(s, d),
        no_top_sep(s, sep, d),
    decreases s.len(),
{
    if s.len() > 0 {
        assert(forall|i: int| 0 <= i < s.skip(1).len() ==> s.skip(1)[i] == s[i + 1]);
        lemma_plain_scan(s.skip(1), sep, d);
    }
}

/// Whitespace moves no parenthesis counter and offers no comma break.
proof fn lemma_space_scan(s: Seq<char>, d: int)
    requires
        all_space(s),
        d >= 0,
    ensures
        net_depth(s, d) == d,
        depth_nonneg(s, d),
        no_top_sep(s, ',', d),
    decreases s.len(),
{
    if s.len() > 0 {
        assert(forall|i: int| 0 <= i < s.skip(1).len() ==> s.skip(1)[i] == s[i + 1]);
        lemma_space_scan(s.skip(1), d);
    }
}

/// The external spelling of a well-formed name is plain text of the same
/// length.
proof fn lemma_ext_name_chars(name: Seq<char>)
    requires
        name_ok(name),
    ensures
        to_external_spec(name).len() == name.len(),
        forall|i: int| 0 <= i < to_external_spec(name).len() ==> plain_char(
            #[trigger] to_external_spec(name)[i],
        ),
{
}

/// Scanning one character, spelled out.
proof fn lemma_single_scan(c: char, d: int, sep: char)
    ensures
        net_depth(seq![c], d) == paren_delta(c, d),
        depth_nonneg(seq![c], d) <==> paren_delta(c, d) >= 0,
        no_top_sep(seq![c], sep, d) <==> !(c == sep && d == 0),
{
    let s = seq![c];
    assert(s.len() == 1);
    assert(s[0] == c);
    assert(s.skip(1) =~= Seq::<char>::empty());
    assert(net_depth(s.skip(1), paren_delta(c, d)) == paren_delta(c, d));
    assert(net_depth(s, d) == paren_delta(c, d));
    assert(depth_nonneg(s.skip(1), paren_delta(c, d)));
    assert(no_top_sep(s.skip(1), sep, paren_delta(c, d)));
}

/// Unfolding one separator out of the tail render.
proof fn lemma_render_tail_unfold(cs: Seq<SpecNode>, sep: Seq<char>)
    requires
        cs.len() >= 1,
    ensures
        render_tail_spec(cs, sep) == sep + render_join_spec(cs, sep),
{
    assert(render_tail_spec(cs, sep) =~= sep + render_join_spec(cs, sep));
}

/// The serialized text of a round-trip-safe tree is balanced, and free of
/// top-level commas unless the tree is itself a list.
proof fn lemma_render_clean(n: SpecNode)
    requires
        rt_safe(n),
    ensures
        net_depth(render_spec(n), 0) == 0,
        depth_nonneg(render_spec(n), 0),
        !(n is List) ==> no_top_sep(render_spec(n), ',', 0),
    decreases n, 1int,
{
    match n {
        SpecNode::Scalar(s) => {
            lemma_plain_scan(s, ',', 0);
        },
        SpecNode::Tuple(cs) => {
            lemma_tuple_join_scan(cs);
        },
        SpecNode::List(cs) => {
            lemma_list_join_scan(cs);
        },
        SpecNode::Record(fs) => {
            lemma_units_scan(fs);
        },
    }
}

/// The joined render of clean scalars is plain text with spaces: balanced
/// and comma-free.
proof fn lemma_tuple_join_scan(cs: Seq<SpecNode>)
    requires
        forall|i: int| 0 <= i < cs.len() ==> clean_scalar_node(#[trigger] cs[i]),
    ensures
        net_depth(render_join_spec(cs, seq![' ']), 0) == 0,
        depth_nonneg(render_join_spec(cs, seq![' ']), 0),
        no_top_sep(render_join_spec(cs, seq![' ']), ',', 0),
    decreases cs,
{
    let sep = seq![' '];
    if cs.len() == 0 {
    } else {
        let s0 = render_spec(cs[0]);
        let tail = render_tail_spec(cs.skip(1), sep);
        assert(clean_scalar_node(cs[0]));
        lemma_plain_scan(s0, ',', 0);
        lemma_tuple_tail_scan(cs.skip(1));
        lemma_net_depth_concat(s0, tail, 0);
        lemma_depth_nonneg_concat(s0, tail, 0);
        lemma_no_top_sep_concat(s0, tail, ',', 0);
    }
}

/// The tail render of clean scalars, likewise.
proof fn lemma_tuple_tail_scan(cs: Seq<SpecNode>)
    requires
        forall|i: int| 0 <= i < cs.len() ==> clean_scalar_node(#[trigger] cs[i]),
    ensures
        net_depth(render_tail_spec(cs, seq![' ']), 0) == 0,
        depth_nonneg(render_tail_spec(cs, seq![' ']), 0),
        no_top_sep(render_tail_spec(cs, seq![' ']), ',', 0),
    decreases cs,
{
    let sep = seq![' '];
    if cs.len() > 0 {
        let s0 = render_spec(cs[0]);
        let rest = render_tail_spec(cs.skip(1), sep);
        assert(clean_scalar_node(cs[0]));
        assert(forall|i: int| 0 <= i < cs.skip(1).len() ==> cs.skip(1)[i] == cs[i + 1]);
        lemma_space_scan(sep, 0);
        lemma_plain_scan(s0, ',', 0);
        lemma_tuple_tail_scan(cs.skip(1));
        lemma_net_depth_concat(s0, rest, 0);
        lemma_depth_nonneg_concat(s0, rest, 0);
        lemma_no_top_sep_concat(s0, rest, ',', 0);
        lemma_net_depth_concat(sep, s0 + rest, 0);
        lemma_depth_nonneg_concat(sep, s0 + rest, 0);
        lemma_no_top_sep_concat(sep, s0 + rest, ',', 0);
        assert(sep + (s0 + rest) =~= render_tail_spec(cs, sep));
    }
}

/// The joined render of a round-trip-safe list is balanced.
proof fn lemma_list_join_scan(cs: Seq<SpecNode>)
    requires
        forall|i: int| 0 <= i < cs.len() ==> rt_safe(#[trigger] cs[i]) && !(cs[i] is List),
    ensures
        net_depth(render_join_spec(cs, seq![',', ' ']), 0) == 0,
        depth_nonneg(render_join_spec(cs, seq![',', ' ']), 0),
    decreases cs, 0int,
{
    let sep = seq![',', ' '];
    if cs.len() > 0 {
        let u0 = render_spec(cs[0]);
        let tail = render_tail_spec(cs.skip(1), sep);
        lemma_render_clean(cs[0]);
        lemma_list_tail_scan(cs.skip(1));
        lemma_net_depth_concat(u0, tail, 0);
        lemma_depth_nonneg_concat(u0, tail, 0);
    }
}

/// The tail render of a round-trip-safe list, likewise.
proof fn lemma_list_tail_scan(cs: Seq<SpecNode>)
    requires
        forall|i: int| 0 <= i < cs.len() ==> rt_safe(#[trigger] cs[i]) && !(cs[i] is List),
    ensures
        net_depth(render_tail_spec(cs, seq![',', ' ']), 0) == 0,
        depth_nonneg(render_tail_spec(cs, seq![',', ' ']), 0),
    decreases cs, 1int,
{
    let sep = seq![',', ' '];
    if cs.len() > 0 {
        let u0 = render_spec(cs[0]);
        let rest = render_tail_spec(cs.skip(1), sep);
        assert(forall|i: int| 0 <= i < cs.skip(1).len() ==> cs.skip(1)[i] == cs[i + 1]);
        lemma_render_clean(cs[0]);
        lemma_list_tail_scan(cs.skip(1));
        lemma_net_depth_concat(u0, rest, 0);
        lemma_depth_nonneg_concat(u0, rest, 0);
        lemma_single_scan(',', 0, ',');
        lemma_single_scan(' ', 0, ',');
        assert(sep =~= seq![','] + seq![' ']);
        lemma_net_depth_concat(seq![','], seq![' '], 0);
        lemma_depth_nonneg_concat(seq![','], seq![' '], 0);
        assert(net_depth(sep, 0) == 0);
        assert(depth_nonneg(sep, 0));
        lemma_net_depth_concat(sep, u0 + rest, 0);
        lemma_depth_nonneg_concat(sep, u0 + rest, 0);
        assert(sep + (u0 + rest) =~= render_tail_spec(cs, sep));
    }
}

/// One record unit is balanced and free of top-level commas: the child's
/// text sits one parenthesis level down, where no comma can break.
proof fn lemma_unit_scan(f: SpecField)
    requires
        name_ok(f.name),
        rt_safe(f.node),
    ensures
        net_depth(render_unit_spec(f), 0) == 0,
        depth_nonneg(render_unit_spec(f), 0),
        no_top_sep(render_unit_spec(f), ',', 0),
    decreases f, 1int,
{
    let ext = to_external_spec(f.name);
    let r = render_spec(f.node);
    lemma_ext_name_chars(f.name);
    lemma_render_clean(f.node);
    // the pieces, scanned in turn
    let u1 = seq![' '] + ext;
    let u2 = u1 + seq!['('];
    let u3 = u2 + r;
    let u4 = u3 + seq![')'];
    lemma_plain_scan(ext, ',', 0);
    lemma_space_scan(seq![' '], 0);
    lemma_net_depth_concat(seq![' '], ext, 0);
    lemma_depth_nonneg_concat(seq![' '], ext, 0);
    lemma_no_top_sep_concat(seq![' '], ext, ',', 0);
    lemma_single_scan('(', 0, ',');
    lemma_net_depth_concat(u1, seq!['('], 0);
    lemma_depth_nonneg_concat(u1, seq!['('], 0);
    lemma_no_top_sep_concat(u1, seq!['('], ',', 0);
    assert(net_depth(u2, 0) == 1);
    lemma_net_depth_shift(r, 0, 1);
    crate::split::lemma_depth_nonneg_shift(r, 0, 1);
    lemma_no_top_sep_positive(r, ',', 0, 1);
    lemma_net_depth_concat(u2, r, 0);
    lemma_depth_nonneg_concat(u2, r, 0);
    lemma_no_top_sep_concat(u2, r, ',', 0);
    assert(net_depth(u3, 0) == 1);
    lemma_single_scan(')', 1, ',');
    lemma_net_depth_concat(u3, seq![')'], 0);
    lemma_depth_nonneg_concat(u3, seq![')'], 0);
    lemma_no_top_sep_concat(u3, seq![')'], ',', 0);
    assert(u4 =~= render_unit_spec(f));
}

/// The units of a safe record, concatenated, likewise.
proof fn lemma_units_scan(fs: Seq<SpecField>)
    requires
        record_safe(fs),
    ensures
        net_depth(render_units_spec(fs), 0) == 0,
        depth_nonneg(render_units_spec(fs), 0),
        no_top_sep(render_units_spec(fs), ',', 0),
    decreases fs, 2int,
{
    if fs.len() > 0 {
        let rest = render_units_spec(fs.skip(1));
        assert(forall|i: int| 0 <= i < fs.skip(1).len() ==> fs.skip(1)[i] == fs[i + 1]);
        assert(record_safe(fs.skip(1)));
        lemma_units_scan(fs.skip(1));
        if is_modifier(fs[0].name) {
            assert(Seq::<char>::empty() + rest =~= render_units_spec(fs));
            lemma_net_depth_concat(Seq::<char>::empty(), rest, 0);
            lemma_depth_nonneg_concat(Seq::<char>::empty(), rest, 0);
            lemma_no_top_sep_concat(Seq::<char>::empty(), rest, ',', 0);
        } else {
            let unit = render_unit_spec(fs[0]);
            lemma_unit_scan(fs[0]);
            lemma_net_depth_concat(unit, rest, 0);
            lemma_depth_nonneg_concat(unit, rest, 0);
            lemma_no_top_sep_concat(unit, rest, ',', 0);
        }
    }
}

/// The join of clean scalars begins and ends with a plain character.
proof fn lemma_tuple_join_ends(cs: Seq<SpecNode>)
    requires
        cs.len() >= 1,
        forall|i: int| 0 <= i < cs.len() ==> clean_scalar_node(#[trigger] cs[i]),
    ensures
        render_join_spec(cs, seq![' ']).len() > 0,
        plain_char(render_join_spec(cs, seq![' '])[0]),
        plain_char(
            render_join_spec(cs, seq![' '])[render_join_spec(cs, seq![' ']).len() - 1],
        ),
    decreases cs,
{
    let sep = seq![' '];
    let u = render_join_spec(cs, sep);
    let s0 = render_spec(cs[0]);
    assert(clean_scalar_node(cs[0]));
    if cs.len() == 1 {
        assert(cs.skip(1).len() == 0);
        assert(u =~= s0);
    } else {
        assert(forall|i: int| 0 <= i < cs.skip(1).len() ==> cs.skip(1)[i] == cs[i + 1]);
        lemma_render_tail_unfold(cs.skip(1), sep);
        lemma_tuple_join_ends(cs.skip(1));
        let uj = render_join_spec(cs.skip(1), sep);
        assert(u =~= s0 + (sep + uj));
        assert(u[0] == s0[0]);
        assert(u[u.len() - 1] == uj[uj.len() - 1]);
    }
}

/// Splitting the joined render of clean scalars on spaces, with one break
/// less than their number, gives back exactly their texts.
proof fn lemma_tuple_split(cs: Seq<SpecNode>)
    requires
        cs.len() >= 1,
        forall|i: int| 0 <= i < cs.len() ==> clean_scalar_node(#[trigger] cs[i]),
    ensures
        split_rec(render_join_spec(cs, seq![' ']), ' ', (cs.len() - 1) as nat, 0) == Seq::new(
            cs.len() as nat,
            |i: int| render_spec(cs[i]),
        ),
    decreases cs,
{
    let sep = seq![' '];
    let u = render_join_spec(cs, sep);
    let s0 = render_spec(cs[0]);
    let b = (cs.len() - 1) as nat;
    let target = Seq::new(cs.len() as nat, |i: int| render_spec(cs[i]));
    assert(clean_scalar_node(cs[0]));
    if cs.len() == 1 {
        assert(cs.skip(1).len() == 0);
        assert(u =~= s0);
        lemma_split_b0(u, ' ', 0);
        assert(split_rec(u, ' ', b, 0) =~= target);
    } else {
        assert(forall|i: int| 0 <= i < cs.skip(1).len() ==> cs.skip(1)[i] == cs[i + 1]);
        lemma_render_tail_unfold(cs.skip(1), sep);
        let uj = render_join_spec(cs.skip(1), sep);
        assert(u =~= s0 + (seq![' '] + uj));
        lemma_plain_scan(s0, ' ', 0);
        lemma_split_opaque_prepend(s0, seq![' '] + uj, ' ', b, 0);
        lemma_split_consume_sep(uj, ' ', b);
        lemma_tuple_split(cs.skip(1));
        let sub = Seq::new(cs.skip(1).len() as nat, |i: int| render_spec(cs.skip(1)[i]));
        let r = split_rec(seq![' '] + uj, ' ', b, 0);
        assert(net_depth(s0, 0) == 0);
        assert(r == seq![Seq::<char>::empty()] + split_rec(uj, ' ', (b - 1) as nat, 0));
        assert(split_rec(uj, ' ', (b - 1) as nat, 0) == sub);
        assert(s0 + r[0] =~= s0);
        assert(r.skip(1) =~= sub);
        assert(split_rec(u, ' ', b, 0) =~= seq![s0] + sub);
        assert(seq![s0] + sub =~= target);
    }
}

/// The tail render of a list is long enough to pay for its breaks.
proof fn lemma_list_tail_len(cs: Seq<SpecNode>)
    ensures
        render_tail_spec(cs, seq![',', ' ']).len() >= 2 * cs.len(),
    decreases cs,
{
    if cs.len() > 0 {
        lemma_list_tail_len(cs.skip(1));
    }
}

/// Splitting whitespace-padded list render text on commas gives one segment
/// per child: the first padded as given, the rest with the space the
/// separator left behind.
proof fn lemma_list_split(cs: Seq<SpecNode>, pad: Seq<char>, b: nat)
    requires
        cs.len() >= 1,
        forall|i: int| 0 <= i < cs.len() ==> rt_safe(#[trigger] cs[i]) && !(cs[i] is List),
        all_space(pad),
        b >= cs.len() - 1,
    ensures
        split_rec(pad + render_join_spec(cs, seq![',', ' ']), ',', b, 0) == Seq::new(
            cs.len() as nat,
            |i: int|
                if i == 0 {
                    pad + render_spec(cs[0])
                } else {
                    seq![' '] + render_spec(cs[i])
                },
        ),
    decreases cs,
{
    let sep2 = seq![',', ' '];
    let u0 = render_spec(cs[0]);
    let w = pad + u0;
    let target = Seq::new(
        cs.len() as nat,
        |i: int|
            if i == 0 {
                pad + render_spec(cs[0])
            } else {
                seq![' '] + render_spec(cs[i])
            },
    );
    lemma_render_clean(cs[0]);
    lemma_space_scan(pad, 0);
    lemma_net_depth_concat(pad, u0, 0);
    lemma_no_top_sep_concat(pad, u0, ',', 0);
    assert(net_depth(w, 0) == 0);
    if cs.len() == 1 {
        assert(cs.skip(1).len() == 0);
        assert(pad + render_join_spec(cs, sep2) =~= w);
        lemma_split_no_sep(w, ',', b, 0);
        assert(split_rec(w, ',', b, 0) =~= target);
    } else {
        assert(forall|i: int| 0 <= i < cs.skip(1).len() ==> cs.skip(1)[i] == cs[i + 1]);
        lemma_render_tail_unfold(cs.skip(1), sep2);
        let uj = render_join_spec(cs.skip(1), sep2);
        assert(sep2 =~= seq![','] + seq![' ']);
        assert(pad + render_join_spec(cs, sep2) =~= w + (seq![','] + (seq![' '] + uj)));
        lemma_split_opaque_prepend(w, seq![','] + (seq![' '] + uj), ',', b, 0);
        lemma_split_consume_sep(seq![' '] + uj, ',', b);
        lemma_list_split(cs.skip(1), seq![' '], (b - 1) as nat);
        let sub = Seq::new(
            cs.skip(1).len() as nat,
            |i: int|
                if i == 0 {
                    seq![' '] + render_spec(cs.skip(1)[0])
                } else {
                    seq![' '] + render_spec(cs.skip(1)[i])
                },
        );
        let r = split_rec(seq![','] + (seq![' '] + uj), ',', b, 0);
        assert(r == seq![Seq::<char>::empty()] + split_rec(seq![' '] + uj, ',', (b - 1) as nat, 0));
        assert(split_rec(seq![' '] + uj, ',', (b - 1) as nat, 0) == sub);
        assert(w + r[0] =~= w);
        assert(r.skip(1) =~= sub);
        assert(split_rec(pad + render_join_spec(cs, sep2), ',', b, 0) =~= seq![w] + sub);
        assert(seq![w] + sub =~= target);
    }
}

/// Element-wise application is the identity when every child absorbs its
/// segment unchanged and silently.
proof fn lemma_elems_identity(cs: Seq<SpecNode>, text: Seq<char>, sep: char, tup: bool, i: int)
    requires
        0 <= i <= cs.len(),
        elem_segs(cs.len(), text, sep, tup).len() == cs.len(),
        forall|k: int|
            i <= k < cs.len() ==> apply_spec(
                #[trigger] cs[k],
                elem_segs(cs.len(), text, sep, tup)[k],
            ) == (cs[k], Seq::<Diagnostic>::empty()),
    ensures
        apply_elems_spec(cs, text, sep, tup, i).0 == cs.skip(i),
        apply_elems_spec(cs, text, sep, tup, i).1 == Seq::<Diagnostic>::empty(),
    decreases cs.len() - i,
{
    if i < cs.len() {
        lemma_elems_identity(cs, text, sep, tup, i + 1);
        assert(apply_elems_spec(cs, text, sep, tup, i).0 =~= cs.skip(i));
        assert(apply_elems_spec(cs, text, sep, tup, i).1 =~= Seq::<Diagnostic>::empty());
    } else {
        assert(cs.skip(i).len() == 0);
        assert(apply_elems_spec(cs, text, sep, tup, i).0 =~= cs.skip(i));
    }
}

/// Consuming the rendered units of the fields from position `t` on leaves a
/// safe record exactly as it stands, with nothing to report.
proof fn lemma_record_units_roundtrip(fs: Seq<SpecField>, t: int, pad: Seq<char>)
    requires
        record_safe(fs),
        0 <= t <= fs.len(),
        all_space(pad),
    ensures
        apply_record_spec(fs, pad + render_units_spec(fs.skip(t))) == (
            fs,
            Seq::<Diagnostic>::empty(),
        ),
    decreases fs, fs.len() - t + 1,
{
    let units = render_units_spec(fs.skip(t));
    let text = pad + units;
    if t == fs.len() {
        assert(fs.skip(t).len() == 0);
        assert(units =~= Seq::<char>::empty());
        assert(text =~= pad);
        lemma_trim_all_space(pad);
        assert(apply_record_spec(fs, text) == (fs, Seq::<Diagnostic>::empty()));
    } else {
        assert(fs.skip(t)[0] == fs[t]);
        assert(fs.skip(t).skip(1) =~= fs.skip(t + 1));
        let rest_units = render_units_spec(fs.skip(t + 1));
        if is_modifier(fs[t].name) {
            assert(units =~= rest_units);
            lemma_record_units_roundtrip(fs, t + 1, pad);
            assert(pad + rest_units =~= text);
        } else {
            let name = fs[t].name;
            let ext = to_external_spec(name);
            let r = render_spec(fs[t].node);
            assert(name_ok(name));
            assert(rt_safe(fs[t].node));
            lemma_ext_name_chars(name);
            assert(units =~= render_unit_spec(fs[t]) + rest_units);
            let pre = pad + (seq![' '] + ext);
            let tail2 = r + (seq![')'] + rest_units);
            assert(render_unit_spec(fs[t]) == seq![' '] + ext + seq!['('] + r + seq![')']);
            assert(text =~= pre + (seq!['('] + tail2));
            let p = pre.len() as int;
            // the opening parenthesis is the first: nothing before it is one
            assert(forall|i: int| 0 <= i < pre.len() ==> pre[i] != '(');
            assert((seq!['('] + tail2)[0] == '(');
            assert(find_char_spec(seq!['('] + tail2, '(') == Some(0int));
            lemma_find_char_concat(pre, seq!['('] + tail2, '(');
            assert(find_char_spec(text, '(') == Some(p));
            // the text does not trim away
            assert(text[p] == '(');
            assert(!is_space_char('('));
            lemma_trim_nonempty(text);
            // the name before the parenthesis normalizes back
            assert(text.take(p) =~= pre);
            assert(pre =~= (pad + seq![' ']) + ext);
            assert(all_space(pad + seq![' ']));
            assert(!is_space_char(ext[0]));
            assert(!is_space_char(ext[ext.len() - 1]));
            lemma_trim_pad(pad + seq![' '], ext);
            lemma_name_roundtrip_internal(name);
            assert(to_internal_spec(trim_spec(text.take(p))) == name);
            // the argument span is exactly the child's render
            assert(text.skip(p + 1) =~= tail2);
            lemma_render_clean(fs[t].node);
            lemma_stays_open(r, 0, 1);
            lemma_close_scan_concat(r, seq![')'] + rest_units, 1);
            lemma_net_depth_shift(r, 0, 1);
            assert(net_depth(r, 1) == 1);
            assert((seq![')'] + rest_units)[0] == ')');
            assert(paren_delta(')', 1) == 0);
            assert(close_scan(seq![')'] + rest_units, 1) == Some(0int));
            assert(close_scan(tail2, 1) == Some(r.len() as int));
            assert(tail2.take(r.len() as int) =~= r);
            assert(tail2.skip(r.len() as int + 1) =~= rest_units);
            // the field is found at its own position
            lemma_field_index(fs, name);
            let k = field_index_spec(fs, name);
            assert(fs[t].name == name);
            if k < 0 {
                assert(false);
            }
            if k < t {
                assert(fs[k].name != fs[t].name);
                assert(false);
            }
            if k > t {
                assert(fs[t].name != name);
                assert(false);
            }
            assert(k == t);
            // the child swallows its own render unchanged
            lemma_roundtrip_padded(fs[t].node, Seq::<char>::empty());
            assert(Seq::<char>::empty() + r =~= r);
            assert(apply_spec(fs[t].node, r) == (fs[t].node, Seq::<Diagnostic>::empty()));
            // writing the child back changes nothing
            assert(SpecField { name: fs[t].name, node: fs[t].node } == fs[t]);
            assert(fs.update(t, fs[t]) =~= fs);
            // and the remaining units consume the remaining fields
            lemma_record_units_roundtrip(fs, t + 1, Seq::<char>::empty());
            assert(Seq::<char>::empty() + rest_units =~= rest_units);
            assert(apply_record_spec(fs, rest_units) == (fs, Seq::<Diagnostic>::empty()));
            assert(Seq::<Diagnostic>::empty() + Seq::<Diagnostic>::empty()
                =~= Seq::<Diagnostic>::empty());
        }
    }
}

/// Applying the serialized text of a round-trip-safe tree, under any
/// whitespace padding, restores the very tree and reports nothing.
proof fn lemma_roundtrip_padded(n: SpecNode, pad: Seq<char>)
    requires
        rt_safe(n),
        all_space(pad),
    ensures
        apply_spec(n, pad + render_spec(n)) == (n, Seq::<Diagnostic>::empty()),
    decreases n, 0int,
{
    let text = pad + render_spec(n);
    match n {
        SpecNode::Scalar(s) => {
            lemma_trim_pad(pad, s);
        },
        SpecNode::Tuple(cs) => {
            let u = render_join_spec(cs, seq![' ']);
            lemma_tuple_join_ends(cs);
            lemma_trim_pad(pad, u);
            lemma_tuple_split(cs);
            let segs = elem_segs(cs.len(), text, ' ', true);
            assert(segs == Seq::new(cs.len() as nat, |i: int| render_spec(cs[i])));
            assert(segs.len() == cs.len());
            assert forall|k: int| 0 <= k < cs.len() implies apply_spec(
                #[trigger] cs[k],
                segs[k],
            ) == (cs[k], Seq::<Diagnostic>::empty()) by {
                assert(clean_scalar_node(cs[k]));
                match cs[k] {
                    SpecNode::Scalar(sk) => {
                        assert(segs[k] == sk);
                        lemma_trim_pad(Seq::<char>::empty(), sk);
                        assert(Seq::<char>::empty() + sk =~= sk);
                        assert(trim_spec(sk) == sk);
                    },
                    _ => {},
                }
            }
            lemma_elems_identity(cs, text, ' ', true, 0);
            assert(cs.skip(0) =~= cs);
        },
        SpecNode::List(cs) => {
            let segs = elem_segs(cs.len(), text, ',', false);
            if cs.len() == 0 {
                assert(apply_elems_spec(cs, text, ',', false, 0).0 =~= cs);
                assert(apply_elems_spec(cs, text, ',', false, 0).1
                    =~= Seq::<Diagnostic>::empty());
            } else {
                lemma_list_tail_len(cs.skip(1));
                assert(render_spec(n) == render_join_spec(cs, seq![',', ' ']));
                assert(render_spec(n).len() >= 2 * (cs.len() - 1));
                assert(text.len() >= cs.len() - 1);
                lemma_list_split(cs, pad, text.len() as nat);
                assert(segs == Seq::new(
                    cs.len() as nat,
                    |i: int|
                        if i == 0 {
                            pad + render_spec(cs[0])
                        } else {
                            seq![' '] + render_spec(cs[i])
                        },
                ));
                assert(segs.len() == cs.len());
                assert(all_space(seq![' ']));
                assert forall|k: int| 0 <= k < cs.len() implies apply_spec(
                    #[trigger] cs[k],
                    segs[k],
                ) == (cs[k], Seq::<Diagnostic>::empty()) by {
                    if k == 0 {
                        lemma_roundtrip_padded(cs[0], pad);
                    } else {
                        lemma_roundtrip_padded(cs[k], seq![' ']);
                    }
                }
                lemma_elems_identity(cs, text, ',', false, 0);
                assert(cs.skip(0) =~= cs);
            }
        },
        SpecNode::Record(fs) => {
            assert(fs.skip(0) =~= fs);
            assert(render_units_spec(fs.skip(0)) == render_spec(n));
            lemma_record_units_roundtrip(fs, 0, pad);
        },
    }
}

/// Law: the round trip.  For any round-trip-safe tree, applying the tree's
/// own serialized text reproduces exactly the stored content, with no
/// diagnostic: parsing inverts serialization on the codec's grammar.
pub proof fn render_apply_roundtrip(n: SpecNode)
    requires
        rt_safe(n),
    ensures
        apply_spec(n, render_spec(n)) == (n, Seq::<Diagnostic>::empty()),
{
    lemma_roundtrip_padded(n, Seq::<char>::empty());
    assert(Seq::<char>::empty() + render_spec(n) =~= render_spec(n));
}

/// Law: a well-formed declaration whose target is unknown to the record is
/// skipped whole: it changes nothing and reports exactly one unknown-field
/// diagnostic.
pub proof fn unknown_declaration_skipped(fs: Seq<SpecField>, d: Seq<char>)
    requires
        match decl_target(d) {
            Some(name) => field_index_spec(fs, name) < 0,
            None => false,
        },
    ensures
        apply_decl_spec(fs, d).0 == fs,
        apply_decl_spec(fs, d).1 == seq![Diagnostic::UnknownField],
{
}

} // verus!
