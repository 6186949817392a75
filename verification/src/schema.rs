//! The schema tree: the data model of the codec.
//!
//! A [`SchemaNode`] describes one value: an opaque text leaf, a fixed-arity
//! tuple, a variable-length list, or a [`Record`] of named fields.  The
//! mathematical model of a tree is the [`SpecNode`] it views to, in which
//! every text is a `Seq<char>` and every sequence of children a `Seq`.

use vstd::prelude::*;

verus! {

/// The mathematical model of a schema tree.
#[verifier::ext_equal]
pub enum SpecNode {
    /// An opaque text payload.
    Scalar(Seq<char>),
    /// An ordered, fixed-length sequence of children; the arity is the
    /// length and never changes.
    Tuple(Seq<SpecNode>),
    /// An ordered, variable-length sequence of children; applying text with
    /// fewer segments than stored shrinks it.
    List(Seq<SpecNode>),
    /// An ordered mapping from internal field identifier to child.
    Record(Seq<SpecField>),
}

/// The mathematical model of one record field.
#[verifier::ext_equal]
pub struct SpecField {
    /// The internal (underscore) spelling of the field identifier.
    pub name: Seq<char>,
    /// The child node stored under the identifier.
    pub node: SpecNode,
}

/// One schema tree element.
pub enum SchemaNode {
    /// An opaque text payload.
    Scalar(String),
    /// An ordered, fixed-length sequence of children.
    Tuple(Vec<SchemaNode>),
    /// An ordered, variable-length sequence of children.
    List(Vec<SchemaNode>),
    /// A record of named fields.
    Record(Record),
}

/// One named field of a record.
pub struct Field {
    /// The internal (underscore) spelling of the field identifier.
    pub name: String,
    /// The child node stored under the identifier.
    pub node: SchemaNode,
}

/// An ordered mapping from field identifier to child node; iteration order
/// is declaration order.
pub struct Record {
    /// The fields, in declaration order.
    pub fields: Vec<Field>,
}

/// The model of one field.
pub open spec fn field_view(f: Field) -> SpecField
    decreases f,
{
    SpecField { name: f.name@, node: node_view(f.node) }
}

/// The model of a tree.
pub open spec fn node_view(n: SchemaNode) -> SpecNode
    decreases n,
{
    match n {
        SchemaNode::Scalar(s) => SpecNode::Scalar(s@),
        SchemaNode::Tuple(cs) => SpecNode::Tuple(nodes_view(cs@)),
        SchemaNode::List(cs) => SpecNode::List(nodes_view(cs@)),
        SchemaNode::Record(r) => SpecNode::Record(fields_view(r.fields@)),
    }
}

/// The models of a sequence of children, in order.
pub open spec fn nodes_view(s: Seq<SchemaNode>) -> Seq<SpecNode>
    decreases s,
{
    if s.len() == 0 {
        Seq::empty()
    } else {
        seq![node_view(s[0])] + nodes_view(s.skip(1))
    }
}

/// The models of a sequence of fields, in order.
pub open spec fn fields_view(s: Seq<Field>) -> Seq<SpecField>
    decreases s,
{
    if s.len() == 0 {
        Seq::empty()
    } else {
        seq![field_view(s[0])] + fields_view(s.skip(1))
    }
}

impl View for SchemaNode {
    type V = SpecNode;

    open spec fn view(&self) -> SpecNode {
        node_view(*self)
    }
}

impl View for Field {
    type V = SpecField;

    open spec fn view(&self) -> SpecField {
        field_view(*self)
    }
}

impl View for Record {
    type V = Seq<SpecField>;

    open spec fn view(&self) -> Seq<SpecField> {
        fields_view(self.fields@)
    }
}

/// [`nodes_view`] is the pointwise model.
pub proof fn lemma_nodes_view(s: Seq<SchemaNode>)
    ensures
        nodes_view(s).len() == s.len(),
        forall|i: int| 0 <= i < s.len() ==> nodes_view(s)[i] == node_view(s[i]),
    decreases s,
{
    if s.len() > 0 {
        lemma_nodes_view(s.skip(1));
    }
}

/// [`fields_view`] is the pointwise model.
pub proof fn lemma_fields_view(s: Seq<Field>)
    ensures
        fields_view(s).len() == s.len(),
        forall|i: int| 0 <= i < s.len() ==> fields_view(s)[i] == field_view(s[i]),
    decreases s,
{
    if s.len() > 0 {
        lemma_fields_view(s.skip(1));
    }
}

/// Replacing one field replaces one entry of the model.
pub proof fn lemma_fields_view_update(s: Seq<Field>, k: int, f: Field)
    requires
        0 <= k < s.len(),
    ensures
        fields_view(s.update(k, f)) == fields_view(s).update(k, field_view(f)),
{
    lemma_fields_view(s);
    lemma_fields_view(s.update(k, f));
    assert(fields_view(s.update(k, f)) =~= fields_view(s).update(k, field_view(f)));
}

/// The position of the first field called `name`, or a negative value if
/// there is none.
pub open spec fn field_index_spec(fs: Seq<SpecField>, name: Seq<char>) -> int
    decreases fs,
{
    if fs.len() == 0 {
        -1
    } else if fs[0].name == name {
        0
    } else {
        let r = field_index_spec(fs.skip(1), name);
        if r < 0 {
            -1
        } else {
            r + 1
        }
    }
}

/// What [`field_index_spec`] finds really is the first field of that name.
pub proof fn lemma_field_index(fs: Seq<SpecField>, name: Seq<char>)
    ensures
        ({
            let r = field_index_spec(fs, name);
            &&& (r < 0 <==> forall|k: int| 0 <= k < fs.len() ==> fs[k].name != name)
            &&& (r >= 0 ==> 0 <= r < fs.len() && fs[r].name == name && forall|k: int|
                0 <= k < r ==> fs[k].name != name)
        }),
    decreases fs,
{
    if fs.len() > 0 && fs[0].name != name {
        lemma_field_index(fs.skip(1), name);
        assert(forall|k: int| 1 <= k < fs.len() ==> fs[k] == fs.skip(1)[k - 1]);
    }
}

/// Finds the first field called `name`, as [`field_index_spec`] describes.
pub fn find_field(fields: &Vec<Field>, name: &String) -> (r: Option<usize>)
    ensures
        match r {
            None => field_index_spec(fields_view(fields@), name@) < 0,
            Some(k) => 0 <= k < fields@.len() && field_index_spec(fields_view(fields@), name@)
                == k as int,
        },
{
    proof {
        lemma_fields_view(fields@);
        lemma_field_index(fields_view(fields@), name@);
    }
    let n = fields.len();
    let mut j: usize = 0;
    while j < n
        invariant
            0 <= j <= n,
            n == fields@.len(),
            forall|k: int| 0 <= k < j ==> fields_view(fields@)[k].name != name@,
            fields_view(fields@).len() == n,
            forall|i: int| 0 <= i < n ==> fields_view(fields@)[i] == field_view(fields@[i]),
        decreases n - j,
    {
        if fields[j].name == *name {
            proof {
                lemma_field_index(fields_view(fields@), name@);
                let fv = fields_view(fields@);
                let r = field_index_spec(fv, name@);
                assert(fv[j as int].name == name@);
                if r < 0 {
                    assert(fv[j as int].name != name@);
                }
                if 0 <= r < j as int {
                    assert(fv[r].name != name@);
                }
                if r > j as int {
                    assert(fv[j as int].name != name@);
                }
            }
            return Some(j);
        }
        j = j + 1;
    }
    proof {
        lemma_field_index(fields_view(fields@), name@);
    }
    None
}

/// Builds a structurally fresh copy of a tree with the same model.
pub fn clone_node(n: &SchemaNode) -> (r: SchemaNode)
    ensures
        r@ == n@,
    decreases *n,
{
    match n {
        SchemaNode::Scalar(s) => SchemaNode::Scalar(s.clone()),
        SchemaNode::Tuple(cs) => {
            let copies = clone_nodes(cs);
            SchemaNode::Tuple(copies)
        },
        SchemaNode::List(cs) => {
            let copies = clone_nodes(cs);
            SchemaNode::List(copies)
        },
        SchemaNode::Record(r) => {
            let copies = clone_fields(&r.fields);
            SchemaNode::Record(Record { fields: copies })
        },
    }
}

/// Builds a fresh copy of a sequence of children with the same models.
pub fn clone_nodes(cs: &Vec<SchemaNode>) -> (r: Vec<SchemaNode>)
    ensures
        nodes_view(r@) == nodes_view(cs@),
    decreases *cs,
{
    let n = cs.len();
    let mut out: Vec<SchemaNode> = Vec::new();
    let mut i: usize = 0;
    while i < n
        invariant
            0 <= i <= n,
            n == cs@.len(),
            out@.len() == i,
            forall|k: int| 0 <= k < i ==> node_view(#[trigger] out@[k]) == node_view(cs@[k]),
        decreases n - i,
    {
        proof {
            assert(decreases_to!(*cs => cs@[i as int]));
        }
        let c = clone_node(&cs[i]);
        out.push(c);
        i = i + 1;
    }
    proof {
        lemma_nodes_view(out@);
        lemma_nodes_view(cs@);
        assert(nodes_view(out@) =~= nodes_view(cs@));
    }
    out
}

/// Builds a fresh copy of a sequence of fields with the same models.
pub fn clone_fields(fs: &Vec<Field>) -> (r: Vec<Field>)
    ensures
        fields_view(r@) == fields_view(fs@),
    decreases *fs,
{
    let n = fs.len();
    let mut out: Vec<Field> = Vec::new();
    let mut i: usize = 0;
    while i < n
        invariant
            0 <= i <= n,
            n == fs@.len(),
            out@.len() == i,
            forall|k: int| 0 <= k < i ==> field_view(#[trigger] out@[k]) == field_view(fs@[k]),
        decreases n - i,
    {
        proof {
            assert(decreases_to!(*fs => fs@[i as int].node));
        }
        let c = clone_node(&fs[i].node);
        let f = Field { name: fs[i].name.clone(), node: c };
        out.push(f);
        i = i + 1;
    }
    proof {
        lemma_fields_view(out@);
        lemma_fields_view(fs@);
        assert(fields_view(out@) =~= fields_view(fs@));
    }
    out
}

/// Decides whether two trees have the same model.
pub fn node_eq(a: &SchemaNode, b: &SchemaNode) -> (r: bool)
    ensures
        r == (a@ == b@),
    decreases *a,
{
    match (a, b) {
        (SchemaNode::Scalar(x), SchemaNode::Scalar(y)) => *x == *y,
        (SchemaNode::Tuple(xs), SchemaNode::Tuple(ys)) => nodes_eq(xs, ys),
        (SchemaNode::List(xs), SchemaNode::List(ys)) => nodes_eq(xs, ys),
        (SchemaNode::Record(x), SchemaNode::Record(y)) => fields_eq(&x.fields, &y.fields),
        _ => {
            proof {
                assert(a@ != b@);
            }
            false
        },
    }
}

/// Decides whether two sequences of children have the same models.
pub fn nodes_eq(xs: &Vec<SchemaNode>, ys: &Vec<SchemaNode>) -> (r: bool)
    ensures
        r == (nodes_view(xs@) == nodes_view(ys@)),
    decreases *xs,
{
    proof {
        lemma_nodes_view(xs@);
        lemma_nodes_view(ys@);
    }
    if xs.len() != ys.len() {
        return false;
    }
    let n = xs.len();
    let mut i: usize = 0;
    while i < n
        invariant
            0 <= i <= n,
            n == xs@.len(),
            n == ys@.len(),
            nodes_view(xs@).len() == n,
            nodes_view(ys@).len() == n,
            forall|k: int| 0 <= k < n ==> nodes_view(xs@)[k] == node_view(xs@[k]),
            forall|k: int| 0 <= k < n ==> nodes_view(ys@)[k] == node_view(ys@[k]),
            forall|k: int| 0 <= k < i ==> node_view(xs@[k]) == node_view(ys@[k]),
        decreases n - i,
    {
        proof {
            assert(decreases_to!(*xs => xs@[i as int]));
        }
        if !node_eq(&xs[i], &ys[i]) {
            proof {
                assert(nodes_view(xs@)[i as int] != nodes_view(ys@)[i as int]);
                assert(nodes_view(xs@) != nodes_view(ys@));
            }
            return false;
        }
        i = i + 1;
    }
    proof {
        assert(nodes_view(xs@) =~= nodes_view(ys@));
    }
    true
}

/// Decides whether two sequences of fields have the same models.
pub fn fields_eq(xs: &Vec<Field>, ys: &Vec<Field>) -> (r: bool)
    ensures
        r == (fields_view(xs@) == fields_view(ys@)),
    decreases *xs,
{
    proof {
        lemma_fields_view(xs@);
        lemma_fields_view(ys@);
    }
    if xs.len() != ys.len() {
        return false;
    }
    let n = xs.len();
    let mut i: usize = 0;
    while i < n
        invariant
            0 <= i <= n,
            n == xs@.len(),
            n == ys@.len(),
            fields_view(xs@).len() == n,
            fields_view(ys@).len() == n,
            forall|k: int| 0 <= k < n ==> fields_view(xs@)[k] == field_view(xs@[k]),
            forall|k: int| 0 <= k < n ==> fields_view(ys@)[k] == field_view(ys@[k]),
            forall|k: int| 0 <= k < i ==> field_view(xs@[k]) == field_view(ys@[k]),
        decreases n - i,
    {
        proof {
            assert(decreases_to!(*xs => xs@[i as int].node));
        }
        if !(xs[i].name == ys[i].name) {
            proof {
                assert(field_view(xs@[i as int]) != field_view(ys@[i as int]));
                assert(fields_view(xs@)[i as int] != fields_view(ys@)[i as int]);
                assert(fields_view(xs@) != fields_view(ys@));
            }
            return false;
        }
        if !node_eq(&xs[i].node, &ys[i].node) {
            proof {
                assert(field_view(xs@[i as int]) != field_view(ys@[i as int]));
                assert(fields_view(xs@)[i as int] != fields_view(ys@)[i as int]);
                assert(fields_view(xs@) != fields_view(ys@));
            }
            return false;
        }
        i = i + 1;
    }
    proof {
        assert(fields_view(xs@) =~= fields_view(ys@));
    }
    true
}

/// Decides whether two records have the same model.
pub fn record_eq(a: &Record, b: &Record) -> (r: bool)
    ensures
        r == (a@ == b@),
{
    fields_eq(&a.fields, &b.fields)
}

} // verus!
