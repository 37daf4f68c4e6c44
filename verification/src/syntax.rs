//! The syntax tree of a CEA script as plain values: nodes in an arena,
//! each with its kind, byte span, row/column points, field name and children.
use vstd::prelude::*;
use crate::text::{Position, Range, point_position, slice_text, lsp_position, slice_string};

verus! {

/// The node kinds of the CEA grammar that the analyses inspect.
#[derive(Clone, Copy, Debug, PartialEq, Eq, Structural)]
pub enum NodeKind {
    SectionHeader,
    AaCommand,
    LuaChunk,
    LabelDefinition,
    LabelDefinitionLine,
    InvalidLabelDefinitionLine,
    Operation,
    Identifier,
    ArgumentList,
    TypeCast,
    TypedNumber,
    Number,
    Other,
}

/// The field names by which a node can be attached to its parent.
#[derive(Clone, Copy, Debug, PartialEq, Eq, Structural)]
pub enum FieldName {
    Name,
    Arguments,
    Other,
}

/// A row and a byte column, as the parser reports node boundaries.
#[derive(Clone, Copy, Debug, PartialEq, Eq, Structural)]
pub struct Point {
    pub row: usize,
    pub column: usize,
}

pub struct SyntaxNode {
    pub kind: NodeKind,
    /// The grammar's name for the kind, used in messages about missing nodes.
    pub kind_name: String,
    pub is_named: bool,
    pub is_error: bool,
    pub is_missing: bool,
    pub start_byte: usize,
    pub end_byte: usize,
    pub start_point: Point,
    pub end_point: Point,
    pub field: Option<FieldName>,
    pub parent: Option<usize>,
    /// Indices of all children, named and anonymous, in source order.
    pub children: Vec<usize>,
}

/// Node 0 is the root; every child comes after its parent and names it as parent.
pub open spec fn well_formed(n: Seq<SyntaxNode>) -> bool {
    &&& n.len() > 0
    &&& n[0].parent is None
    &&& forall|i: int, k: int|
        #![trigger n[i].children@[k]]
        0 <= i < n.len() && 0 <= k < n[i].children@.len() ==> i < n[i].children@[k] < n.len()
            && n[n[i].children@[k] as int].parent == Some(i as usize)
    &&& forall|i: int|
        #![trigger n[i].parent]
        0 <= i < n.len() ==> (n[i].parent matches Some(p) ==> p < i)
}

pub struct SyntaxTree {
    nodes: Vec<SyntaxNode>,
}

impl SyntaxTree {
    #[verifier::type_invariant]
    spec fn inv(self) -> bool {
        well_formed(self.nodes@)
    }

    pub closed spec fn nodes_view(&self) -> Seq<SyntaxNode> {
        self.nodes@
    }

    /// Builds a tree when the nodes are well formed.
    pub fn new(nodes: Vec<SyntaxNode>) -> (r: Option<SyntaxTree>)
        ensures
            r matches Some(t) ==> t.nodes_view() == nodes@ && well_formed(nodes@),
            r is None ==> !well_formed(nodes@),
    {
        if nodes.len() == 0 || nodes[0].parent.is_some() {
            return None;
        }
        let mut i: usize = 0;
        while i < nodes.len()
            invariant
                i <= nodes@.len(),
                nodes@.len() > 0,
                forall|a: int, k: int|
                    #![trigger nodes@[a].children@[k]]
                    0 <= a < i && 0 <= k < nodes@[a].children@.len() ==> a < nodes@[a].children@[k]
                        < nodes@.len() && nodes@[nodes@[a].children@[k] as int].parent == Some(
                        a as usize,
                    ),
                forall|a: int|
                    #![trigger nodes@[a].parent]
                    0 <= a < i ==> (nodes@[a].parent matches Some(p) ==> p < a),
            decreases nodes@.len() - i,
        {
            let node = &nodes[i];
            match node.parent {
                Some(p) => {
                    if p >= i {
                        return None;
                    }
                },
                None => {},
            }
            let mut k: usize = 0;
            while k < node.children.len()
                invariant
                    i < nodes@.len(),
                    *node == nodes@[i as int],
                    k <= node.children@.len(),
                    forall|q: int|
                        #![trigger nodes@[i as int].children@[q]]
                        0 <= q < k ==> i < nodes@[i as int].children@[q] < nodes@.len()
                            && nodes@[nodes@[i as int].children@[q] as int].parent == Some(i),
                decreases node.children@.len() - k,
            {
                let c = node.children[k];
                if c <= i || c >= nodes.len() {
                    return None;
                }
                if nodes[c].parent != Some(i) {
                    return None;
                }
                k = k + 1;
            }
            i = i + 1;
        }
        Some(SyntaxTree { nodes })
    }

    pub fn len(&self) -> (r: usize)
        ensures
            r == self.nodes_view().len(),
            r > 0,
    {
        proof {
            use_type_invariant(self);
        }
        self.nodes.len()
    }

    pub fn node(&self, i: usize) -> (r: &SyntaxNode)
        requires
            i < self.nodes_view().len(),
        ensures
            *r == self.nodes_view()[i as int],
    {
        &self.nodes[i]
    }

    /// Index of the `k`-th child of node `i`; children come after their parent.
    pub fn child(&self, i: usize, k: usize) -> (r: usize)
        requires
            i < self.nodes_view().len(),
            k < self.nodes_view()[i as int].children@.len(),
        ensures
            r == self.nodes_view()[i as int].children@[k as int],
            i < r < self.nodes_view().len(),
    {
        proof {
            use_type_invariant(self);
        }
        self.nodes[i].children[k]
    }

    /// The parent of node `i`, which comes before it.
    pub fn parent(&self, i: usize) -> (r: Option<usize>)
        requires
            i < self.nodes_view().len(),
        ensures
            r == self.nodes_view()[i as int].parent,
            r matches Some(p) ==> p < i,
    {
        proof {
            use_type_invariant(self);
        }
        self.nodes[i].parent
    }
}

/// The first child of node `i` attached under `field` (as `Node::child_by_field_name`).
pub open spec fn field_child_from(n: Seq<SyntaxNode>, i: int, field: FieldName, k: int) -> Option<int>
    decreases n[i].children@.len() - k,
{
    if 0 <= i < n.len() && 0 <= k < n[i].children@.len() {
        let c = n[i].children@[k] as int;
        if 0 <= c < n.len() && n[c].field == Some(field) {
            Some(c)
        } else {
            field_child_from(n, i, field, k + 1)
        }
    } else {
        None
    }
}

pub open spec fn field_child(n: Seq<SyntaxNode>, i: int, field: FieldName) -> Option<int> {
    field_child_from(n, i, field, 0)
}

/// The first named child of node `i` of kind `kind`.
pub open spec fn named_kind_child_from(n: Seq<SyntaxNode>, i: int, kind: NodeKind, k: int) -> Option<int>
    decreases n[i].children@.len() - k,
{
    if 0 <= i < n.len() && 0 <= k < n[i].children@.len() {
        let c = n[i].children@[k] as int;
        if 0 <= c < n.len() && n[c].is_named && n[c].kind == kind {
            Some(c)
        } else {
            named_kind_child_from(n, i, kind, k + 1)
        }
    } else {
        None
    }
}

/// The first named child of node `i`.
pub open spec fn first_named_child_from(n: Seq<SyntaxNode>, i: int, k: int) -> Option<int>
    decreases n[i].children@.len() - k,
{
    if 0 <= i < n.len() && 0 <= k < n[i].children@.len() {
        let c = n[i].children@[k] as int;
        if 0 <= c < n.len() && n[c].is_named {
            Some(c)
        } else {
            first_named_child_from(n, i, k + 1)
        }
    } else {
        None
    }
}

/// The argument list of a command: its `arguments` field, or else its first
/// named `argument_list` child.
pub open spec fn argument_list(n: Seq<SyntaxNode>, i: int) -> Option<int> {
    match field_child(n, i, FieldName::Arguments) {
        Some(a) => Some(a),
        None => named_kind_child_from(n, i, NodeKind::ArgumentList, 0),
    }
}

/// The named children of node `i` from the `k`-th child on.
pub open spec fn named_children_from(n: Seq<SyntaxNode>, i: int, k: int) -> Seq<int>
    decreases n[i].children@.len() - k,
{
    if 0 <= i < n.len() && 0 <= k < n[i].children@.len() {
        let c = n[i].children@[k] as int;
        (if 0 <= c < n.len() && n[c].is_named {
            seq![c]
        } else {
            Seq::empty()
        }) + named_children_from(n, i, k + 1)
    } else {
        Seq::empty()
    }
}

/// The source text of node `i`.
pub open spec fn node_text(src: Seq<u8>, n: Seq<SyntaxNode>, i: int) -> Option<Seq<char>> {
    slice_text(src, n[i].start_byte as int, n[i].end_byte as int)
}

/// The LSP range of node `i`.
pub open spec fn node_range(src: Seq<u8>, n: Seq<SyntaxNode>, i: int) -> Range {
    Range {
        start: point_position(src, n[i].start_point.row as nat, n[i].start_point.column as nat),
        end: point_position(src, n[i].end_point.row as nat, n[i].end_point.column as nat),
    }
}

impl SyntaxTree {
    pub fn field_child(&self, i: usize, field: FieldName) -> (r: Option<usize>)
        requires
            i < self.nodes_view().len(),
        ensures
            r matches Some(c) ==> field_child(self.nodes_view(), i as int, field) == Some(c as int)
                && i < c < self.nodes_view().len(),
            r is None ==> field_child(self.nodes_view(), i as int, field) is None,
    {
        let ghost n = self.nodes_view();
        let count = self.node(i).children.len();
        let mut k: usize = 0;
        while k < count
            invariant
                i < n.len(),
                n == self.nodes_view(),
                count == n[i as int].children@.len(),
                k <= count,
                field_child_from(n, i as int, field, k as int) == field_child(n, i as int, field),
            decreases count - k,
        {
            let c = self.child(i, k);
            if self.node(c).field == Some(field) {
                return Some(c);
            }
            k = k + 1;
        }
        None
    }

    pub fn named_kind_child(&self, i: usize, kind: NodeKind) -> (r: Option<usize>)
        requires
            i < self.nodes_view().len(),
        ensures
            r matches Some(c) ==> named_kind_child_from(self.nodes_view(), i as int, kind, 0) == Some(c as int)
                && i < c < self.nodes_view().len(),
            r is None ==> named_kind_child_from(self.nodes_view(), i as int, kind, 0) is None,
    {
        let ghost n = self.nodes_view();
        let count = self.node(i).children.len();
        let mut k: usize = 0;
        while k < count
            invariant
                i < n.len(),
                n == self.nodes_view(),
                count == n[i as int].children@.len(),
                k <= count,
                named_kind_child_from(n, i as int, kind, k as int) == named_kind_child_from(
                    n,
                    i as int,
                    kind,
                    0,
                ),
            decreases count - k,
        {
            let c = self.child(i, k);
            let node = self.node(c);
            if node.is_named && node.kind == kind {
                return Some(c);
            }
            k = k + 1;
        }
        None
    }

    pub fn first_named_child(&self, i: usize) -> (r: Option<usize>)
        requires
            i < self.nodes_view().len(),
        ensures
            r matches Some(c) ==> first_named_child_from(self.nodes_view(), i as int, 0) == Some(c as int)
                && i < c < self.nodes_view().len(),
            r is None ==> first_named_child_from(self.nodes_view(), i as int, 0) is None,
    {
        let ghost n = self.nodes_view();
        let count = self.node(i).children.len();
        let mut k: usize = 0;
        while k < count
            invariant
                i < n.len(),
                n == self.nodes_view(),
                count == n[i as int].children@.len(),
                k <= count,
                first_named_child_from(n, i as int, k as int) == first_named_child_from(n, i as int, 0),
            decreases count - k,
        {
            let c = self.child(i, k);
            if self.node(c).is_named {
                return Some(c);
            }
            k = k + 1;
        }
        None
    }

    pub fn argument_list(&self, i: usize) -> (r: Option<usize>)
        requires
            i < self.nodes_view().len(),
        ensures
            r matches Some(c) ==> argument_list(self.nodes_view(), i as int) == Some(c as int) && i < c
                < self.nodes_view().len(),
            r is None ==> argument_list(self.nodes_view(), i as int) is None,
    {
        match self.field_child(i, FieldName::Arguments) {
            Some(a) => Some(a),
            None => self.named_kind_child(i, NodeKind::ArgumentList),
        }
    }

    /// The named children of node `i`, in order.
    pub fn named_children(&self, i: usize) -> (r: Vec<usize>)
        requires
            i < self.nodes_view().len(),
        ensures
            r@.map_values(|c: usize| c as int) == named_children_from(self.nodes_view(), i as int, 0),
            forall|j: int| 0 <= j < r@.len() ==> i < #[trigger] r@[j] < self.nodes_view().len(),
    {
        let ghost n = self.nodes_view();
        let count = self.node(i).children.len();
        let mut out: Vec<usize> = Vec::new();
        let mut k: usize = 0;
        while k < count
            invariant
                i < n.len(),
                n == self.nodes_view(),
                count == n[i as int].children@.len(),
                k <= count,
                out@.map_values(|c: usize| c as int) + named_children_from(n, i as int, k as int)
                    == named_children_from(n, i as int, 0),
                forall|j: int| 0 <= j < out@.len() ==> i < #[trigger] out@[j] < n.len(),
            decreases count - k,
        {
            let ghost before = out@.map_values(|c: usize| c as int);
            let c = self.child(i, k);
            if self.node(c).is_named {
                out.push(c);
                assert(out@.map_values(|c: usize| c as int) =~= before + seq![c as int]);
            } else {
                assert(out@.map_values(|c: usize| c as int) =~= before);
            }
            assert(named_children_from(n, i as int, k as int) == (if n[c as int].is_named {
                seq![c as int]
            } else {
                Seq::empty()
            }) + named_children_from(n, i as int, k + 1));
            k = k + 1;
        }
        out
    }

    /// The source text of node `i`.
    pub fn text(&self, src: &[u8], i: usize) -> (r: Option<String>)
        requires
            i < self.nodes_view().len(),
        ensures
            r matches Some(s) ==> node_text(src@, self.nodes_view(), i as int) == Some(s@),
            r is None ==> node_text(src@, self.nodes_view(), i as int) is None,
    {
        let node = self.node(i);
        slice_string(src, node.start_byte, node.end_byte)
    }

    /// The LSP range of node `i`.
    pub fn range(&self, src: &[u8], i: usize) -> (r: Range)
        requires
            i < self.nodes_view().len(),
        ensures
            r == node_range(src@, self.nodes_view(), i as int),
    {
        let node = self.node(i);
        Range {
            start: lsp_position(src, node.start_point.row, node.start_point.column),
            end: lsp_position(src, node.end_point.row, node.end_point.column),
        }
    }
}

} // verus!
