//! Symbol occurrences of one CEA document: declarations, definitions,
//! registrations and references, collected from its syntax tree.
use vstd::prelude::*;
use vstd::string::StringSliceAdditionalSpecFns;
use crate::text::{Position, Range, ascii_lowercase, lower_chars, slice_string, slice_text, at_boundary, is_boundary, slice_range, byte_position, offset_position};
use crate::syntax::{SyntaxTree, NodeKind, FieldName, field_child, argument_list, named_children_from, node_text, node_range};
use crate::lua_scan::{address_arguments_from, lua_address_arguments};

verus! {

#[derive(Clone, Copy, Debug, PartialEq, Eq, Hash, Structural)]
pub enum CeaSymbolKind {
    Label,
    Allocation,
    Definition,
    Registered,
}

#[derive(Clone, Copy, Debug, PartialEq, Eq, Hash, Structural)]
pub enum OccurrenceRole {
    Declaration,
    Definition,
    Reference,
    Registration,
}

#[derive(Debug)]
pub struct SymbolOccurrence {
    pub name: String,
    pub range: Range,
    pub kind: CeaSymbolKind,
    pub role: OccurrenceRole,
    pub strict_reference: bool,
}

pub ghost struct OccurrenceView {
    pub name: Seq<char>,
    pub range: Range,
    pub kind: CeaSymbolKind,
    pub role: OccurrenceRole,
    pub strict_reference: bool,
}

impl View for SymbolOccurrence {
    type V = OccurrenceView;

    open spec fn view(&self) -> OccurrenceView {
        OccurrenceView {
            name: self.name@,
            range: self.range,
            kind: self.kind,
            role: self.role,
            strict_reference: self.strict_reference,
        }
    }
}

impl SymbolOccurrence {
    pub fn duplicate(&self) -> (r: SymbolOccurrence)
        ensures
            r@ == self@,
    {
        SymbolOccurrence {
            name: self.name.clone(),
            range: self.range,
            kind: self.kind,
            role: self.role,
            strict_reference: self.strict_reference,
        }
    }
}

pub open spec fn views(s: Seq<SymbolOccurrence>) -> Seq<OccurrenceView> {
    s.map_values(|o: SymbolOccurrence| o@)
}

/// An occurrence of node `c` when the node has text.
pub open spec fn node_occurrence(
    src: Seq<u8>,
    n: Seq<crate::syntax::SyntaxNode>,
    c: int,
    kind: CeaSymbolKind,
    role: OccurrenceRole,
    strict: bool,
) -> Seq<OccurrenceView> {
    match node_text(src, n, c) {
        Some(t) => seq![
            OccurrenceView {
                name: t,
                range: node_range(src, n, c),
                kind,
                role,
                strict_reference: strict,
            },
        ],
        None => Seq::empty(),
    }
}

/// An occurrence of each node in `args`.
pub open spec fn each_occurrence(
    src: Seq<u8>,
    n: Seq<crate::syntax::SyntaxNode>,
    args: Seq<int>,
    kind: CeaSymbolKind,
    role: OccurrenceRole,
    strict: bool,
) -> Seq<OccurrenceView>
    decreases args.len(),
{
    if args.len() == 0 {
        Seq::empty()
    } else {
        each_occurrence(src, n, args.drop_last(), kind, role, strict) + node_occurrence(
            src,
            n,
            args.last(),
            kind,
            role,
            strict,
        )
    }
}

/// A label reference for each identifier node in `args`.
pub open spec fn identifier_refs(
    src: Seq<u8>,
    n: Seq<crate::syntax::SyntaxNode>,
    args: Seq<int>,
    strict: bool,
) -> Seq<OccurrenceView>
    decreases args.len(),
{
    if args.len() == 0 {
        Seq::empty()
    } else {
        identifier_refs(src, n, args.drop_last(), strict) + if n[args.last()].kind
            == NodeKind::Identifier {
            node_occurrence(src, n, args.last(), CeaSymbolKind::Label, OccurrenceRole::Reference, strict)
        } else {
            Seq::empty()
        }
    }
}

/// The argument nodes of a command.
pub open spec fn command_arguments(n: Seq<crate::syntax::SyntaxNode>, i: int) -> Seq<int> {
    match argument_list(n, i) {
        Some(a) => named_children_from(n, a, 0),
        None => Seq::empty(),
    }
}

/// What a command contributes: `alloc`/`globalalloc` and `define` declare
/// their first argument and reference identifiers among the rest, `label`
/// declares labels, `registersymbol` registers symbols, `dealloc` and
/// `unregistersymbol` make strict references, other commands plain ones.
pub open spec fn command_occurrences(src: Seq<u8>, n: Seq<crate::syntax::SyntaxNode>, i: int) -> Seq<
    OccurrenceView,
> {
    match field_child(n, i, FieldName::Name) {
        None => Seq::empty(),
        Some(nm) => match node_text(src, n, nm) {
            None => Seq::empty(),
            Some(cmd) => {
                let args = command_arguments(n, i);
                let lower = lower_chars(cmd);
                if lower == "alloc"@ || lower == "globalalloc"@ {
                    (if args.len() > 0 {
                        node_occurrence(
                            src,
                            n,
                            args[0],
                            CeaSymbolKind::Allocation,
                            OccurrenceRole::Declaration,
                            false,
                        )
                    } else {
                        Seq::empty()
                    }) + identifier_refs(
                        src,
                        n,
                        args.subrange(if args.len() < 2 { args.len() as int } else { 2 }, args.len() as int),
                        false,
                    )
                } else if lower == "define"@ {
                    (if args.len() > 0 {
                        node_occurrence(
                            src,
                            n,
                            args[0],
                            CeaSymbolKind::Definition,
                            OccurrenceRole::Declaration,
                            false,
                        )
                    } else {
                        Seq::empty()
                    }) + identifier_refs(
                        src,
                        n,
                        args.subrange(if args.len() < 1 { args.len() as int } else { 1 }, args.len() as int),
                        false,
                    )
                } else if lower == "label"@ {
                    each_occurrence(src, n, args, CeaSymbolKind::Label, OccurrenceRole::Declaration, false)
                } else if lower == "registersymbol"@ {
                    each_occurrence(
                        src,
                        n,
                        args,
                        CeaSymbolKind::Registered,
                        OccurrenceRole::Registration,
                        true,
                    )
                } else if lower == "dealloc"@ || lower == "unregistersymbol"@ {
                    identifier_refs(src, n, args, true)
                } else {
                    identifier_refs(src, n, args, false)
                }
            },
        },
    }
}

/// `s` without the value `v`.
pub open spec fn without(s: Seq<int>, v: int) -> Seq<int>
    decreases s.len(),
{
    if s.len() == 0 {
        s
    } else {
        without(s.drop_last(), v) + if s.last() == v {
            Seq::empty()
        } else {
            seq![s.last()]
        }
    }
}

/// Identifiers among the operands of an operation are label references.
pub open spec fn operation_occurrences(src: Seq<u8>, n: Seq<crate::syntax::SyntaxNode>, i: int) -> Seq<
    OccurrenceView,
> {
    match field_child(n, i, FieldName::Name) {
        None => Seq::empty(),
        Some(nm) => identifier_refs(src, n, without(named_children_from(n, i, 0), nm), false),
    }
}

/// `str::get(start..end)` succeeds.
pub open spec fn span_ok(src: Seq<u8>, start: int, end: int) -> bool {
    0 <= start <= end <= src.len() && at_boundary(src, start) && at_boundary(src, end)
}

/// Strict registered-symbol references for the names found in a Lua chunk
/// that starts at byte `base`.
pub open spec fn lua_refs(src: Seq<u8>, base: int, chunk: Seq<u8>, args: Seq<(int, int)>) -> Seq<
    OccurrenceView,
>
    decreases args.len(),
{
    if args.len() == 0 {
        Seq::empty()
    } else {
        let (vs, ve) = args.last();
        lua_refs(src, base, chunk, args.drop_last()) + match slice_text(chunk, vs, ve) {
            Some(name) => seq![
                OccurrenceView {
                    name,
                    range: Range {
                        start: offset_position(src, (base + vs) as nat),
                        end: offset_position(src, (base + ve) as nat),
                    },
                    kind: CeaSymbolKind::Registered,
                    role: OccurrenceRole::Reference,
                    strict_reference: true,
                },
            ],
            None => Seq::empty(),
        }
    }
}

/// Address calls in a Lua chunk reference registered CEA symbols.
pub open spec fn lua_occurrences(src: Seq<u8>, n: Seq<crate::syntax::SyntaxNode>, i: int) -> Seq<
    OccurrenceView,
> {
    let (s, e) = (n[i].start_byte as int, n[i].end_byte as int);
    if span_ok(src, s, e) {
        let chunk = src.subrange(s, e);
        lua_refs(src, s, chunk, address_arguments_from(chunk, 0))
    } else {
        Seq::empty()
    }
}

/// What node `i` itself contributes.
pub open spec fn own_occurrences(src: Seq<u8>, n: Seq<crate::syntax::SyntaxNode>, i: int) -> Seq<
    OccurrenceView,
> {
    if n[i].kind == NodeKind::LabelDefinition {
        match field_child(n, i, FieldName::Name) {
            Some(nm) => node_occurrence(
                src,
                n,
                nm,
                CeaSymbolKind::Label,
                OccurrenceRole::Definition,
                false,
            ),
            None => Seq::empty(),
        }
    } else if n[i].kind == NodeKind::AaCommand {
        command_occurrences(src, n, i)
    } else if n[i].kind == NodeKind::Operation {
        operation_occurrences(src, n, i)
    } else {
        Seq::empty()
    }
}

/// All occurrences in the subtree of node `i`, in document order; a Lua
/// chunk contributes only its address references.
pub open spec fn subtree_occurrences(src: Seq<u8>, n: Seq<crate::syntax::SyntaxNode>, i: int) -> Seq<
    OccurrenceView,
>
    decreases n.len() - i, 1int, 0int,
{
    if i < 0 || i >= n.len() {
        Seq::empty()
    } else if n[i].kind == NodeKind::LuaChunk {
        lua_occurrences(src, n, i)
    } else {
        own_occurrences(src, n, i) + children_occurrences(src, n, i, 0)
    }
}

pub open spec fn children_occurrences(
    src: Seq<u8>,
    n: Seq<crate::syntax::SyntaxNode>,
    i: int,
    k: int,
) -> Seq<OccurrenceView>
    decreases n.len() - i, 0int, n[i].children@.len() - k,
{
    if 0 <= i < n.len() && 0 <= k < n[i].children@.len() {
        let c = n[i].children@[k] as int;
        (if i < c < n.len() && n[c].is_named {
            subtree_occurrences(src, n, c)
        } else {
            Seq::empty()
        }) + children_occurrences(src, n, i, k + 1)
    } else {
        Seq::empty()
    }
}

/// An `alloc` or `globalalloc` command (in any letter case) declares an
/// allocation named by its first argument: the first occurrence the command
/// contributes is that argument's text and range, of kind allocation and
/// role declaration, not a strict reference.
pub proof fn law_allocations_declare_their_first_argument(
    src: Seq<u8>,
    n: Seq<crate::syntax::SyntaxNode>,
    i: int,
    nm: int,
    command: Seq<char>,
    name: Seq<char>,
)
    requires
        0 <= i < n.len(),
        n[i].kind == NodeKind::AaCommand,
        field_child(n, i, FieldName::Name) == Some(nm),
        node_text(src, n, nm) == Some(command),
        lower_chars(command) == "alloc"@ || lower_chars(command) == "globalalloc"@,
        command_arguments(n, i).len() > 0,
        node_text(src, n, command_arguments(n, i)[0]) == Some(name),
    ensures
        subtree_occurrences(src, n, i).len() > 0,
        subtree_occurrences(src, n, i)[0] == (OccurrenceView {
            name,
            range: node_range(src, n, command_arguments(n, i)[0]),
            kind: CeaSymbolKind::Allocation,
            role: OccurrenceRole::Declaration,
            strict_reference: false,
        }),
{
    assert(n[i].kind != NodeKind::LuaChunk);
    assert(own_occurrences(src, n, i) == command_occurrences(src, n, i));
    assert(command_occurrences(src, n, i)[0] == subtree_occurrences(src, n, i)[0]);
}

fn push_occurrence(
    tree: &SyntaxTree,
    src: &[u8],
    c: usize,
    kind: CeaSymbolKind,
    role: OccurrenceRole,
    strict: bool,
    out: &mut Vec<SymbolOccurrence>,
)
    requires
        c < tree.nodes_view().len(),
    ensures
        views(final(out)@) == views(old(out)@) + node_occurrence(src@, tree.nodes_view(), c as int, kind, role, strict),
{
    if let Some(name) = tree.text(src, c) {
        let range = tree.range(src, c);
        out.push(SymbolOccurrence { name, range, kind, role, strict_reference: strict });
        assert(views(out@) =~= views(old(out)@) + node_occurrence(src@, tree.nodes_view(), c as int, kind, role, strict));
    } else {
        assert(views(out@) =~= views(old(out)@) + node_occurrence(src@, tree.nodes_view(), c as int, kind, role, strict));
    }
}

fn push_each(
    tree: &SyntaxTree,
    src: &[u8],
    args: &Vec<usize>,
    from: usize,
    identifiers_only: bool,
    kind: CeaSymbolKind,
    role: OccurrenceRole,
    strict: bool,
    out: &mut Vec<SymbolOccurrence>,
)
    requires
        from <= args@.len(),
        forall|j: int| 0 <= j < args@.len() ==> #[trigger] args@[j] < tree.nodes_view().len(),
        identifiers_only ==> kind == CeaSymbolKind::Label && role == OccurrenceRole::Reference,
    ensures
        ({
            let s = args@.map_values(|c: usize| c as int).subrange(from as int, args@.len() as int);
            views(final(out)@) == views(old(out)@) + if identifiers_only {
                identifier_refs(src@, tree.nodes_view(), s, strict)
            } else {
                each_occurrence(src@, tree.nodes_view(), s, kind, role, strict)
            }
        }),
{
    let ghost all = args@.map_values(|c: usize| c as int);
    let ghost n = tree.nodes_view();
    let mut j = from;
    while j < args.len()
        invariant
            from <= j <= args@.len(),
            n == tree.nodes_view(),
            all == args@.map_values(|c: usize| c as int),
            forall|q: int| 0 <= q < args@.len() ==> #[trigger] args@[q] < n.len(),
            identifiers_only ==> kind == CeaSymbolKind::Label && role == OccurrenceRole::Reference,
            views(out@) == views(old(out)@) + if identifiers_only {
                identifier_refs(src@, n, all.subrange(from as int, j as int), strict)
            } else {
                each_occurrence(src@, n, all.subrange(from as int, j as int), kind, role, strict)
            },
        decreases args@.len() - j,
    {
        let c = args[j];
        assert(all.subrange(from as int, j + 1).drop_last() =~= all.subrange(from as int, j as int));
        assert(all.subrange(from as int, j + 1).last() == c as int);
        if identifiers_only {
            if tree.node(c).kind == NodeKind::Identifier {
                push_occurrence(tree, src, c, kind, role, strict, out);
            } else {
                assert(identifier_refs(src@, n, all.subrange(from as int, j + 1), strict) =~= identifier_refs(src@, n, all.subrange(from as int, j as int), strict));
            }
        } else {
            push_occurrence(tree, src, c, kind, role, strict, out);
        }
        j = j + 1;
    }
}

fn text_is(s: &String, lit: &str) -> (r: bool)
    ensures
        r == (s@ == lit@),
{
    *s == String::from_str(lit)
}

fn collect_command(tree: &SyntaxTree, src: &[u8], i: usize, out: &mut Vec<SymbolOccurrence>)
    requires
        i < tree.nodes_view().len(),
    ensures
        views(final(out)@) == views(old(out)@) + command_occurrences(src@, tree.nodes_view(), i as int),
{
    let ghost n = tree.nodes_view();
    let name_node = match tree.field_child(i, FieldName::Name) {
        Some(c) => c,
        None => {
            assert(views(out@) =~= views(old(out)@) + command_occurrences(src@, n, i as int));
            return;
        },
    };
    let command = match tree.text(src, name_node) {
        Some(t) => t,
        None => {
            assert(views(out@) =~= views(old(out)@) + command_occurrences(src@, n, i as int));
            return;
        },
    };
    let arguments: Vec<usize> = match tree.argument_list(i) {
        Some(a) => tree.named_children(a),
        None => Vec::new(),
    };
    let ghost args = arguments@.map_values(|c: usize| c as int);
    assert(args == command_arguments(n, i as int));
    assert(args.subrange(0, args.len() as int) =~= args);
    let lower = ascii_lowercase(command.as_str());
    let len = arguments.len();
    if text_is(&lower, "alloc") || text_is(&lower, "globalalloc") {
        if len > 0 {
            push_occurrence(tree, src, arguments[0], CeaSymbolKind::Allocation, OccurrenceRole::Declaration, false, out);
        }
        let from = if len < 2 { len } else { 2 };
        push_each(tree, src, &arguments, from, true, CeaSymbolKind::Label, OccurrenceRole::Reference, false, out);
    } else if text_is(&lower, "define") {
        if len > 0 {
            push_occurrence(tree, src, arguments[0], CeaSymbolKind::Definition, OccurrenceRole::Declaration, false, out);
        }
        let from = if len < 1 { len } else { 1 };
        push_each(tree, src, &arguments, from, true, CeaSymbolKind::Label, OccurrenceRole::Reference, false, out);
    } else if text_is(&lower, "label") {
        push_each(tree, src, &arguments, 0, false, CeaSymbolKind::Label, OccurrenceRole::Declaration, false, out);
    } else if text_is(&lower, "registersymbol") {
        push_each(tree, src, &arguments, 0, false, CeaSymbolKind::Registered, OccurrenceRole::Registration, true, out);
    } else if text_is(&lower, "dealloc") || text_is(&lower, "unregistersymbol") {
        push_each(tree, src, &arguments, 0, true, CeaSymbolKind::Label, OccurrenceRole::Reference, true, out);
    } else {
        push_each(tree, src, &arguments, 0, true, CeaSymbolKind::Label, OccurrenceRole::Reference, false, out);
    }
}

fn collect_operation_references(tree: &SyntaxTree, src: &[u8], i: usize, out: &mut Vec<SymbolOccurrence>)
    requires
        i < tree.nodes_view().len(),
    ensures
        views(final(out)@) == views(old(out)@) + operation_occurrences(src@, tree.nodes_view(), i as int),
{
    let ghost n = tree.nodes_view();
    let name = match tree.field_child(i, FieldName::Name) {
        Some(c) => c,
        None => {
            assert(views(out@) =~= views(old(out)@) + operation_occurrences(src@, n, i as int));
            return;
        },
    };
    let children = tree.named_children(i);
    let ghost cs = children@.map_values(|c: usize| c as int);
    let mut arguments: Vec<usize> = Vec::new();
    let mut j: usize = 0;
    while j < children.len()
        invariant
            j <= children@.len(),
            cs == children@.map_values(|c: usize| c as int),
            arguments@.map_values(|c: usize| c as int) == without(cs.subrange(0, j as int), name as int),
            forall|q: int| 0 <= q < children@.len() ==> #[trigger] children@[q] < n.len(),
            forall|q: int| 0 <= q < arguments@.len() ==> #[trigger] arguments@[q] < n.len(),
        decreases children@.len() - j,
    {
        let ghost before = arguments@.map_values(|c: usize| c as int);
        assert(cs.subrange(0, j + 1).drop_last() =~= cs.subrange(0, j as int));
        if children[j] != name {
            arguments.push(children[j]);
            assert(arguments@.map_values(|c: usize| c as int) =~= before + seq![children@[j as int] as int]);
        } else {
            assert(arguments@.map_values(|c: usize| c as int) =~= before);
        }
        j = j + 1;
    }
    assert(cs.subrange(0, j as int) =~= cs);
    let ghost a = arguments@.map_values(|c: usize| c as int);
    assert(a.subrange(0, a.len() as int) =~= a);
    push_each(tree, src, &arguments, 0, true, CeaSymbolKind::Label, OccurrenceRole::Reference, false, out);
}

fn collect_lua_symbol_references(tree: &SyntaxTree, src: &[u8], i: usize, out: &mut Vec<SymbolOccurrence>)
    requires
        i < tree.nodes_view().len(),
    ensures
        views(final(out)@) == views(old(out)@) + lua_occurrences(src@, tree.nodes_view(), i as int),
{
    let ghost n = tree.nodes_view();
    let node = tree.node(i);
    let s = node.start_byte;
    let e = node.end_byte;
    if !(s <= e && e <= src.len() && is_boundary(src, s) && is_boundary(src, e)) {
        assert(views(out@) =~= views(old(out)@) + lua_occurrences(src@, n, i as int));
        return;
    }
    let chunk = slice_range(src, s, e);
    let arguments = lua_address_arguments(chunk);
    let ghost args = arguments@.map_values(|p: (usize, usize)| (p.0 as int, p.1 as int));
    let mut j: usize = 0;
    while j < arguments.len()
        invariant
            j <= arguments@.len(),
            args == arguments@.map_values(|p: (usize, usize)| (p.0 as int, p.1 as int)),
            args == address_arguments_from(chunk@, 0),
            chunk@ == src@.subrange(s as int, e as int),
            s <= e <= src@.len(),
            n == tree.nodes_view(),
            span_ok(src@, s as int, e as int),
            s == n[i as int].start_byte,
            e == n[i as int].end_byte,
            views(out@) == views(old(out)@) + lua_refs(src@, s as int, chunk@, args.subrange(0, j as int)),
        decreases arguments@.len() - j,
    {
        let (vs, ve) = arguments[j];
        assert(args.subrange(0, j + 1).drop_last() =~= args.subrange(0, j as int));
        assert(args.subrange(0, j + 1).last() == (vs as int, ve as int));
        let ghost before = views(out@);
        match slice_string(chunk, vs, ve) {
            Some(name) => {
                let start = byte_position(src, s + vs);
                let end = byte_position(src, s + ve);
                out.push(SymbolOccurrence {
                    name,
                    range: Range { start, end },
                    kind: CeaSymbolKind::Registered,
                    role: OccurrenceRole::Reference,
                    strict_reference: true,
                });
                assert(views(out@) =~= before + seq![views(out@).last()]);
            },
            None => {
                assert(views(out@) =~= before);
            },
        }
        j = j + 1;
    }
    assert(args.subrange(0, j as int) =~= args);
}

fn collect_occurrences(tree: &SyntaxTree, src: &[u8], i: usize, out: &mut Vec<SymbolOccurrence>)
    requires
        i < tree.nodes_view().len(),
    ensures
        views(final(out)@) == views(old(out)@) + subtree_occurrences(src@, tree.nodes_view(), i as int),
    decreases tree.nodes_view().len() - i,
{
    let ghost n = tree.nodes_view();
    let kind = tree.node(i).kind;
    if kind == NodeKind::LuaChunk {
        collect_lua_symbol_references(tree, src, i, out);
        return;
    }
    if kind == NodeKind::LabelDefinition {
        match tree.field_child(i, FieldName::Name) {
            Some(name) => push_occurrence(tree, src, name, CeaSymbolKind::Label, OccurrenceRole::Definition, false, out),
            None => {},
        }
    } else if kind == NodeKind::AaCommand {
        collect_command(tree, src, i, out);
    } else if kind == NodeKind::Operation {
        collect_operation_references(tree, src, i, out);
    }
    let ghost mid = views(out@);
    assert(mid == views(old(out)@) + own_occurrences(src@, n, i as int));
    let count = tree.node(i).children.len();
    let mut k: usize = 0;
    while k < count
        invariant
            i < n.len(),
            n == tree.nodes_view(),
            count == n[i as int].children@.len(),
            k <= count,
            views(out@) + children_occurrences(src@, n, i as int, k as int) == mid
                + children_occurrences(src@, n, i as int, 0),
        decreases count - k,
    {
        let c = tree.child(i, k);
        let ghost before = views(out@);
        if tree.node(c).is_named {
            collect_occurrences(tree, src, c, out);
        }
        assert(children_occurrences(src@, n, i as int, k as int) == (if n[c as int].is_named {
            subtree_occurrences(src@, n, c as int)
        } else {
            Seq::empty()
        }) + children_occurrences(src@, n, i as int, k + 1));
        k = k + 1;
    }
    assert(children_occurrences(src@, n, i as int, k as int) =~= Seq::<OccurrenceView>::empty());
}

pub open spec fn contains(range: Range, position: Position) -> bool {
    range.start.le(position) && position.le(range.end)
}

pub open spec fn saturating_sub(a: u32, b: u32) -> u32 {
    if a >= b {
        (a - b) as u32
    } else {
        0
    }
}

/// `(lines, characters)` spanned by a range, saturating at zero.
pub open spec fn range_size(r: Range) -> (u32, u32) {
    (saturating_sub(r.end.line, r.start.line), saturating_sub(r.end.character, r.start.character))
}

pub open spec fn size_lt(a: (u32, u32), b: (u32, u32)) -> bool {
    a.0 < b.0 || (a.0 == b.0 && a.1 < b.1)
}

/// Index `j` holds the smallest occurrence containing `p`, the first of
/// equally small ones.
pub open spec fn innermost_at(occs: Seq<OccurrenceView>, p: Position, j: int) -> bool {
    &&& 0 <= j < occs.len()
    &&& contains(occs[j].range, p)
    &&& forall|k: int|
        0 <= k < occs.len() && contains(#[trigger] occs[k].range, p) ==> !size_lt(
            range_size(occs[k].range),
            range_size(occs[j].range),
        )
    &&& forall|k: int|
        0 <= k < j && contains(#[trigger] occs[k].range, p) ==> size_lt(
            range_size(occs[j].range),
            range_size(occs[k].range),
        )
}

pub struct DocumentSymbolIndex {
    occurrences: Vec<SymbolOccurrence>,
}

impl View for DocumentSymbolIndex {
    type V = Seq<OccurrenceView>;

    closed spec fn view(&self) -> Seq<OccurrenceView> {
        views(self.occurrences@)
    }
}

/// All occurrences of a document with syntax tree `n` over the bytes `src`.
pub open spec fn document_occurrences(src: Seq<u8>, n: Seq<crate::syntax::SyntaxNode>) -> Seq<OccurrenceView> {
    subtree_occurrences(src, n, 0)
}

impl DocumentSymbolIndex {
    pub fn new() -> (r: DocumentSymbolIndex)
        ensures
            r@ == Seq::<OccurrenceView>::empty(),
    {
        let r = DocumentSymbolIndex { occurrences: Vec::new() };
        assert(r@ =~= Seq::<OccurrenceView>::empty());
        r
    }

    /// Collects the occurrences of a document.
    pub fn build(tree: &SyntaxTree, source: &str) -> (r: DocumentSymbolIndex)
        ensures
            r@ == document_occurrences(source.spec_bytes(), tree.nodes_view()),
    {
        let src = source.as_bytes();
        let mut occurrences: Vec<SymbolOccurrence> = Vec::new();
        let len = tree.len();
        assert(views(occurrences@) =~= Seq::<OccurrenceView>::empty());
        collect_occurrences(tree, src, 0, &mut occurrences);
        assert(views(occurrences@) =~= document_occurrences(src@, tree.nodes_view()));
        DocumentSymbolIndex { occurrences }
    }

    pub fn occurrences(&self) -> (r: &[SymbolOccurrence])
        ensures
            views(r@) == self@,
    {
        self.occurrences.as_slice()
    }

    pub fn len(&self) -> (r: usize)
        ensures
            r == self@.len(),
    {
        self.occurrences.len()
    }

    pub fn get(&self, j: usize) -> (r: &SymbolOccurrence)
        requires
            j < self@.len(),
        ensures
            r@ == self@[j as int],
    {
        &self.occurrences[j]
    }

    /// The smallest occurrence whose range contains `position` (see [`innermost_at`]).
    pub fn occurrence_at(&self, position: Position) -> (r: Option<&SymbolOccurrence>)
        ensures
            r matches Some(o) ==> exists|j: int| innermost_at(self@, position, j) && o@ == self@[j],
            r is None ==> forall|k: int| 0 <= k < self@.len() ==> !contains(#[trigger] self@[k].range, position),
    {
        match self.occurrence_index_at(position) {
            Some(j) => Some(&self.occurrences[j]),
            None => None,
        }
    }

    /// Index of the smallest occurrence containing `position`.
    pub fn occurrence_index_at(&self, position: Position) -> (r: Option<usize>)
        ensures
            r matches Some(j) ==> innermost_at(self@, position, j as int),
            r is None ==> forall|k: int| 0 <= k < self@.len() ==> !contains(#[trigger] self@[k].range, position),
    {
        let ghost occs = self@;
        let mut best: Option<usize> = None;
        let mut j: usize = 0;
        while j < self.occurrences.len()
            invariant
                occs == self@,
                occs.len() == self.occurrences@.len(),
                j <= occs.len(),
                best is None ==> forall|k: int| 0 <= k < j ==> !contains(#[trigger] occs[k].range, position),
                best matches Some(b) ==> {
                    &&& b < j
                    &&& contains(occs[b as int].range, position)
                    &&& forall|k: int|
                        0 <= k < j && contains(#[trigger] occs[k].range, position) ==> !size_lt(
                            range_size(occs[k].range),
                            range_size(occs[b as int].range),
                        )
                    &&& forall|k: int|
                        0 <= k < b && contains(#[trigger] occs[k].range, position) ==> size_lt(
                            range_size(occs[b as int].range),
                            range_size(occs[k].range),
                        )
                },
            decreases occs.len() - j,
        {
            let r = self.occurrences[j].range;
            assert(r == occs[j as int].range);
            if r.start.at_or_before(&position) && position.at_or_before(&r.end) {
                let size = (
                    if r.end.line >= r.start.line { r.end.line - r.start.line } else { 0 },
                    if r.end.character >= r.start.character { r.end.character - r.start.character } else { 0 },
                );
                assert(size == range_size(r));
                match best {
                    None => {
                        best = Some(j);
                    },
                    Some(b) => {
                        let br = self.occurrences[b].range;
                        assert(br == occs[b as int].range);
                        let bsize = (
                            if br.end.line >= br.start.line { br.end.line - br.start.line } else { 0 },
                            if br.end.character >= br.start.character { br.end.character - br.start.character } else { 0 },
                        );
                        assert(bsize == range_size(br));
                        if size.0 < bsize.0 || (size.0 == bsize.0 && size.1 < bsize.1) {
                            best = Some(j);
                        }
                    },
                }
            }
            j = j + 1;
        }
        best
    }
}

} // verus!
