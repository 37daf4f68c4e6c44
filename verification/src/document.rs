//! A parsed CEA script: its text with its syntax tree, and the per-document
//! features built on them (diagnostics, outline, integer hovers, the virtual
//! Lua document and where native completion applies).
use vstd::prelude::*;
use vstd::std_specs::iter::IteratorSpec;
use vstd::string::{StringSliceAdditionalSpecFns, StrSliceExecFns};
use crate::text::{push_char, Position, Range, position_offset, byte_offset_at_position, slice_text, slice_string, line_start, next_newline, find_line_start, find_newline, is_whitespace_char, whitespace_char, lower_chars, ascii_lowercase};
use crate::syntax::{SyntaxNode, SyntaxTree, NodeKind, FieldName, field_child, argument_list, first_named_child_from, node_text, node_range};
use crate::diagnostics::{CeaDiagnostic, DiagnosticView, diagnostic_views};
use crate::symbol_index::{DocumentSymbolIndex, document_occurrences};
use crate::checks::{error_diagnostics, structure_diagnostics, label_diagnostics, strict_diagnostics, structure_checks, label_checks, strict_checks};
use crate::integer::{integer_hover_text, integer_conversion};

verus! {

/// Every diagnostic of a script, in the order the checks run.
pub open spec fn document_diagnostics(src: Seq<u8>, n: Seq<SyntaxNode>) -> Seq<DiagnosticView> {
    let occs = document_occurrences(src, n);
    error_diagnostics(src, n, 0, false) + structure_diagnostics(src, n) + label_diagnostics(src, n, occs)
        + strict_diagnostics(src, occs)
}

/// A child of `i` (from the `k`-th on) where the descent toward the byte
/// range `start..end` continues: the first child that reaches `end` and
/// passes `start` (an empty child may touch it); the scan stops at a child
/// that begins after `start`. This is how tree-sitter's
/// `Node::descendant_for_byte_range` steps down.
pub open spec fn descent_child(n: Seq<SyntaxNode>, i: int, start: int, end: int, k: int) -> Option<int>
    decreases n[i].children@.len() - k,
{
    if 0 <= i < n.len() && 0 <= k < n[i].children@.len() {
        let c = n[i].children@[k] as int;
        let c_start = n[c].start_byte as int;
        let c_end = n[c].end_byte as int;
        if !(i < c < n.len()) || c_end < end || (if c_start == c_end {
            c_end < start
        } else {
            c_end <= start
        }) {
            descent_child(n, i, start, end, k + 1)
        } else if start < c_start {
            None
        } else {
            Some(c)
        }
    } else {
        None
    }
}

/// The smallest node under `i` that spans `start..end`, found by descent.
pub open spec fn descendant(n: Seq<SyntaxNode>, i: int, start: int, end: int) -> int
    decreases n.len() - i,
{
    match descent_child(n, i, start, end, 0) {
        Some(c) => if 0 <= i < c < n.len() {
            descendant(n, c, start, end)
        } else {
            i
        },
        None => i,
    }
}

/// The nearest of `i` and its ancestors that is a number literal.
pub open spec fn number_ancestor(n: Seq<SyntaxNode>, i: int) -> Option<int>
    decreases i,
{
    if i < 0 || i >= n.len() {
        None
    } else if n[i].kind == NodeKind::Number || n[i].kind == NodeKind::TypedNumber {
        Some(i)
    } else {
        match n[i].parent {
            Some(p) => if p < i {
                number_ancestor(n, p as int)
            } else {
                None
            },
            None => None,
        }
    }
}

/// The hover of the integer literal at `position`: its conversions and its range.
pub open spec fn integer_hover_at(src: Seq<u8>, n: Seq<SyntaxNode>, position: Position) -> Option<
    (Seq<char>, Range),
> {
    match position_offset(src, position) {
        None => None,
        Some(b) => {
            let e = if b < src.len() {
                b + 1
            } else {
                src.len() as int
            };
            if b > e {
                None
            } else {
                match number_ancestor(n, descendant(n, 0, b, e)) {
                    None => None,
                    Some(x) => match node_text(src, n, x) {
                        None => None,
                        Some(t) => match integer_hover_text(vstd::utf8::encode_utf8(t)) {
                            None => None,
                            Some(h) => Some((h, node_range(src, n, x))),
                        },
                    },
                }
            }
        },
    }
}

/// The node that `Node::descendant_for_byte_range` finds under node `i`.
pub fn descendant_for_byte_range(tree: &SyntaxTree, i: usize, start: usize, end: usize) -> (r: usize)
    requires
        i < tree.nodes_view().len(),
    ensures
        r == descendant(tree.nodes_view(), i as int, start as int, end as int),
        i <= r < tree.nodes_view().len(),
    decreases tree.nodes_view().len() - i,
{
    let ghost n = tree.nodes_view();
    let count = tree.node(i).children.len();
    let mut k: usize = 0;
    while k < count
        invariant
            i < n.len(),
            n == tree.nodes_view(),
            count == n[i as int].children@.len(),
            k <= count,
            descent_child(n, i as int, start as int, end as int, k as int) == descent_child(
                n,
                i as int,
                start as int,
                end as int,
                0,
            ),
        decreases count - k,
    {
        let c = tree.child(i, k);
        let child = tree.node(c);
        let skip = child.end_byte < end || (if child.start_byte == child.end_byte {
            child.end_byte < start
        } else {
            child.end_byte <= start
        });
        if !skip {
            if start < child.start_byte {
                return i;
            }
            return descendant_for_byte_range(tree, c, start, end);
        }
        k = k + 1;
    }
    i
}

fn number_ancestor_of(tree: &SyntaxTree, i: usize) -> (r: Option<usize>)
    requires
        i < tree.nodes_view().len(),
    ensures
        r matches Some(x) ==> number_ancestor(tree.nodes_view(), i as int) == Some(x as int) && x
            < tree.nodes_view().len(),
        r is None ==> number_ancestor(tree.nodes_view(), i as int) is None,
    decreases i,
{
    let kind = tree.node(i).kind;
    if kind == NodeKind::Number || kind == NodeKind::TypedNumber {
        return Some(i);
    }
    match tree.parent(i) {
        Some(p) => number_ancestor_of(tree, p),
        None => None,
    }
}

// ------------------------------------------------------------ virtual Lua document

/// The outermost Lua chunks in the named subtree of `i`, in document order.
pub open spec fn lua_chunks(n: Seq<SyntaxNode>, i: int) -> Seq<int>
    decreases n.len() - i, 1int, 0int,
{
    if i < 0 || i >= n.len() {
        Seq::empty()
    } else if n[i].kind == NodeKind::LuaChunk {
        seq![i]
    } else {
        lua_chunk_children(n, i, 0)
    }
}

pub open spec fn lua_chunk_children(n: Seq<SyntaxNode>, i: int, k: int) -> Seq<int>
    decreases n.len() - i, 0int, n[i].children@.len() - k,
{
    if 0 <= i < n.len() && 0 <= k < n[i].children@.len() {
        let c = n[i].children@[k] as int;
        (if i < c < n.len() && n[c].is_named {
            lua_chunks(n, c)
        } else {
            Seq::empty()
        }) + lua_chunk_children(n, i, k + 1)
    } else {
        Seq::empty()
    }
}

pub open spec fn node_span(n: Seq<SyntaxNode>, c: int) -> (int, int) {
    (n[c].start_byte as int, n[c].end_byte as int)
}

pub open spec fn chunk_spans(n: Seq<SyntaxNode>, chunks: Seq<int>) -> Seq<(int, int)> {
    chunks.map_values(|c: int| node_span(n, c))
}

/// Where a span starting at `key` goes among `spans`: before the first span
/// that starts after it.
pub open spec fn span_insertion_point(spans: Seq<(int, int)>, key: int, k: int) -> int
    decreases spans.len() - k,
{
    if k >= spans.len() {
        spans.len() as int
    } else if key < spans[k].0 {
        k
    } else {
        span_insertion_point(spans, key, k + 1)
    }
}

/// `spans` stably sorted by start.
pub open spec fn sorted_spans(spans: Seq<(int, int)>) -> Seq<(int, int)>
    decreases spans.len(),
{
    if spans.len() == 0 {
        Seq::empty()
    } else {
        let o = sorted_spans(spans.drop_last());
        o.insert(span_insertion_point(o, spans.last().0, 0), spans.last())
    }
}

/// The LSP range of the node that spans each byte span.
pub open spec fn span_ranges(src: Seq<u8>, n: Seq<SyntaxNode>, spans: Seq<(int, int)>) -> Seq<Range>
    decreases spans.len(),
{
    if spans.len() == 0 {
        Seq::empty()
    } else {
        let (s, e) = spans.last();
        span_ranges(src, n, spans.drop_last()) + if s <= e {
            seq![node_range(src, n, descendant(n, 0, s, e))]
        } else {
            Seq::empty()
        }
    }
}

pub open spec fn utf8_len(c: char) -> int {
    let v = c as u32;
    if v < 0x80 {
        1
    } else if v < 0x800 {
        2
    } else if v < 0x10000 {
        3
    } else {
        4
    }
}

pub open spec fn utf16_len(c: char) -> nat {
    if (c as u32) < 0x10000 {
        1
    } else {
        2
    }
}

pub open spec fn spaces(k: nat) -> Seq<char> {
    Seq::new(k, |j: int| ' ')
}

/// The first span from the `r`-th on that ends after `byte`.
pub open spec fn advance(spans: Seq<(int, int)>, r: int, byte: int) -> int
    decreases spans.len() - r,
{
    if r < 0 || r >= spans.len() || spans[r].1 > byte {
        r
    } else {
        advance(spans, r + 1, byte)
    }
}

/// The masked text from the `i`-th character on, which starts at byte `byte`:
/// a character inside the current Lua span, or a line break, is kept; any
/// other becomes as many spaces as it has UTF-16 units.
pub open spec fn masked_from(cs: Seq<char>, spans: Seq<(int, int)>, i: int, byte: int, r: int) -> Seq<
    char,
>
    decreases cs.len() - i,
{
    if i < 0 || i >= cs.len() {
        Seq::empty()
    } else {
        let r2 = advance(spans, r, byte);
        let c = cs[i];
        let in_lua = 0 <= r2 < spans.len() && spans[r2].0 <= byte < spans[r2].1;
        (if in_lua || c == '\r' || c == '\n' {
            seq![c]
        } else {
            spaces(utf16_len(c))
        }) + masked_from(cs, spans, i + 1, byte + utf8_len(c), r2)
    }
}

pub open spec fn document_spans(n: Seq<SyntaxNode>) -> Seq<(int, int)> {
    sorted_spans(chunk_spans(n, lua_chunks(n, 0)))
}

/// The ranges of the Lua chunks, in order of their start.
pub open spec fn lua_ranges(src: Seq<u8>, n: Seq<SyntaxNode>) -> Seq<Range> {
    span_ranges(src, n, document_spans(n))
}

/// The script with everything outside Lua chunks blanked out, line breaks kept.
pub open spec fn lua_text(cs: Seq<char>, n: Seq<SyntaxNode>) -> Seq<char> {
    masked_from(cs, document_spans(n), 0, 0, 0)
}

/// The embedded Lua of a script as one document with the script's line and
/// column layout.
#[derive(Debug, Clone)]
pub struct LuaVirtualDocument {
    pub source: String,
    pub ranges: Vec<Range>,
}

fn collect_lua_chunks(tree: &SyntaxTree, i: usize, out: &mut Vec<(usize, usize)>)
    requires
        i < tree.nodes_view().len(),
    ensures
        final(out)@.map_values(|p: (usize, usize)| (p.0 as int, p.1 as int)) == old(out)@.map_values(
            |p: (usize, usize)| (p.0 as int, p.1 as int),
        ) + chunk_spans(tree.nodes_view(), lua_chunks(tree.nodes_view(), i as int)),
    decreases tree.nodes_view().len() - i,
{
    let ghost n = tree.nodes_view();
    let node = tree.node(i);
    if node.kind == NodeKind::LuaChunk {
        out.push((node.start_byte, node.end_byte));
        assert(out@.map_values(|p: (usize, usize)| (p.0 as int, p.1 as int)) =~= old(out)@.map_values(
            |p: (usize, usize)| (p.0 as int, p.1 as int),
        ) + chunk_spans(n, lua_chunks(n, i as int)));
        return;
    }
    let ghost start = old(out)@.map_values(|p: (usize, usize)| (p.0 as int, p.1 as int));
    let count = node.children.len();
    let mut k: usize = 0;
    while k < count
        invariant
            i < n.len(),
            n == tree.nodes_view(),
            n[i as int].kind != NodeKind::LuaChunk,
            count == n[i as int].children@.len(),
            k <= count,
            out@.map_values(|p: (usize, usize)| (p.0 as int, p.1 as int)) + chunk_spans(
                n,
                lua_chunk_children(n, i as int, k as int),
            ) == start + chunk_spans(n, lua_chunk_children(n, i as int, 0)),
        decreases count - k,
    {
        let c = tree.child(i, k);
        assert(lua_chunk_children(n, i as int, k as int) == (if n[c as int].is_named {
            lua_chunks(n, c as int)
        } else {
            Seq::empty()
        }) + lua_chunk_children(n, i as int, k + 1));
        let ghost rest = lua_chunk_children(n, i as int, k + 1);
        if tree.node(c).is_named {
            collect_lua_chunks(tree, c, out);
            assert(chunk_spans(n, lua_chunks(n, c as int) + rest) =~= chunk_spans(
                n,
                lua_chunks(n, c as int),
            ) + chunk_spans(n, rest));
        } else {
            assert(chunk_spans(n, Seq::<int>::empty() + rest) =~= chunk_spans(n, rest));
        }
        k = k + 1;
    }
    assert(chunk_spans(n, lua_chunk_children(n, i as int, k as int)) =~= Seq::<(int, int)>::empty());
    assert(chunk_spans(n, lua_chunks(n, i as int)) == chunk_spans(n, lua_chunk_children(n, i as int, 0)));
}

pub open spec fn span_views(v: Seq<(usize, usize)>) -> Seq<(int, int)> {
    v.map_values(|p: (usize, usize)| (p.0 as int, p.1 as int))
}

fn sort_spans(spans: &Vec<(usize, usize)>) -> (r: Vec<(usize, usize)>)
    ensures
        span_views(r@) == sorted_spans(span_views(spans@)),
{
    let ghost all = span_views(spans@);
    let mut sorted: Vec<(usize, usize)> = Vec::new();
    let mut j: usize = 0;
    assert(all.subrange(0, 0) =~= Seq::<(int, int)>::empty());
    assert(span_views(sorted@) =~= sorted_spans(all.subrange(0, 0)));
    while j < spans.len()
        invariant
            all == span_views(spans@),
            j <= spans@.len(),
            span_views(sorted@) == sorted_spans(all.subrange(0, j as int)),
        decreases spans@.len() - j,
    {
        let item = spans[j];
        let ghost sv = span_views(sorted@);
        let mut k: usize = 0;
        while k < sorted.len()
            invariant
                sv == span_views(sorted@),
                k <= sorted@.len(),
                span_insertion_point(sv, item.0 as int, k as int) == span_insertion_point(
                    sv,
                    item.0 as int,
                    0,
                ),
            ensures
                k <= sorted@.len(),
                span_insertion_point(sv, item.0 as int, 0) == k,
            decreases sorted@.len() - k,
        {
            if item.0 < sorted[k].0 {
                break;
            }
            k = k + 1;
        }
        sorted.insert(k, item);
        assert(all.subrange(0, j + 1).drop_last() =~= all.subrange(0, j as int));
        assert(all.subrange(0, j + 1).last() == (item.0 as int, item.1 as int));
        assert(span_views(sorted@) =~= sv.insert(k as int, (item.0 as int, item.1 as int)));
        j = j + 1;
    }
    assert(all.subrange(0, j as int) =~= all);
    sorted
}

fn char_widths(c: char) -> (r: (u128, u128))
    ensures
        r.0 == utf8_len(c),
        r.1 == utf16_len(c),
{
    let v = c as u32;
    if v < 0x80 {
        (1, 1)
    } else if v < 0x800 {
        (2, 1)
    } else if v < 0x10000 {
        (3, 1)
    } else {
        (4, 2)
    }
}

// ------------------------------------------------------------ native completion

/// Some range has `p` at or after its start and before its end.
pub open spec fn in_some_range(ranges: Seq<Range>, p: Position) -> bool {
    exists|j: int| 0 <= j < ranges.len() && (#[trigger] ranges[j]).start.le(p) && p.lt(ranges[j].end)
}

/// Line `row` of the text as `str::lines` yields it: without its `'\n'` and a
/// `'\r'` just before it; there is no line after a final line break.
pub open spec fn line_text(src: Seq<u8>, row: nat) -> Option<Seq<char>> {
    match line_start(src, row) {
        None => None,
        Some(s) => if s >= src.len() {
            None
        } else {
            let e = next_newline(src, s);
            match slice_text(src, s, e) {
                None => None,
                Some(t) => Some(
                    if e < src.len() && t.len() > 0 && t.last() == '\r' {
                        t.drop_last()
                    } else {
                        t
                    },
                ),
            }
        },
    }
}

/// The number of leading characters of `line` (from the `k`-th on, after
/// `width` UTF-16 units) whose running width stays within `limit`.
pub open spec fn width_prefix_len(line: Seq<char>, k: int, width: int, limit: int) -> int
    decreases line.len() - k,
{
    if k < 0 || k >= line.len() {
        k
    } else if width + utf16_len(line[k]) <= limit {
        width_prefix_len(line, k + 1, width + utf16_len(line[k]), limit)
    } else {
        k
    }
}

/// Index of the first non-whitespace character at or after `k`.
pub open spec fn leading_space(t: Seq<char>, k: int) -> int
    decreases t.len() - k,
{
    if k < 0 || k >= t.len() {
        t.len() as int
    } else if is_whitespace_char(t[k]) {
        leading_space(t, k + 1)
    } else {
        k
    }
}

/// `t` begins a `//` comment or a `{$lua` block.
pub open spec fn opens_comment_or_lua(t: Seq<char>) -> bool {
    (t.len() >= 2 && t[0] == '/' && t[1] == '/') || (t.len() >= 5 && t[0] == '{' && t[1] == '$'
        && t[2] == 'l' && t[3] == 'u' && t[4] == 'a')
}

/// Native symbol completion applies at `p`: outside Lua, on an existing
/// line, and not after a comment or Lua opener on that line.
pub open spec fn native_completion_at(src: Seq<u8>, n: Seq<SyntaxNode>, p: Position) -> bool {
    !in_some_range(lua_ranges(src, n), p) && match line_text(src, p.line as nat) {
        None => false,
        Some(line) => {
            let prefix = line.subrange(0, width_prefix_len(line, 0, 0, p.character as int));
            !opens_comment_or_lua(prefix.skip(leading_space(prefix, 0)))
        },
    }
}

// ------------------------------------------------------------ outline

/// The kinds of outline entries.
#[derive(Clone, Copy, Debug, PartialEq, Eq, Structural)]
pub enum OutlineKind {
    Namespace,
    Variable,
    Constant,
}

/// An entry of the document outline.
#[derive(Debug)]
pub struct OutlineSymbol {
    pub name: String,
    pub kind: OutlineKind,
    pub range: Range,
    pub selection_range: Range,
}

pub ghost struct OutlineView {
    pub name: Seq<char>,
    pub kind: OutlineKind,
    pub range: Range,
    pub selection_range: Range,
}

impl View for OutlineSymbol {
    type V = OutlineView;

    open spec fn view(&self) -> OutlineView {
        OutlineView {
            name: self.name@,
            kind: self.kind,
            range: self.range,
            selection_range: self.selection_range,
        }
    }
}

pub open spec fn outline_views(s: Seq<OutlineSymbol>) -> Seq<OutlineView> {
    s.map_values(|o: OutlineSymbol| o@)
}

/// The text of the first argument of command `i`.
pub open spec fn first_argument(src: Seq<u8>, n: Seq<SyntaxNode>, i: int) -> Option<Seq<char>> {
    match argument_list(n, i) {
        None => None,
        Some(a) => match first_named_child_from(n, a, 0) {
            None => None,
            Some(f) => node_text(src, n, f),
        },
    }
}

/// The outline kind of an allocating or defining command.
pub open spec fn command_outline_kind(lower: Seq<char>) -> Option<OutlineKind> {
    if lower == "alloc"@ || lower == "allocnx"@ || lower == "allocxo"@ || lower == "globalalloc"@
        || lower == "kalloc"@ {
        Some(OutlineKind::Variable)
    } else if lower == "define"@ || lower == "aobscan"@ || lower == "aobscanmodule"@ || lower
        == "aobscanregion"@ {
        Some(OutlineKind::Constant)
    } else {
        None
    }
}

/// What node `i` contributes to the outline: section headers, label
/// definitions on their own line, and allocating or defining commands shown
/// as `command(first argument)`.
pub open spec fn outline_own(src: Seq<u8>, n: Seq<SyntaxNode>, i: int) -> Seq<OutlineView> {
    if n[i].kind == NodeKind::SectionHeader {
        match node_text(src, n, i) {
            Some(t) => seq![
                OutlineView {
                    name: t,
                    kind: OutlineKind::Namespace,
                    range: node_range(src, n, i),
                    selection_range: node_range(src, n, i),
                },
            ],
            None => Seq::empty(),
        }
    } else if n[i].kind == NodeKind::LabelDefinition {
        let on_own_line = match n[i].parent {
            Some(p) => n[p as int].kind == NodeKind::LabelDefinitionLine,
            None => false,
        };
        if !on_own_line {
            Seq::empty()
        } else {
            match field_child(n, i, FieldName::Name) {
                None => Seq::empty(),
                Some(nm) => match node_text(src, n, nm) {
                    None => Seq::empty(),
                    Some(t) => seq![
                        OutlineView {
                            name: t,
                            kind: OutlineKind::Variable,
                            range: node_range(src, n, i),
                            selection_range: node_range(src, n, nm),
                        },
                    ],
                },
            }
        }
    } else if n[i].kind == NodeKind::AaCommand {
        match field_child(n, i, FieldName::Name) {
            None => Seq::empty(),
            Some(nm) => match node_text(src, n, nm) {
                None => Seq::empty(),
                Some(command) => match command_outline_kind(lower_chars(command)) {
                    None => Seq::empty(),
                    Some(kind) => seq![
                        OutlineView {
                            name: match first_argument(src, n, i) {
                                Some(a) => command + "("@ + a + ")"@,
                                None => command,
                            },
                            kind,
                            range: node_range(src, n, i),
                            selection_range: node_range(src, n, nm),
                        },
                    ],
                },
            },
        }
    } else {
        Seq::empty()
    }
}

/// The outline entries of the named subtree of `i`, in document order.
pub open spec fn outline(src: Seq<u8>, n: Seq<SyntaxNode>, i: int) -> Seq<OutlineView>
    decreases n.len() - i, 1int, 0int,
{
    if i < 0 || i >= n.len() {
        Seq::empty()
    } else {
        outline_own(src, n, i) + outline_children(src, n, i, 0)
    }
}

pub open spec fn outline_children(src: Seq<u8>, n: Seq<SyntaxNode>, i: int, k: int) -> Seq<OutlineView>
    decreases n.len() - i, 0int, n[i].children@.len() - k,
{
    if 0 <= i < n.len() && 0 <= k < n[i].children@.len() {
        let c = n[i].children@[k] as int;
        (if i < c < n.len() && n[c].is_named {
            outline(src, n, c)
        } else {
            Seq::empty()
        }) + outline_children(src, n, i, k + 1)
    } else {
        Seq::empty()
    }
}

fn text_is(s: &String, lit: &str) -> (r: bool)
    ensures
        r == (s@ == lit@),
{
    *s == String::from_str(lit)
}

fn command_kind_of(lower: &String) -> (r: Option<OutlineKind>)
    ensures
        r == command_outline_kind(lower@),
{
    if text_is(lower, "alloc") || text_is(lower, "allocnx") || text_is(lower, "allocxo") || text_is(
        lower,
        "globalalloc",
    ) || text_is(lower, "kalloc") {
        Some(OutlineKind::Variable)
    } else if text_is(lower, "define") || text_is(lower, "aobscan") || text_is(lower, "aobscanmodule")
        || text_is(lower, "aobscanregion") {
        Some(OutlineKind::Constant)
    } else {
        None
    }
}

fn first_argument_of(tree: &SyntaxTree, src: &[u8], i: usize) -> (r: Option<String>)
    requires
        i < tree.nodes_view().len(),
    ensures
        r matches Some(t) ==> first_argument(src@, tree.nodes_view(), i as int) == Some(t@),
        r is None ==> first_argument(src@, tree.nodes_view(), i as int) is None,
{
    match tree.argument_list(i) {
        None => None,
        Some(a) => match tree.first_named_child(a) {
            None => None,
            Some(f) => tree.text(src, f),
        },
    }
}

fn push_outline(tree: &SyntaxTree, src: &[u8], i: usize, out: &mut Vec<OutlineSymbol>)
    requires
        i < tree.nodes_view().len(),
    ensures
        outline_views(final(out)@) == outline_views(old(out)@) + outline_own(src@, tree.nodes_view(), i as int),
{
    let ghost n = tree.nodes_view();
    let kind = tree.node(i).kind;
    if kind == NodeKind::SectionHeader {
        if let Some(t) = tree.text(src, i) {
            let range = tree.range(src, i);
            out.push(OutlineSymbol { name: t, kind: OutlineKind::Namespace, range, selection_range: range });
        }
    } else if kind == NodeKind::LabelDefinition {
        let on_own_line = match tree.parent(i) {
            Some(p) => tree.node(p).kind == NodeKind::LabelDefinitionLine,
            None => false,
        };
        if on_own_line {
            if let Some(nm) = tree.field_child(i, FieldName::Name) {
                if let Some(t) = tree.text(src, nm) {
                    out.push(OutlineSymbol {
                        name: t,
                        kind: OutlineKind::Variable,
                        range: tree.range(src, i),
                        selection_range: tree.range(src, nm),
                    });
                }
            }
        }
    } else if kind == NodeKind::AaCommand {
        if let Some(nm) = tree.field_child(i, FieldName::Name) {
            if let Some(command) = tree.text(src, nm) {
                let lower = ascii_lowercase(command.as_str());
                if let Some(k) = command_kind_of(&lower) {
                    let name = match first_argument_of(tree, src, i) {
                        Some(a) => {
                            let mut shown = command.clone();
                            shown.append("(");
                            shown.append(a.as_str());
                            shown.append(")");
                            shown
                        },
                        None => command,
                    };
                    out.push(OutlineSymbol {
                        name,
                        kind: k,
                        range: tree.range(src, i),
                        selection_range: tree.range(src, nm),
                    });
                }
            }
        }
    }
    assert(outline_views(out@) =~= outline_views(old(out)@) + outline_own(src@, n, i as int));
}

fn collect_outline(tree: &SyntaxTree, src: &[u8], i: usize, out: &mut Vec<OutlineSymbol>)
    requires
        i < tree.nodes_view().len(),
    ensures
        outline_views(final(out)@) == outline_views(old(out)@) + outline(src@, tree.nodes_view(), i as int),
    decreases tree.nodes_view().len() - i,
{
    let ghost n = tree.nodes_view();
    push_outline(tree, src, i, out);
    let ghost mid = outline_views(out@);
    let count = tree.node(i).children.len();
    let mut k: usize = 0;
    while k < count
        invariant
            i < n.len(),
            n == tree.nodes_view(),
            count == n[i as int].children@.len(),
            k <= count,
            outline_views(out@) + outline_children(src@, n, i as int, k as int) == mid + outline_children(
                src@,
                n,
                i as int,
                0,
            ),
        decreases count - k,
    {
        let c = tree.child(i, k);
        if tree.node(c).is_named {
            collect_outline(tree, src, c, out);
        }
        assert(outline_children(src@, n, i as int, k as int) == (if n[c as int].is_named {
            outline(src@, n, c as int)
        } else {
            Seq::empty()
        }) + outline_children(src@, n, i as int, k + 1));
        k = k + 1;
    }
    assert(outline_children(src@, n, i as int, k as int) =~= Seq::<OutlineView>::empty());
}

// ------------------------------------------------------------ layout

/// How a character occupies its line: a line break stays itself, any other
/// character becomes as many spaces as it has UTF-16 units.
pub open spec fn layout_char(c: char) -> Seq<char> {
    if c == '\r' || c == '\n' {
        seq![c]
    } else {
        spaces(utf16_len(c))
    }
}

/// The line layout of a text: its line breaks where they are and the UTF-16
/// width of everything between them.
pub open spec fn layout(s: Seq<char>) -> Seq<char>
    decreases s.len(),
{
    if s.len() == 0 {
        Seq::empty()
    } else {
        layout_char(s[0]) + layout(s.drop_first())
    }
}

proof fn lemma_layout_append(a: Seq<char>, b: Seq<char>)
    ensures
        layout(a + b) == layout(a) + layout(b),
    decreases a.len(),
{
    if a.len() == 0 {
        assert(a + b =~= b);
        assert(layout(a) + layout(b) =~= layout(b));
    } else {
        assert((a + b).drop_first() =~= a.drop_first() + b);
        lemma_layout_append(a.drop_first(), b);
        assert(layout(a + b) =~= layout(a) + layout(b));
    }
}

proof fn lemma_layout_spaces(k: nat)
    ensures
        layout(spaces(k)) == spaces(k),
    decreases k,
{
    if k > 0 {
        assert(spaces(k).drop_first() =~= spaces((k - 1) as nat));
        lemma_layout_spaces((k - 1) as nat);
        assert(layout_char(' ') =~= seq![' ']);
        assert(layout(spaces(k)) =~= spaces(k));
    }
}

proof fn lemma_masked_layout(cs: Seq<char>, spans: Seq<(int, int)>, i: int, byte: int, r: int)
    requires
        0 <= i <= cs.len(),
    ensures
        layout(masked_from(cs, spans, i, byte, r)) == layout(cs.subrange(i, cs.len() as int)),
    decreases cs.len() - i,
{
    if i == cs.len() {
        assert(cs.subrange(i, cs.len() as int) =~= Seq::<char>::empty());
    } else {
        let r2 = advance(spans, r, byte);
        let c = cs[i];
        let in_lua = 0 <= r2 < spans.len() && spans[r2].0 <= byte < spans[r2].1;
        let head = if in_lua || c == '\r' || c == '\n' {
            seq![c]
        } else {
            spaces(utf16_len(c))
        };
        lemma_masked_layout(cs, spans, i + 1, byte + utf8_len(c), r2);
        lemma_layout_append(head, masked_from(cs, spans, i + 1, byte + utf8_len(c), r2));
        if in_lua || c == '\r' || c == '\n' {
            assert(seq![c].drop_first() =~= Seq::<char>::empty());
            assert(layout(Seq::<char>::empty()) == Seq::<char>::empty());
            assert(seq![c][0] == c);
            assert(layout(seq![c]) == layout_char(c) + layout(Seq::<char>::empty()));
            assert(layout(head) =~= layout_char(c));
        } else {
            lemma_layout_spaces(utf16_len(c));
        }
        assert(cs.subrange(i, cs.len() as int).drop_first() =~= cs.subrange(i + 1, cs.len() as int));
    }
}

/// The virtual Lua document keeps the script's layout: the same line breaks
/// at the same places, and every line as wide in UTF-16 units, so positions
/// mean the same in both.
pub proof fn law_lua_text_keeps_layout(cs: Seq<char>, n: Seq<SyntaxNode>)
    ensures
        layout(lua_text(cs, n)) == layout(cs),
{
    lemma_masked_layout(cs, document_spans(n), 0, 0, 0);
    assert(cs.subrange(0, cs.len() as int) =~= cs);
}

pub struct Document {
    source: String,
    tree: SyntaxTree,
}

impl Document {
    pub closed spec fn text(&self) -> Seq<char> {
        self.source@
    }

    pub closed spec fn nodes(&self) -> Seq<SyntaxNode> {
        self.tree.nodes_view()
    }

    /// The UTF-8 bytes of the script, which the tree's offsets index.
    pub open spec fn bytes(&self) -> Seq<u8> {
        vstd::utf8::encode_utf8(self.text())
    }

    /// A document from its text and the syntax tree the parser built for it.
    pub fn new(source: String, tree: SyntaxTree) -> (r: Document)
        ensures
            r.text() == source@,
            r.nodes() == tree.nodes_view(),
    {
        Document { source, tree }
    }

    pub fn source(&self) -> (r: &str)
        ensures
            r@ == self.text(),
    {
        self.source.as_str()
    }

    fn source_bytes(&self) -> (r: &[u8])
        ensures
            r@ == self.bytes(),
    {
        self.source.as_str().as_bytes()
    }

    /// The diagnostics of the script (see [`document_diagnostics`]).
    pub fn diagnostics(&self) -> (r: Vec<CeaDiagnostic>)
        ensures
            diagnostic_views(r@) == document_diagnostics(self.bytes(), self.nodes()),
    {
        let src = self.source_bytes();
        let index = self.symbol_index();
        let mut out: Vec<CeaDiagnostic> = Vec::new();
        let _ = self.tree.len();
        crate::checks::collect_errors(&self.tree, src, 0, false, &mut out);
        structure_checks(&self.tree, src, &mut out);
        label_checks(&self.tree, src, &index, &mut out);
        strict_checks(src, &index, &mut out);
        assert(diagnostic_views(out@) =~= document_diagnostics(self.bytes(), self.nodes()));
        out
    }

    /// The integer conversions shown on hover (see [`integer_hover_at`]).
    pub fn integer_hover(&self, position: Position) -> (r: Option<(String, Range)>)
        ensures
            r matches Some(h) ==> integer_hover_at(self.bytes(), self.nodes(), position) == Some(
                (h.0@, h.1),
            ),
            r is None ==> integer_hover_at(self.bytes(), self.nodes(), position) is None,
    {
        let src = self.source_bytes();
        let byte = match byte_offset_at_position(src, position) {
            Some(b) => b,
            None => return None,
        };
        let end = if byte < src.len() {
            byte + 1
        } else {
            src.len()
        };
        if byte > end {
            return None;
        }
        let _ = self.tree.len();
        let found = descendant_for_byte_range(&self.tree, 0, byte, end);
        let node = match number_ancestor_of(&self.tree, found) {
            Some(x) => x,
            None => return None,
        };
        let text = match self.tree.text(src, node) {
            Some(t) => t,
            None => return None,
        };
        match integer_conversion(text.as_str()) {
            Some(hover) => Some((hover, self.tree.range(src, node))),
            None => None,
        }
    }

    /// The embedded Lua as one position-preserving document (see [`lua_text`]
    /// and [`lua_ranges`]).
    pub fn lua_virtual_document(&self) -> (r: LuaVirtualDocument)
        ensures
            r.source@ == lua_text(self.text(), self.nodes()),
            r.ranges@ == lua_ranges(self.bytes(), self.nodes()),
    {
        let ghost n = self.nodes();
        let src = self.source_bytes();
        let _ = self.tree.len();
        let mut chunks: Vec<(usize, usize)> = Vec::new();
        collect_lua_chunks(&self.tree, 0, &mut chunks);
        assert(span_views(chunks@) =~= chunk_spans(n, lua_chunks(n, 0)));
        let spans = sort_spans(&chunks);
        let ghost sv = span_views(spans@);
        assert(sv == document_spans(n));
        let mut ranges: Vec<Range> = Vec::new();
        let mut j: usize = 0;
        assert(sv.subrange(0, 0) =~= Seq::<(int, int)>::empty());
        assert(ranges@ =~= span_ranges(src@, n, sv.subrange(0, 0)));
        while j < spans.len()
            invariant
                n == self.nodes(),
                n == self.tree.nodes_view(),
                n.len() > 0,
                src@ == self.bytes(),
                sv == span_views(spans@),
                j <= spans@.len(),
                ranges@ == span_ranges(src@, n, sv.subrange(0, j as int)),
            decreases spans@.len() - j,
        {
            let (s, e) = spans[j];
            assert(sv.subrange(0, j + 1).drop_last() =~= sv.subrange(0, j as int));
            assert(sv.subrange(0, j + 1).last() == (s as int, e as int));
            if s <= e {
                let d = descendant_for_byte_range(&self.tree, 0, s, e);
                ranges.push(self.tree.range(src, d));
            }
            j = j + 1;
        }
        assert(sv.subrange(0, j as int) =~= sv);
        let ghost cs = self.text();
        let total = self.source.as_str().unicode_len();
        let mut out = String::new();
        let mut chars = self.source.as_str().chars();
        proof {
            broadcast use vstd::string::group_string_axioms;
        }
        let ghost mut i: int = 0;
        let mut byte: u128 = 0;
        let mut r: usize = 0;
        assert(out@ =~= Seq::<char>::empty());
        loop
            invariant
                0 <= i <= cs.len(),
                cs == self.text(),
                total == cs.len(),
                sv == span_views(spans@),
                chars.obeys_prophetic_iter_laws(),
                chars.remaining() == cs.skip(i),
                byte <= 4 * i,
                r <= spans@.len(),
                out@ + masked_from(cs, sv, i, byte as int, r as int) == masked_from(cs, sv, 0, 0, 0),
            ensures
                out@ == masked_from(cs, sv, 0, 0, 0),
            decreases cs.len() - i,
        {
            let next = chars.next();
            proof {
                broadcast use vstd::string::group_string_axioms;
            }
            match next {
                Some(c) => {
                    assert(cs.skip(i).drop_first() =~= cs.skip(i + 1));
                    assert(c == cs[i]);
                    let ghost r0 = r as int;
                    while r < spans.len() && (spans[r].1 as u128) <= byte
                        invariant
                            sv == span_views(spans@),
                            r0 <= r <= spans@.len(),
                            advance(sv, r as int, byte as int) == advance(sv, r0, byte as int),
                        decreases spans@.len() - r,
                    {
                        r = r + 1;
                    }
                    let in_lua = r < spans.len() && (spans[r].0 as u128) <= byte && byte < (
                    spans[r].1 as u128);
                    let (w8, w16) = char_widths(c);
                    let ghost before = out@;
                    if in_lua || c == '\r' || c == '\n' {
                        push_char(&mut out, c);
                    } else {
                        push_char(&mut out, ' ');
                        if w16 == 2 {
                            push_char(&mut out, ' ');
                        }
                        assert(out@ =~= before + spaces(utf16_len(c)));
                    }
                    byte = byte + w8;
                    proof {
                        i = i + 1;
                    }
                },
                None => {
                    assert(cs.skip(i).len() == 0);
                    assert(masked_from(cs, sv, i, byte as int, r as int) =~= Seq::<char>::empty());
                    break;
                },
            }
        }
        LuaVirtualDocument { source: out, ranges }
    }

    /// The document outline (see [`outline`]).
    pub fn symbols(&self) -> (r: Vec<OutlineSymbol>)
        ensures
            outline_views(r@) == outline(self.bytes(), self.nodes(), 0),
    {
        let src = self.source_bytes();
        let _ = self.tree.len();
        let mut out: Vec<OutlineSymbol> = Vec::new();
        collect_outline(&self.tree, src, 0, &mut out);
        assert(outline_views(out@) =~= outline(self.bytes(), self.nodes(), 0));
        out
    }

    /// Whether native CEA completion applies at `position` (see [`native_completion_at`]).
    pub fn native_completion_allowed(&self, position: Position) -> (r: bool)
        ensures
            r == native_completion_at(self.bytes(), self.nodes(), position),
    {
        let src = self.source_bytes();
        let virtual_document = self.lua_virtual_document();
        let ranges = &virtual_document.ranges;
        let mut j: usize = 0;
        while j < ranges.len()
            invariant
                j <= ranges@.len(),
                ranges@ == lua_ranges(self.bytes(), self.nodes()),
                forall|q: int| 0 <= q < j ==> !((#[trigger] ranges@[q]).start.le(position) && position.lt(ranges@[q].end)),
            decreases ranges@.len() - j,
        {
            let range = ranges[j];
            if range.start.at_or_before(&position) && position.before(&range.end) {
                assert(in_some_range(ranges@, position));
                return false;
            }
            j = j + 1;
        }
        let s = match find_line_start(src, position.line as usize) {
            Some(s) => s,
            None => return false,
        };
        if s >= src.len() {
            return false;
        }
        let e = find_newline(src, s);
        let raw = match slice_string(src, s, e) {
            Some(t) => t,
            None => return false,
        };
        let raw_len = raw.as_str().unicode_len();
        let line: String = if e < src.len() && raw_len > 0 && raw.as_str().get_char(raw_len - 1) == '\r' {
            raw.as_str().substring_char(0, raw_len - 1).to_owned()
        } else {
            raw
        };
        assert(line_text(src@, position.line as nat) == Some(line@));
        let ls = line.as_str();
        let len = ls.unicode_len();
        let limit = position.character as u128;
        let mut k: usize = 0;
        let mut width: u128 = 0;
        while k < len
            invariant
                len == line@.len(),
                ls@ == line@,
                k <= len,
                width <= 2 * k,
                width_prefix_len(line@, k as int, width as int, limit as int) == width_prefix_len(
                    line@,
                    0,
                    0,
                    limit as int,
                ),
            ensures
                k <= len,
                width_prefix_len(line@, 0, 0, limit as int) == k,
            decreases len - k,
        {
            let (_, w16) = char_widths(ls.get_char(k));
            if width + w16 > limit {
                break;
            }
            width = width + w16;
            k = k + 1;
        }
        let ghost prefix = line@.subrange(0, k as int);
        let mut m: usize = 0;
        while m < k
            invariant
                k <= len,
                len == line@.len(),
                ls@ == line@,
                prefix == line@.subrange(0, k as int),
                m <= k,
                leading_space(prefix, m as int) == leading_space(prefix, 0),
            ensures
                m <= k,
                leading_space(prefix, 0) == m,
            decreases k - m,
        {
            if !whitespace_char(ls.get_char(m)) {
                break;
            }
            m = m + 1;
        }
        let ghost t = prefix.skip(m as int);
        let rest = k - m;
        let comment = rest >= 2 && ls.get_char(m) == '/' && ls.get_char(m + 1) == '/';
        let lua = rest >= 5 && ls.get_char(m) == '{' && ls.get_char(m + 1) == '$' && ls.get_char(m + 2)
            == 'l' && ls.get_char(m + 3) == 'u' && ls.get_char(m + 4) == 'a';
        assert(comment || lua <==> opens_comment_or_lua(t));
        !comment && !lua
    }

    /// The symbol occurrences of the script.
    pub fn symbol_index(&self) -> (r: DocumentSymbolIndex)
        ensures
            r@ == document_occurrences(self.bytes(), self.nodes()),
    {
        DocumentSymbolIndex::build(&self.tree, self.source.as_str())
    }
}

} // verus!
