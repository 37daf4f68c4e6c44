//! Workspace navigation over the symbol index: definitions, references,
//! highlights, renames and completion of CEA symbols.
use vstd::prelude::*;
use vstd::string::StrSliceExecFns;
use crate::text::{Position, Range};
use crate::symbol_index::{CeaSymbolKind, OccurrenceRole, OccurrenceView, SymbolOccurrence, innermost_at, size_lt, range_size, contains};
use crate::workspace_index::{WorkspaceSymbolIndex, DocumentsView, IndexedOccurrence, indexed_views, lookup, named_matches, declarations_of, declared_names, sorted_unique_names, name_views, key, is_declaring};

verus! {

/// At most one occurrence is the innermost one at a position.
pub proof fn lemma_innermost_unique(occs: Seq<OccurrenceView>, p: Position, a: int, b: int)
    requires
        innermost_at(occs, p, a),
        innermost_at(occs, p, b),
    ensures
        a == b,
{
    if a < b {
        assert(contains(occs[a].range, p));
        assert(size_lt(range_size(occs[b].range), range_size(occs[a].range)));
        assert(!size_lt(range_size(occs[b].range), range_size(occs[a].range)));
    } else if b < a {
        assert(contains(occs[b].range, p));
        assert(size_lt(range_size(occs[a].range), range_size(occs[b].range)));
        assert(!size_lt(range_size(occs[a].range), range_size(occs[b].range)));
    }
}

/// The name of the innermost occurrence at `p` in the document at `uri`.
pub open spec fn name_at(docs: DocumentsView, uri: Seq<char>, p: Position) -> Option<Seq<char>> {
    match lookup(docs, uri) {
        None => None,
        Some(occs) => if exists|j: int| innermost_at(occs, p, j) {
            Some(occs[choose|j: int| innermost_at(occs, p, j)].name)
        } else {
            None
        },
    }
}

/// The name of the innermost occurrence at `position` in the document at `uri`.
pub fn name_at_position(index: &WorkspaceSymbolIndex, uri: &str, position: Position) -> (r: Option<String>)
    ensures
        r matches Some(n) ==> name_at(index@, uri@, position) == Some(n@),
        r is None ==> name_at(index@, uri@, position) is None,
{
    match index.occurrence_at(uri, position) {
        Some(o) => {
            proof {
                let occs = lookup(index@, uri@)->Some_0;
                let j = choose|j: int| innermost_at(occs, position, j) && o@ == occs[j];
                let c = choose|j: int| innermost_at(occs, position, j);
                lemma_innermost_unique(occs, position, j, c);
            }
            Some(o.name.clone())
        },
        None => None,
    }
}

/// A location: a document URI and a range in it.
pub open spec fn location_of(m: (Seq<char>, OccurrenceView)) -> (Seq<char>, Range) {
    (m.0, m.1.range)
}

pub open spec fn location_views(v: Seq<(String, Range)>) -> Seq<(Seq<char>, Range)> {
    v.map_values(|l: (String, Range)| (l.0@, l.1))
}

fn locations(m: &Vec<IndexedOccurrence>) -> (r: Vec<(String, Range)>)
    ensures
        location_views(r@) == indexed_views(m@).map_values(|x: (Seq<char>, OccurrenceView)| location_of(x)),
{
    let mut out: Vec<(String, Range)> = Vec::new();
    let mut j: usize = 0;
    while j < m.len()
        invariant
            j <= m@.len(),
            location_views(out@) == indexed_views(m@).subrange(0, j as int).map_values(
                |x: (Seq<char>, OccurrenceView)| location_of(x),
            ),
        decreases m@.len() - j,
    {
        let ghost before = location_views(out@);
        let ghost x = indexed_views(m@)[j as int];
        assert(x == (m@[j as int].uri@, m@[j as int].occurrence@));
        out.push((m[j].uri.clone(), m[j].occurrence.range));
        assert(location_views(out@) =~= before.push(location_of(x)));
        assert(indexed_views(m@).subrange(0, j + 1) =~= indexed_views(m@).subrange(0, j as int).push(x));
        assert(indexed_views(m@).subrange(0, j as int).push(x).map_values(
            |x: (Seq<char>, OccurrenceView)| location_of(x),
        ) =~= before.push(location_of(x)));
        j = j + 1;
    }
    assert(indexed_views(m@).subrange(0, j as int) =~= indexed_views(m@));
    out
}

/// The declarations and definitions of the symbol at a position (see
/// [`declarations_of`]), none when there is no symbol or no declaration.
pub open spec fn definitions_at(docs: DocumentsView, uri: Seq<char>, p: Position) -> Option<
    Seq<(Seq<char>, Range)>,
> {
    match name_at(docs, uri, p) {
        None => None,
        Some(n) => {
            let l = declarations_of(docs, key(n)).map_values(
                |x: (Seq<char>, OccurrenceView)| location_of(x),
            );
            if l.len() == 0 {
                None
            } else {
                Some(l)
            }
        },
    }
}

pub fn native_definitions(index: &WorkspaceSymbolIndex, uri: &str, position: Position) -> (r: Option<
    Vec<(String, Range)>,
>)
    ensures
        match definitions_at(index@, uri@, position) {
            None => r is None,
            Some(l) => r matches Some(v) && location_views(v@) == l,
        },
{
    let name = match name_at_position(index, uri, position) {
        Some(n) => n,
        None => return None,
    };
    let found = index.declarations_named(name.as_str());
    let l = locations(&found);
    if l.len() == 0 {
        None
    } else {
        Some(l)
    }
}

/// The occurrences kept for a references request: all of them, or only
/// those that neither declare nor define.
pub open spec fn reference_filter(
    m: Seq<(Seq<char>, OccurrenceView)>,
    include_declaration: bool,
) -> Seq<(Seq<char>, OccurrenceView)>
    decreases m.len(),
{
    if m.len() == 0 {
        Seq::empty()
    } else {
        reference_filter(m.drop_last(), include_declaration) + if include_declaration
            || !is_declaring(m.last().1.role) {
            seq![m.last()]
        } else {
            Seq::empty()
        }
    }
}

pub open spec fn references_at(docs: DocumentsView, uri: Seq<char>, p: Position, include_declaration: bool) -> Option<
    Seq<(Seq<char>, Range)>,
> {
    match name_at(docs, uri, p) {
        None => None,
        Some(n) => Some(
            reference_filter(named_matches(docs, key(n)), include_declaration).map_values(
                |x: (Seq<char>, OccurrenceView)| location_of(x),
            ),
        ),
    }
}

pub fn native_references(
    index: &WorkspaceSymbolIndex,
    uri: &str,
    position: Position,
    include_declaration: bool,
) -> (r: Option<Vec<(String, Range)>>)
    ensures
        match references_at(index@, uri@, position, include_declaration) {
            None => r is None,
            Some(l) => r matches Some(v) && location_views(v@) == l,
        },
{
    let name = match name_at_position(index, uri, position) {
        Some(n) => n,
        None => return None,
    };
    let found = index.occurrences_named(name.as_str());
    let ghost m = indexed_views(found@);
    let mut out: Vec<(String, Range)> = Vec::new();
    let mut j: usize = 0;
    while j < found.len()
        invariant
            m == indexed_views(found@),
            j <= found@.len(),
            location_views(out@) == reference_filter(m.subrange(0, j as int), include_declaration).map_values(
                |x: (Seq<char>, OccurrenceView)| location_of(x),
            ),
        decreases found@.len() - j,
    {
        assert(m.subrange(0, j + 1).drop_last() =~= m.subrange(0, j as int));
        let o = &found[j];
        let ghost x = m[j as int];
        assert(x == (o.uri@, o.occurrence@));
        assert(m.subrange(0, j + 1).last() == x);
        let ghost prev = reference_filter(m.subrange(0, j as int), include_declaration);
        let ghost before = location_views(out@);
        let role = o.occurrence.role;
        if include_declaration || !(role == OccurrenceRole::Declaration || role == OccurrenceRole::Definition) {
            out.push((o.uri.clone(), o.occurrence.range));
            assert(location_views(out@) =~= before.push(location_of(x)));
            assert(reference_filter(m.subrange(0, j + 1), include_declaration) =~= prev.push(x));
            assert(prev.push(x).map_values(|x: (Seq<char>, OccurrenceView)| location_of(x)) =~= before.push(
                location_of(x),
            ));
        } else {
            assert(reference_filter(m.subrange(0, j + 1), include_declaration) =~= prev);
        }
        j = j + 1;
    }
    assert(m.subrange(0, j as int) =~= m);
    Some(out)
}

/// The ranges of the occurrences in the document `uri`.
pub open spec fn ranges_in(m: Seq<(Seq<char>, OccurrenceView)>, uri: Seq<char>) -> Seq<Range>
    decreases m.len(),
{
    if m.len() == 0 {
        Seq::empty()
    } else {
        ranges_in(m.drop_last(), uri) + if m.last().0 == uri {
            seq![m.last().1.range]
        } else {
            Seq::empty()
        }
    }
}

pub open spec fn highlights_at(docs: DocumentsView, uri: Seq<char>, p: Position) -> Option<Seq<Range>> {
    match name_at(docs, uri, p) {
        None => None,
        Some(n) => Some(ranges_in(named_matches(docs, key(n)), uri)),
    }
}

pub fn native_highlights(index: &WorkspaceSymbolIndex, uri: &str, position: Position) -> (r: Option<Vec<Range>>)
    ensures
        match highlights_at(index@, uri@, position) {
            None => r is None,
            Some(l) => r matches Some(v) && v@ == l,
        },
{
    let name = match name_at_position(index, uri, position) {
        Some(n) => n,
        None => return None,
    };
    let found = index.occurrences_named(name.as_str());
    let ghost m = indexed_views(found@);
    let mut out: Vec<Range> = Vec::new();
    let mut j: usize = 0;
    while j < found.len()
        invariant
            m == indexed_views(found@),
            j <= found@.len(),
            out@ == ranges_in(m.subrange(0, j as int), uri@),
        decreases found@.len() - j,
    {
        assert(m.subrange(0, j + 1).drop_last() =~= m.subrange(0, j as int));
        let o = &found[j];
        if crate::text::text_eq(o.uri.as_str(), uri) {
            out.push(o.occurrence.range);
        }
        j = j + 1;
    }
    assert(m.subrange(0, j as int) =~= m);
    Some(out)
}

/// A valid symbol name: a letter or one of `_?.$`, then letters, digits and `_.$?`.
pub open spec fn valid_name(name: Seq<char>) -> bool {
    &&& name.len() > 0
    &&& is_name_start(name[0])
    &&& forall|i: int| 1 <= i < name.len() ==> is_name_continue(#[trigger] name[i])
}

pub open spec fn is_name_start(c: char) -> bool {
    ('a' <= c && c <= 'z') || ('A' <= c && c <= 'Z') || c == '_' || c == '?' || c == '.' || c == '$'
}

pub open spec fn is_name_continue(c: char) -> bool {
    ('a' <= c && c <= 'z') || ('A' <= c && c <= 'Z') || ('0' <= c && c <= '9') || c == '_' || c == '.'
        || c == '$' || c == '?'
}

pub fn valid_symbol_name(name: &str) -> (r: bool)
    ensures
        r == valid_name(name@),
{
    let len = name.unicode_len();
    if len == 0 {
        return false;
    }
    let c = name.get_char(0);
    if !(('a' <= c && c <= 'z') || ('A' <= c && c <= 'Z') || c == '_' || c == '?' || c == '.' || c == '$') {
        return false;
    }
    let mut i: usize = 1;
    while i < len
        invariant
            len == name@.len(),
            1 <= i <= len,
            forall|q: int| 1 <= q < i ==> is_name_continue(#[trigger] name@[q]),
        decreases len - i,
    {
        let c = name.get_char(i);
        if !(('a' <= c && c <= 'z') || ('A' <= c && c <= 'Z') || ('0' <= c && c <= '9') || c == '_' || c
            == '.' || c == '$' || c == '?') {
            return false;
        }
        i = i + 1;
    }
    true
}

pub open spec fn rename_at(docs: DocumentsView, uri: Seq<char>, p: Position, new_name: Seq<char>) -> Option<
    Seq<(Seq<char>, Range)>,
> {
    if !valid_name(new_name) {
        None
    } else {
        match name_at(docs, uri, p) {
            None => None,
            Some(n) => Some(
                named_matches(docs, key(n)).map_values(|x: (Seq<char>, OccurrenceView)| location_of(x)),
            ),
        }
    }
}

/// The locations to replace with `new_name` when renaming the symbol at a
/// position, in index order; none for an invalid name or no symbol.
pub fn native_rename(index: &WorkspaceSymbolIndex, uri: &str, position: Position, new_name: &str) -> (r: Option<
    Vec<(String, Range)>,
>)
    ensures
        match rename_at(index@, uri@, position, new_name@) {
            None => r is None,
            Some(l) => r matches Some(v) && location_views(v@) == l,
        },
{
    if !valid_symbol_name(new_name) {
        return None;
    }
    let name = match name_at_position(index, uri, position) {
        Some(n) => n,
        None => return None,
    };
    let found = index.occurrences_named(name.as_str());
    Some(locations(&found))
}

proof fn lemma_reference_filter_all(m: Seq<(Seq<char>, OccurrenceView)>)
    ensures
        reference_filter(m, true) == m,
    decreases m.len(),
{
    if m.len() > 0 {
        lemma_reference_filter_all(m.drop_last());
        assert(m.drop_last().push(m.last()) =~= m);
    }
}

/// An occurrence that neither declares nor defines its symbol.
pub open spec fn not_declaring() -> spec_fn((Seq<char>, OccurrenceView)) -> bool {
    |x: (Seq<char>, OccurrenceView)| x.1.role != OccurrenceRole::Declaration && x.1.role != OccurrenceRole::Definition
}

proof fn lemma_reference_filter_plain(m: Seq<(Seq<char>, OccurrenceView)>)
    ensures
        reference_filter(m, false) == m.filter(not_declaring()),
    decreases m.len(),
{
    reveal(Seq::filter);
    if m.len() > 0 {
        let p = m.drop_last();
        let x = m.last();
        lemma_reference_filter_plain(p);
        p.lemma_filter_push(x, not_declaring());
        assert(p.push(x) =~= m);
        if is_declaring(x.1.role) {
            assert(reference_filter(m, false) =~= reference_filter(p, false));
        } else {
            assert(reference_filter(m, false) =~= reference_filter(p, false).push(x));
        }
    }
}

/// A references request lists every occurrence of the symbol at the
/// position, in index order, when declarations are included; without them
/// it lists exactly those occurrences that neither declare nor define it,
/// in the same order. There is no answer when no symbol is at the position.
pub proof fn law_references_leave_out_declarations_on_request(docs: DocumentsView, uri: Seq<char>, p: Position)
    ensures
        match name_at(docs, uri, p) {
            None => references_at(docs, uri, p, false) is None && references_at(docs, uri, p, true) is None,
            Some(n) => {
                &&& references_at(docs, uri, p, false) == Some(
                    named_matches(docs, key(n)).filter(not_declaring()).map_values(
                        |x: (Seq<char>, OccurrenceView)| location_of(x),
                    ),
                )
                &&& references_at(docs, uri, p, true) == Some(
                    named_matches(docs, key(n)).map_values(|x: (Seq<char>, OccurrenceView)| location_of(x)),
                )
            },
        },
{
    match name_at(docs, uri, p) {
        Some(n) => {
            lemma_reference_filter_plain(named_matches(docs, key(n)));
            lemma_reference_filter_all(named_matches(docs, key(n)));
        },
        None => {},
    }
}

/// A rename to a valid name edits exactly the locations that a references
/// request including declarations lists, in the same order.
pub proof fn law_rename_edits_all_references(docs: DocumentsView, uri: Seq<char>, p: Position, new_name: Seq<char>)
    requires
        valid_name(new_name),
    ensures
        rename_at(docs, uri, p, new_name) == references_at(docs, uri, p, true),
{
    match name_at(docs, uri, p) {
        Some(n) => lemma_reference_filter_all(named_matches(docs, key(n))),
        None => {},
    }
}

/// How a completion item is presented.
#[derive(Clone, Copy, Debug, PartialEq, Eq, Structural)]
pub enum CompletionKind {
    Constant,
    Reference,
    Variable,
}

pub open spec fn completion_kind_of(kind: CeaSymbolKind) -> CompletionKind {
    match kind {
        CeaSymbolKind::Definition => CompletionKind::Constant,
        CeaSymbolKind::Label => CompletionKind::Reference,
        CeaSymbolKind::Allocation | CeaSymbolKind::Registered => CompletionKind::Variable,
    }
}

pub fn completion_kind(kind: CeaSymbolKind) -> (r: CompletionKind)
    ensures
        r == completion_kind_of(kind),
{
    match kind {
        CeaSymbolKind::Definition => CompletionKind::Constant,
        CeaSymbolKind::Label => CompletionKind::Reference,
        CeaSymbolKind::Allocation | CeaSymbolKind::Registered => CompletionKind::Variable,
    }
}

/// A completion item for a CEA symbol.
pub struct CompletionEntry {
    pub label: String,
    pub kind: Option<CompletionKind>,
    pub detail: String,
    pub sort_text: String,
}

/// The item for `name`: its kind is that of its first declaration.
pub open spec fn entry_for(docs: DocumentsView, name: Seq<char>) -> (Seq<char>, Option<CompletionKind>, Seq<char>, Seq<char>) {
    let d = declarations_of(docs, key(name));
    (
        name,
        if d.len() > 0 {
            Some(completion_kind_of(d[0].1.kind))
        } else {
            None
        },
        "CEA symbol"@,
        "0_"@ + name,
    )
}

pub open spec fn entry_views(v: Seq<CompletionEntry>) -> Seq<(Seq<char>, Option<CompletionKind>, Seq<char>, Seq<char>)> {
    v.map_values(|e: CompletionEntry| (e.label@, e.kind, e.detail@, e.sort_text@))
}

/// One item per declared name, sorted as [`sorted_unique_names`] orders them.
pub fn native_completions(index: &WorkspaceSymbolIndex) -> (r: Vec<CompletionEntry>)
    ensures
        exists|names: Seq<Seq<char>>| #![trigger sorted_unique_names(names, declared_names(index@))]
            sorted_unique_names(names, declared_names(index@)) && entry_views(r@) == names.map_values(
                |n: Seq<char>| entry_for(index@, n),
            ),
{
    let names = index.symbol_names();
    let ghost nv = name_views(names@);
    let mut out: Vec<CompletionEntry> = Vec::new();
    let mut j: usize = 0;
    while j < names.len()
        invariant
            nv == name_views(names@),
            j <= names@.len(),
            entry_views(out@) == nv.subrange(0, j as int).map_values(|n: Seq<char>| entry_for(index@, n)),
        decreases names@.len() - j,
    {
        let name = &names[j];
        let declarations = index.declarations_named(name.as_str());
        let kind = if declarations.len() > 0 {
            assert(indexed_views(declarations@)[0] == declarations@[0]@);
            Some(completion_kind(declarations[0].occurrence.kind))
        } else {
            None
        };
        let ghost before = entry_views(out@);
        let mut sort_text = String::from_str("0_");
        sort_text.append(name.as_str());
        out.push(CompletionEntry {
            label: name.clone(),
            kind,
            detail: String::from_str("CEA symbol"),
            sort_text,
        });
        assert(nv[j as int] == name@);
        assert(entry_views(out@) =~= before.push(entry_for(index@, name@)));
        assert(nv.subrange(0, j + 1) =~= nv.subrange(0, j as int).push(name@));
        assert(nv.subrange(0, j as int).push(name@).map_values(|n: Seq<char>| entry_for(index@, n))
            =~= before.push(entry_for(index@, name@)));
        j = j + 1;
    }
    assert(nv.subrange(0, j as int) =~= nv);
    out
}

} // verus!
