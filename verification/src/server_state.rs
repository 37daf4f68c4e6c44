//! The documents the server knows, open in the editor or read from the
//! workspace folders, and the symbol index kept in step with them.
use vstd::prelude::*;
use crate::keyed::{UriMap, value_of, put, drop_key, distinct_keys, lemma_put, lemma_drop_key, put_all};
use crate::document::{Document, LuaVirtualDocument, document_diagnostics};
use crate::symbol_index::{OccurrenceView, document_occurrences};
use crate::workspace_index::{WorkspaceSymbolIndex, DocumentsView, document_semantic_diagnostics};
use crate::diagnostics::{CeaDiagnostic, DiagnosticView, diagnostic_views, copy_diagnostics};
use crate::text::text_eq;

verus! {

/// A document open in the editor, with the version the editor gave it.
pub struct OpenDocument {
    pub document: Document,
    pub version: i32,
}

pub open spec fn occurrences_of(d: Document) -> Seq<OccurrenceView> {
    document_occurrences(d.bytes(), d.nodes())
}

/// What the index should hold for `uri`: the occurrences of its open
/// document, else of its document on disk, else nothing.
pub open spec fn expected_occurrences(
    open: Seq<(Seq<char>, OpenDocument)>,
    disk: Seq<(Seq<char>, Document)>,
    uri: Seq<char>,
) -> Option<Seq<OccurrenceView>> {
    match value_of(open, uri) {
        Some(o) => Some(occurrences_of(o.document)),
        None => match value_of(disk, uri) {
            Some(d) => Some(occurrences_of(d)),
            None => None,
        },
    }
}

/// Discovered documents as disk records.
pub open spec fn disk_entries(items: Seq<(String, Document)>) -> Seq<(Seq<char>, Document)> {
    items.map_values(|p: (String, Document)| (p.0@, p.1))
}

/// Discovered documents as index records.
pub open spec fn occurrence_entries(items: Seq<(String, Document)>) -> Seq<(Seq<char>, Seq<OccurrenceView>)> {
    items.map_values(|p: (String, Document)| (p.0@, occurrences_of(p.1)))
}

/// The index agrees with the documents for every URI.
pub open spec fn index_consistent(
    symbols: DocumentsView,
    open: Seq<(Seq<char>, OpenDocument)>,
    disk: Seq<(Seq<char>, Document)>,
) -> bool {
    forall|uri: Seq<char>| #[trigger] value_of(symbols, uri) == expected_occurrences(open, disk, uri)
}

/// The semantic diagnostics of the indexed documents, by URI.
pub open spec fn semantic_view(docs: DocumentsView) -> Seq<(Seq<char>, Seq<DiagnosticView>)> {
    Seq::new(docs.len(), |d: int| (docs[d].0, document_semantic_diagnostics(docs, d)))
}

pub open spec fn diagnostics_for(semantic: Seq<(Seq<char>, Seq<DiagnosticView>)>, uri: Seq<char>) -> Seq<
    DiagnosticView,
> {
    match value_of(semantic, uri) {
        Some(v) => v,
        None => Seq::empty(),
    }
}

/// The CEA diagnostics to publish: for each open document, then for each
/// document on disk that is not open, its own diagnostics followed by its
/// semantic ones.
pub open spec fn cea_publications(
    open: Seq<(Seq<char>, OpenDocument)>,
    disk: Seq<(Seq<char>, Document)>,
    semantic: Seq<(Seq<char>, Seq<DiagnosticView>)>,
) -> Seq<(Seq<char>, Seq<DiagnosticView>)> {
    open.map_values(
        |e: (Seq<char>, OpenDocument)|
            (
                e.0,
                document_diagnostics(e.1.document.bytes(), e.1.document.nodes()) + diagnostics_for(
                    semantic,
                    e.0,
                ),
            ),
    ) + closed_publications(open, disk, semantic)
}

pub open spec fn closed_publications(
    open: Seq<(Seq<char>, OpenDocument)>,
    disk: Seq<(Seq<char>, Document)>,
    semantic: Seq<(Seq<char>, Seq<DiagnosticView>)>,
) -> Seq<(Seq<char>, Seq<DiagnosticView>)>
    decreases disk.len(),
{
    if disk.len() == 0 {
        Seq::empty()
    } else {
        let (u, d) = disk.last();
        closed_publications(open, disk.drop_last(), semantic) + if value_of(open, u) is Some {
            Seq::empty()
        } else {
            seq![(u, document_diagnostics(d.bytes(), d.nodes()) + diagnostics_for(semantic, u))]
        }
    }
}

pub open spec fn publication_views(v: Seq<(String, Vec<CeaDiagnostic>)>) -> Seq<(Seq<char>, Seq<DiagnosticView>)> {
    v.map_values(|p: (String, Vec<CeaDiagnostic>)| (p.0@, diagnostic_views(p.1@)))
}

/// The documents of the workspace and their symbol index.
pub struct WorkspaceState {
    documents: UriMap<OpenDocument>,
    disk_documents: UriMap<Document>,
    symbols: WorkspaceSymbolIndex,
}

impl WorkspaceState {
    pub closed spec fn open_view(&self) -> Seq<(Seq<char>, OpenDocument)> {
        self.documents@
    }

    pub closed spec fn disk_view(&self) -> Seq<(Seq<char>, Document)> {
        self.disk_documents@
    }

    pub closed spec fn symbols_view(&self) -> DocumentsView {
        self.symbols@
    }

    /// The index agrees with the documents (see [`index_consistent`]).
    pub open spec fn consistent(&self) -> bool {
        index_consistent(self.symbols_view(), self.open_view(), self.disk_view())
    }

    pub fn new() -> (r: WorkspaceState)
        ensures
            r.open_view() == Seq::<(Seq<char>, OpenDocument)>::empty(),
            r.disk_view() == Seq::<(Seq<char>, Document)>::empty(),
            r.symbols_view() == Seq::<(Seq<char>, Seq<OccurrenceView>)>::empty(),
            r.consistent(),
    {
        let r = WorkspaceState {
            documents: UriMap::new(),
            disk_documents: UriMap::new(),
            symbols: WorkspaceSymbolIndex::new(),
        };
        r
    }

    pub fn symbols(&self) -> (r: &WorkspaceSymbolIndex)
        ensures
            r@ == self.symbols_view(),
    {
        &self.symbols
    }

    pub fn open_document(&self, uri: &str) -> (r: Option<&OpenDocument>)
        ensures
            r matches Some(o) ==> value_of(self.open_view(), uri@) == Some(*o),
            r is None ==> value_of(self.open_view(), uri@) is None,
    {
        self.documents.get(uri)
    }

    pub fn is_open(&self, uri: &str) -> (r: bool)
        ensures
            r == value_of(self.open_view(), uri@) is Some,
    {
        self.documents.contains_key(uri)
    }

    /// The URIs of the open documents.
    pub fn open_uris(&self) -> (r: Vec<String>)
        ensures
            r@.map_values(|s: String| s@) == self.open_view().map_values(|e: (Seq<char>, OpenDocument)| e.0),
    {
        let mut out: Vec<String> = Vec::new();
        let mut j: usize = 0;
        while j < self.documents.len()
            invariant
                j <= self.open_view().len(),
                out@.map_values(|s: String| s@) == self.open_view().subrange(0, j as int).map_values(
                    |e: (Seq<char>, OpenDocument)| e.0,
                ),
            decreases self.open_view().len() - j,
        {
            let (u, _) = self.documents.entry(j);
            let ghost before = out@;
            out.push(u.clone());
            proof {
                lemma_map_prefix_step(self.open_view(), j as int, |e: (Seq<char>, OpenDocument)| e.0);
                assert(out@.map_values(|s: String| s@) =~= before.map_values(|s: String| s@).push(u@));
            }
            j = j + 1;
        }
        assert(self.open_view().subrange(0, j as int) =~= self.open_view());
        out
    }

    /// The URIs of the documents read from disk.
    pub fn disk_uris(&self) -> (r: Vec<String>)
        ensures
            r@.map_values(|s: String| s@) == self.disk_view().map_values(|e: (Seq<char>, Document)| e.0),
    {
        let mut out: Vec<String> = Vec::new();
        let mut j: usize = 0;
        while j < self.disk_documents.len()
            invariant
                j <= self.disk_view().len(),
                out@.map_values(|s: String| s@) == self.disk_view().subrange(0, j as int).map_values(
                    |e: (Seq<char>, Document)| e.0,
                ),
            decreases self.disk_view().len() - j,
        {
            let (u, _) = self.disk_documents.entry(j);
            let ghost before = out@;
            out.push(u.clone());
            proof {
                lemma_map_prefix_step(self.disk_view(), j as int, |e: (Seq<char>, Document)| e.0);
                assert(out@.map_values(|s: String| s@) =~= before.map_values(|s: String| s@).push(u@));
            }
            j = j + 1;
        }
        assert(self.disk_view().subrange(0, j as int) =~= self.disk_view());
        out
    }

    /// Opens or changes a document: it replaces the open version and its
    /// occurrences in the index. Gives back its virtual Lua document.
    pub fn update_document(&mut self, uri: String, document: Document, version: i32) -> (r: LuaVirtualDocument)
        ensures
            final(self).open_view() == put(old(self).open_view(), uri@, OpenDocument { document, version }),
            final(self).disk_view() == old(self).disk_view(),
            final(self).symbols_view() == put(old(self).symbols_view(), uri@, occurrences_of(document)),
            old(self).consistent() ==> final(self).consistent(),
            r.source@ == crate::document::lua_text(document.text(), document.nodes()),
            r.ranges@ == crate::document::lua_ranges(document.bytes(), document.nodes()),
    {
        let ghost before = *self;
        let virtual_document = document.lua_virtual_document();
        let index = document.symbol_index();
        let _ = self.symbols.check_distinct();
        let _ = self.documents.keys_distinct();
        let ghost u = uri@;
        let ghost od = OpenDocument { document, version };
        self.documents.insert(uri.clone(), OpenDocument { document, version });
        self.symbols.update(uri, index);
        proof {
            if before.consistent() {
                assert forall|x: Seq<char>| #[trigger] value_of(self.symbols_view(), x)
                    == expected_occurrences(self.open_view(), self.disk_view(), x) by {
                    lemma_put(before.symbols_view(), u, occurrences_of(od.document), x);
                    lemma_put(before.open_view(), u, od, x);
                    assert(value_of(before.symbols_view(), x) == expected_occurrences(
                        before.open_view(),
                        before.disk_view(),
                        x,
                    ));
                }
            }
        }
        virtual_document
    }

    /// Closes a document: the index falls back to its version on disk when
    /// there is one (`disk_document`), else forgets it.
    pub fn close_document(&mut self, uri: String, disk_document: Option<Document>)
        ensures
            final(self).open_view() == drop_key(old(self).open_view(), uri@),
            match disk_document {
                Some(d) => {
                    &&& final(self).disk_view() == put(old(self).disk_view(), uri@, d)
                    &&& final(self).symbols_view() == put(old(self).symbols_view(), uri@, occurrences_of(d))
                },
                None => {
                    &&& final(self).disk_view() == drop_key(old(self).disk_view(), uri@)
                    &&& final(self).symbols_view() == drop_key(old(self).symbols_view(), uri@)
                },
            },
            old(self).consistent() ==> final(self).consistent(),
    {
        let ghost before = *self;
        let ghost u = uri@;
        let _ = self.symbols.check_distinct();
        let _ = self.documents.keys_distinct();
        let _ = self.disk_documents.keys_distinct();
        self.documents.remove(uri.as_str());
        match disk_document {
            Some(d) => {
                let ghost dd = d;
                let index = d.symbol_index();
                self.symbols.update(uri.clone(), index);
                self.disk_documents.insert(uri, d);
                proof {
                    if before.consistent() {
                        assert forall|x: Seq<char>| #[trigger] value_of(self.symbols_view(), x)
                            == expected_occurrences(self.open_view(), self.disk_view(), x) by {
                            lemma_put(before.symbols_view(), u, occurrences_of(dd), x);
                            lemma_put(before.disk_view(), u, dd, x);
                            lemma_drop_key(before.open_view(), u, x);
                            assert(value_of(before.symbols_view(), x) == expected_occurrences(
                                before.open_view(),
                                before.disk_view(),
                                x,
                            ));
                        }
                    }
                }
            },
            None => {
                self.symbols.remove(uri.as_str());
                self.disk_documents.remove(uri.as_str());
                proof {
                    if before.consistent() {
                        assert forall|x: Seq<char>| #[trigger] value_of(self.symbols_view(), x)
                            == expected_occurrences(self.open_view(), self.disk_view(), x) by {
                            lemma_drop_key(before.symbols_view(), u, x);
                            lemma_drop_key(before.disk_view(), u, x);
                            lemma_drop_key(before.open_view(), u, x);
                            assert(value_of(before.symbols_view(), x) == expected_occurrences(
                                before.open_view(),
                                before.disk_view(),
                                x,
                            ));
                        }
                    }
                }
            },
        }
    }

    /// Records a document read from disk; the index takes it unless the
    /// document is open.
    pub fn add_disk_document(&mut self, uri: String, document: Document)
        ensures
            final(self).open_view() == old(self).open_view(),
            final(self).disk_view() == put(old(self).disk_view(), uri@, document),
            value_of(old(self).open_view(), uri@) is Some ==> final(self).symbols_view()
                == old(self).symbols_view(),
            value_of(old(self).open_view(), uri@) is None ==> final(self).symbols_view() == put(
                old(self).symbols_view(),
                uri@,
                occurrences_of(document),
            ),
            old(self).consistent() ==> final(self).consistent(),
    {
        let ghost before = *self;
        let ghost u = uri@;
        let ghost dd = document;
        let _ = self.symbols.check_distinct();
        let _ = self.documents.keys_distinct();
        let _ = self.disk_documents.keys_distinct();
        if !self.documents.contains_key(uri.as_str()) {
            let index = document.symbol_index();
            self.symbols.update(uri.clone(), index);
        }
        self.disk_documents.insert(uri, document);
        proof {
            if before.consistent() {
                assert forall|x: Seq<char>| #[trigger] value_of(self.symbols_view(), x)
                    == expected_occurrences(self.open_view(), self.disk_view(), x) by {
                    lemma_put(before.symbols_view(), u, occurrences_of(dd), x);
                    lemma_put(before.disk_view(), u, dd, x);
                    assert(value_of(before.symbols_view(), x) == expected_occurrences(
                        before.open_view(),
                        before.disk_view(),
                        x,
                    ));
                }
            }
        }
    }

    /// Forgets a document on disk; the index forgets it too unless it is open.
    pub fn forget_disk_document(&mut self, uri: &str)
        ensures
            final(self).open_view() == old(self).open_view(),
            final(self).disk_view() == drop_key(old(self).disk_view(), uri@),
            value_of(old(self).open_view(), uri@) is Some ==> final(self).symbols_view()
                == old(self).symbols_view(),
            value_of(old(self).open_view(), uri@) is None ==> final(self).symbols_view() == drop_key(
                old(self).symbols_view(),
                uri@,
            ),
            old(self).consistent() ==> final(self).consistent(),
    {
        let ghost before = *self;
        let _ = self.symbols.check_distinct();
        let _ = self.documents.keys_distinct();
        let _ = self.disk_documents.keys_distinct();
        if !self.documents.contains_key(uri) {
            self.symbols.remove(uri);
        }
        self.disk_documents.remove(uri);
        proof {
            if before.consistent() {
                assert forall|x: Seq<char>| #[trigger] value_of(self.symbols_view(), x)
                    == expected_occurrences(self.open_view(), self.disk_view(), x) by {
                    lemma_drop_key(before.symbols_view(), uri@, x);
                    lemma_drop_key(before.disk_view(), uri@, x);
                    assert(value_of(before.symbols_view(), x) == expected_occurrences(
                        before.open_view(),
                        before.disk_view(),
                        x,
                    ));
                }
            }
        }
    }

    /// A watched file was deleted: unless it is open, it leaves the disk
    /// documents and the index.
    pub fn file_deleted(&mut self, uri: &str)
        ensures
            value_of(old(self).open_view(), uri@) is Some ==> *final(self) == *old(self),
            value_of(old(self).open_view(), uri@) is None ==> {
                &&& final(self).open_view() == old(self).open_view()
                &&& final(self).disk_view() == drop_key(old(self).disk_view(), uri@)
                &&& final(self).symbols_view() == drop_key(old(self).symbols_view(), uri@)
            },
            old(self).consistent() ==> final(self).consistent(),
    {
        if self.documents.contains_key(uri) {
            return;
        }
        self.forget_disk_document(uri);
    }

    /// A watched file changed and was read again: unless it is open, the new
    /// version replaces the old one on disk and in the index.
    pub fn file_changed(&mut self, uri: String, document: Document)
        ensures
            value_of(old(self).open_view(), uri@) is Some ==> *final(self) == *old(self),
            value_of(old(self).open_view(), uri@) is None ==> {
                &&& final(self).open_view() == old(self).open_view()
                &&& final(self).disk_view() == put(old(self).disk_view(), uri@, document)
                &&& final(self).symbols_view() == put(
                    old(self).symbols_view(),
                    uri@,
                    occurrences_of(document),
                )
            },
            old(self).consistent() ==> final(self).consistent(),
    {
        if self.documents.contains_key(uri.as_str()) {
            return;
        }
        self.add_disk_document(uri, document);
    }

    /// Records the documents found in the workspace folders at start-up,
    /// in place of any earlier ones; each enters the index, in order.
    pub fn initialize(&mut self, discovered: Vec<(String, Document)>)
        ensures
            final(self).open_view() == old(self).open_view(),
            final(self).disk_view() == put_all(Seq::empty(), disk_entries(discovered@)),
            final(self).symbols_view() == put_all(old(self).symbols_view(), occurrence_entries(discovered@)),
            old(self).open_view().len() == 0 && old(self).symbols_view().len() == 0 ==> final(self).consistent(),
    {
        let ghost start = *self;
        let ghost all = discovered@;
        let ghost dv = disk_entries(all);
        let ghost ov = occurrence_entries(all);
        let mut discovered = discovered;
        let mut disk: UriMap<Document> = UriMap::new();
        let mut pending: Vec<(String, Document)> = Vec::new();
        while discovered.len() > 0
            invariant
                self.open_view() == start.open_view(),
                *self == start,
                discovered@.len() + pending@.len() == all.len(),
                forall|i: int| 0 <= i < discovered@.len() ==> discovered@[i] == all[i],
                forall|j: int| 0 <= j < pending@.len() ==> pending@[j] == all[all.len() - 1 - j],
            decreases discovered@.len(),
        {
            let item = discovered.pop().unwrap();
            pending.push(item);
        }
        let _ = self.symbols.check_distinct();
        let ghost mut k: int = 0;
        assert(dv.subrange(0, 0) =~= Seq::<(Seq<char>, Document)>::empty());
        assert(ov.subrange(0, 0) =~= Seq::<(Seq<char>, Seq<OccurrenceView>)>::empty());
        while pending.len() > 0
            invariant
                self.open_view() == start.open_view(),
                dv == disk_entries(all),
                ov == occurrence_entries(all),
                0 <= k <= all.len(),
                pending@.len() + k == all.len(),
                forall|j: int| 0 <= j < pending@.len() ==> pending@[j] == all[all.len() - 1 - j],
                disk@ == put_all(Seq::empty(), dv.subrange(0, k)),
                self.symbols_view() == put_all(start.symbols_view(), ov.subrange(0, k)),
                distinct_keys(disk@),
                distinct_keys(self.symbols_view()),
                start.open_view().len() == 0 && start.symbols_view().len() == 0 ==> index_consistent(
                    self.symbols_view(),
                    start.open_view(),
                    disk@,
                ),
            decreases pending@.len(),
        {
            let (uri, document) = pending.pop().unwrap();
            assert(all[k] == (uri, document));
            let ghost before_symbols = self.symbols_view();
            let ghost before_disk = disk@;
            let ghost u = uri@;
            let ghost dd = document;
            let index = document.symbol_index();
            self.symbols.update(uri.clone(), index);
            disk.insert(uri, document);
            let _ = self.symbols.check_distinct();
            proof {
                assert(dv.subrange(0, k + 1).drop_last() =~= dv.subrange(0, k));
                assert(ov.subrange(0, k + 1).drop_last() =~= ov.subrange(0, k));
                assert(dv[k] == (u, dd));
                assert(ov[k] == (u, occurrences_of(dd)));
                if start.open_view().len() == 0 && start.symbols_view().len() == 0 {
                    assert forall|x: Seq<char>| #[trigger] value_of(self.symbols_view(), x)
                        == expected_occurrences(start.open_view(), disk@, x) by {
                        lemma_put(before_symbols, u, occurrences_of(dd), x);
                        lemma_put(before_disk, u, dd, x);
                        assert(value_of(before_symbols, x) == expected_occurrences(
                            start.open_view(),
                            before_disk,
                            x,
                        ));
                    }
                }
                k = k + 1;
            }
        }
        assert(dv.subrange(0, k) =~= dv);
        assert(ov.subrange(0, k) =~= ov);
        self.disk_documents = disk;
    }

    /// The CEA diagnostics of every known document, to publish (see
    /// [`cea_publications`]).
    pub fn cea_diagnostics(&self) -> (r: Vec<(String, Vec<CeaDiagnostic>)>)
        ensures
            publication_views(r@) == cea_publications(
                self.open_view(),
                self.disk_view(),
                semantic_view(self.symbols_view()),
            ),
    {
        let semantic = self.symbols.semantic_diagnostics();
        let ghost sv = semantic_view(self.symbols_view());
        assert(publication_views(semantic@) =~= sv);
        let ghost open = self.open_view();
        let ghost disk = self.disk_view();
        let mut out: Vec<(String, Vec<CeaDiagnostic>)> = Vec::new();
        let mut j: usize = 0;
        while j < self.documents.len()
            invariant
                open == self.open_view(),
                publication_views(semantic@) == sv,
                j <= open.len(),
                publication_views(out@) == open.subrange(0, j as int).map_values(
                    |e: (Seq<char>, OpenDocument)|
                        (
                            e.0,
                            document_diagnostics(e.1.document.bytes(), e.1.document.nodes())
                                + diagnostics_for(sv, e.0),
                        ),
                ),
            decreases open.len() - j,
        {
            let (uri, od) = self.documents.entry(j);
            let mut diagnostics = od.document.diagnostics();
            append_semantic(&semantic, uri.as_str(), &mut diagnostics);
            let ghost before = publication_views(out@);
            out.push((uri.clone(), diagnostics));
            proof {
                lemma_map_prefix_step(
                    open,
                    j as int,
                    |e: (Seq<char>, OpenDocument)|
                        (
                            e.0,
                            document_diagnostics(e.1.document.bytes(), e.1.document.nodes())
                                + diagnostics_for(sv, e.0),
                        ),
                );
                assert(open[j as int] == (uri@, *od));
                assert(publication_views(out@) =~= before.push((uri@, diagnostic_views(diagnostics@))));
            }
            j = j + 1;
        }
        assert(open.subrange(0, j as int) =~= open);
        let ghost opened = publication_views(out@);
        let mut k: usize = 0;
        assert(disk.subrange(0, 0) =~= Seq::<(Seq<char>, Document)>::empty());
        while k < self.disk_documents.len()
            invariant
                open == self.open_view(),
                disk == self.disk_view(),
                publication_views(semantic@) == sv,
                k <= disk.len(),
                publication_views(out@) == opened + closed_publications(open, disk.subrange(0, k as int), sv),
            decreases disk.len() - k,
        {
            let (uri, d) = self.disk_documents.entry(k);
            assert(disk.subrange(0, k + 1).drop_last() =~= disk.subrange(0, k as int));
            assert(disk.subrange(0, k + 1).last() == (uri@, *d));
            if !self.documents.contains_key(uri.as_str()) {
                let mut diagnostics = d.diagnostics();
                append_semantic(&semantic, uri.as_str(), &mut diagnostics);
                let ghost before = publication_views(out@);
                out.push((uri.clone(), diagnostics));
                assert(publication_views(out@) =~= before.push((uri@, diagnostic_views(diagnostics@))));
            }
            k = k + 1;
        }
        assert(disk.subrange(0, k as int) =~= disk);
        out
    }
}

proof fn lemma_map_prefix_step<A, B>(s: Seq<A>, j: int, f: spec_fn(A) -> B)
    requires
        0 <= j < s.len(),
    ensures
        s.subrange(0, j + 1).map_values(f) == s.subrange(0, j).map_values(f).push(f(s[j])),
{
    assert(s.subrange(0, j + 1).map_values(f) =~= s.subrange(0, j).map_values(f).push(f(s[j])));
}

/// Appends the semantic diagnostics recorded for `uri` (the first record).
fn append_semantic(semantic: &Vec<(String, Vec<CeaDiagnostic>)>, uri: &str, out: &mut Vec<CeaDiagnostic>)
    ensures
        diagnostic_views(final(out)@) == diagnostic_views(old(out)@) + diagnostics_for(
            publication_views(semantic@),
            uri@,
        ),
{
    let ghost sv = publication_views(semantic@);
    let mut j: usize = 0;
    while j < semantic.len()
        invariant
            sv == publication_views(semantic@),
            j <= semantic@.len(),
            crate::keyed::find_key(sv, uri@, j as int) == crate::keyed::find_key(sv, uri@, 0),
            *out == *old(out),
        decreases semantic@.len() - j,
    {
        if text_eq(semantic[j].0.as_str(), uri) {
            let copies = copy_diagnostics(&semantic[j].1);
            let mut copies = copies;
            let ghost before = diagnostic_views(out@);
            out.append(&mut copies);
            assert(diagnostic_views(out@) =~= before + sv[j as int].1);
            return;
        }
        j = j + 1;
    }
    assert(diagnostic_views(out@) =~= diagnostic_views(old(out)@) + Seq::<DiagnosticView>::empty());
}

} // verus!
