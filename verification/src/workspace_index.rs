//! The workspace-wide symbol index: the occurrences of every known document,
//! keyed by URI, with case-insensitive lookup and semantic diagnostics.
use vstd::prelude::*;
use vstd::string::StringSliceAdditionalSpecFns;
use vstd::utf8::encode_utf8;
use crate::text::{Position, lower_chars, ascii_lowercase, text_eq};
use crate::symbol_index::{
    DocumentSymbolIndex, SymbolOccurrence, OccurrenceView, OccurrenceRole, CeaSymbolKind,
    innermost_at, contains,
};
use crate::diagnostics::{CeaDiagnostic, DiagnosticView, diagnostic_views, framed};

use crate::keyed::{distinct_keys, find_key, value_of, put, drop_key, lemma_find_key};
verus! {

/// Symbol names compare without regard to ASCII case.
pub open spec fn key(name: Seq<char>) -> Seq<char> {
    lower_chars(name)
}

/// The key of a symbol name (see [`key`]).
pub fn normalize(name: &str) -> (r: String)
    ensures
        r@ == key(name@),
{
    ascii_lowercase(name)
}

/// The bytes by which keys are ordered, as `String`'s `Ord` orders them.
pub open spec fn key_bytes(name: Seq<char>) -> Seq<u8> {
    encode_utf8(key(name))
}

/// Lexicographic order of byte strings.
pub open spec fn bytes_lt(a: Seq<u8>, b: Seq<u8>) -> bool
    decreases a.len(),
{
    if a.len() == 0 {
        b.len() > 0
    } else if b.len() == 0 {
        false
    } else if a[0] < b[0] {
        true
    } else if a[0] == b[0] {
        bytes_lt(a.drop_first(), b.drop_first())
    } else {
        false
    }
}

pub proof fn lemma_bytes_lt_irreflexive(a: Seq<u8>)
    ensures
        !bytes_lt(a, a),
    decreases a.len(),
{
    if a.len() > 0 {
        lemma_bytes_lt_irreflexive(a.drop_first());
    }
}

pub proof fn lemma_bytes_lt_transitive(a: Seq<u8>, b: Seq<u8>, c: Seq<u8>)
    requires
        bytes_lt(a, b),
        bytes_lt(b, c),
    ensures
        bytes_lt(a, c),
    decreases a.len(),
{
    if a.len() > 0 && b.len() > 0 && c.len() > 0 && a[0] == b[0] && b[0] == c[0] {
        lemma_bytes_lt_transitive(a.drop_first(), b.drop_first(), c.drop_first());
    }
}

pub proof fn lemma_bytes_lt_total(a: Seq<u8>, b: Seq<u8>)
    requires
        a != b,
    ensures
        bytes_lt(a, b) || bytes_lt(b, a),
    decreases a.len(),
{
    if a.len() > 0 && b.len() > 0 && a[0] == b[0] {
        if a.drop_first() == b.drop_first() {
            assert(a =~= seq![a[0]] + a.drop_first());
            assert(b =~= seq![b[0]] + b.drop_first());
        }
        lemma_bytes_lt_total(a.drop_first(), b.drop_first());
    } else if a.len() == 0 && b.len() == 0 {
        assert(a =~= b);
    }
}

/// `a < b` on byte strings.
pub fn bytes_less(a: &[u8], b: &[u8]) -> (r: bool)
    ensures
        r == bytes_lt(a@, b@),
{
    let mut i: usize = 0;
    assert(a@.subrange(0, a@.len() as int) =~= a@);
    assert(b@.subrange(0, b@.len() as int) =~= b@);
    while i < a.len() && i < b.len() && a[i] == b[i]
        invariant
            i <= a@.len(),
            i <= b@.len(),
            bytes_lt(a@.subrange(i as int, a@.len() as int), b@.subrange(i as int, b@.len() as int))
                == bytes_lt(a@, b@),
        decreases a@.len() - i,
    {
        assert(a@.subrange(i as int, a@.len() as int).drop_first() =~= a@.subrange(i + 1, a@.len() as int));
        assert(b@.subrange(i as int, b@.len() as int).drop_first() =~= b@.subrange(i + 1, b@.len() as int));
        i = i + 1;
    }
    if i == a.len() {
        i < b.len()
    } else if i == b.len() {
        false
    } else {
        a[i] < b[i]
    }
}

pub open spec fn is_declaring(role: OccurrenceRole) -> bool {
    role == OccurrenceRole::Declaration || role == OccurrenceRole::Definition
}

pub type DocumentsView = Seq<(Seq<char>, Seq<OccurrenceView>)>;

/// No URI occurs twice.
pub open spec fn distinct_uris(docs: DocumentsView) -> bool {
    distinct_keys(docs)
}

/// Index of the document with URI `uri`, searching from `from`.
pub open spec fn find_uri(docs: DocumentsView, uri: Seq<char>, from: int) -> Option<int> {
    find_key(docs, uri, from)
}

/// The occurrences recorded for `uri`.
pub open spec fn lookup(docs: DocumentsView, uri: Seq<char>) -> Option<Seq<OccurrenceView>> {
    value_of(docs, uri)
}

/// Records `occs` for `uri`, replacing an earlier record in place.
pub open spec fn upsert(docs: DocumentsView, uri: Seq<char>, occs: Seq<OccurrenceView>) -> DocumentsView {
    put(docs, uri, occs)
}

/// Forgets the record for `uri`.
pub open spec fn remove_uri(docs: DocumentsView, uri: Seq<char>) -> DocumentsView {
    drop_key(docs, uri)
}

/// The occurrences of one document whose name has key `k`, with its URI.
pub open spec fn doc_matches(uri: Seq<char>, occs: Seq<OccurrenceView>, k: Seq<char>) -> Seq<(Seq<char>, OccurrenceView)>
    decreases occs.len(),
{
    if occs.len() == 0 {
        Seq::empty()
    } else {
        doc_matches(uri, occs.drop_last(), k) + if key(occs.last().name) == k {
            seq![(uri, occs.last())]
        } else {
            Seq::empty()
        }
    }
}

/// The occurrences, over all documents in order, whose name has key `k`.
pub open spec fn named_matches(docs: DocumentsView, k: Seq<char>) -> Seq<(Seq<char>, OccurrenceView)>
    decreases docs.len(),
{
    if docs.len() == 0 {
        Seq::empty()
    } else {
        named_matches(docs.drop_last(), k) + doc_matches(docs.last().0, docs.last().1, k)
    }
}

/// The entries of `m` whose occurrence has role `role`.
pub open spec fn with_role(m: Seq<(Seq<char>, OccurrenceView)>, role: OccurrenceRole) -> Seq<(Seq<char>, OccurrenceView)>
    decreases m.len(),
{
    if m.len() == 0 {
        Seq::empty()
    } else {
        with_role(m.drop_last(), role) + if m.last().1.role == role {
            seq![m.last()]
        } else {
            Seq::empty()
        }
    }
}

/// Definitions first, then declarations, each in document order.
pub open spec fn declarations_of(docs: DocumentsView, k: Seq<char>) -> Seq<(Seq<char>, OccurrenceView)> {
    with_role(named_matches(docs, k), OccurrenceRole::Definition) + with_role(named_matches(docs, k), OccurrenceRole::Declaration)
}

/// The names of the declaring occurrences of one document.
pub open spec fn doc_declared_names(occs: Seq<OccurrenceView>) -> Seq<Seq<char>>
    decreases occs.len(),
{
    if occs.len() == 0 {
        Seq::empty()
    } else {
        doc_declared_names(occs.drop_last()) + if is_declaring(occs.last().role) {
            seq![occs.last().name]
        } else {
            Seq::empty()
        }
    }
}

/// The names of all declaring occurrences, in document order.
pub open spec fn declared_names(docs: DocumentsView) -> Seq<Seq<char>>
    decreases docs.len(),
{
    if docs.len() == 0 {
        Seq::empty()
    } else {
        declared_names(docs.drop_last()) + doc_declared_names(docs.last().1)
    }
}

/// Keys strictly increase along `r`.
#[verifier::opaque]
pub open spec fn keys_sorted(r: Seq<Seq<char>>) -> bool {
    forall|i: int, j: int| 0 <= i < j < r.len() ==> bytes_lt(key_bytes(r[i]), key_bytes(r[j]))
}

/// `names[t]` is `x`, and no earlier name has the key of `x`.
pub open spec fn is_first(names: Seq<Seq<char>>, t: int, x: Seq<char>) -> bool {
    0 <= t < names.len() && names[t] == x && forall|u: int| 0 <= u < t ==> key(#[trigger] names[u]) != key(x)
}

/// An index `t` with `is_first(names, t, x)`, when there is one.
pub open spec fn first_index(names: Seq<Seq<char>>, x: Seq<char>) -> int {
    choose|t: int| is_first(names, t, x)
}

/// Each entry of `r` is the first name of `names` with its key.
pub open spec fn firsts_of(r: Seq<Seq<char>>, names: Seq<Seq<char>>) -> bool {
    forall|i: int| 0 <= i < r.len() ==> is_first(names, first_index(names, #[trigger] r[i]), r[i])
}

/// Entry `i` of `r` has key `k`.
pub open spec fn has_key_at(r: Seq<Seq<char>>, i: int, k: Seq<char>) -> bool {
    0 <= i < r.len() && key(r[i]) == k
}

/// An index of an entry of `r` with key `k`, when there is one.
pub open spec fn key_index(r: Seq<Seq<char>>, k: Seq<char>) -> int {
    choose|i: int| has_key_at(r, i, k)
}

/// Every key of `names` is the key of an entry of `r`.
#[verifier::opaque]
pub open spec fn covers(r: Seq<Seq<char>>, names: Seq<Seq<char>>) -> bool {
    forall|t: int| 0 <= t < names.len() ==> has_key_at(r, key_index(r, key(#[trigger] names[t])), key(names[t]))
}

/// `r` lists each distinct key of `names` once, by increasing key, each time
/// as the first name of `names` with that key.
pub open spec fn sorted_unique_names(r: Seq<Seq<char>>, names: Seq<Seq<char>>) -> bool {
    keys_sorted(r) && firsts_of(r, names) && covers(r, names)
}

pub open spec fn declares(o: OccurrenceView, k: Seq<char>) -> bool {
    is_declaring(o.role) && key(o.name) == k
}

/// Some document declares or defines a symbol with key `k`.
pub open spec fn has_declaration(docs: DocumentsView, k: Seq<char>) -> bool {
    exists|d: int, j: int| 0 <= d < docs.len() && 0 <= j < docs[d].1.len() && declares(#[trigger] docs[d].1[j], k)
}

pub open spec fn needs_resolution(o: OccurrenceView) -> bool {
    o.strict_reference || o.role == OccurrenceRole::Registration
}

pub open spec fn unresolved_message(name: Seq<char>) -> Seq<char> {
    "unresolved CEA symbol `"@ + name + "`"@
}

pub open spec fn kind_name(kind: CeaSymbolKind) -> Seq<char> {
    match kind {
        CeaSymbolKind::Label => "label"@,
        CeaSymbolKind::Allocation => "allocation"@,
        CeaSymbolKind::Definition => "definition"@,
        CeaSymbolKind::Registered => "registration"@,
    }
}

pub open spec fn duplicate_message(kind: CeaSymbolKind, name: Seq<char>) -> Seq<char> {
    "duplicate CEA "@ + kind_name(kind) + " `"@ + name + "`"@
}

/// Diagnostics for strict references and registrations that no document declares.
pub open spec fn unresolved_diagnostics(docs: DocumentsView, occs: Seq<OccurrenceView>) -> Seq<DiagnosticView>
    decreases occs.len(),
{
    if occs.len() == 0 {
        Seq::empty()
    } else {
        let o = occs.last();
        unresolved_diagnostics(docs, occs.drop_last()) + if needs_resolution(o) && !has_declaration(
            docs,
            key(o.name),
        ) {
            seq![DiagnosticView { range: o.range, message: unresolved_message(o.name) }]
        } else {
            Seq::empty()
        }
    }
}

/// Two declaring occurrences of the same kind, role and key.
pub open spec fn same_declaration(a: OccurrenceView, b: OccurrenceView) -> bool {
    is_declaring(a.role) && a.role == b.role && a.kind == b.kind && key(a.name) == key(b.name)
}

/// Occurrence `j` of document `d` repeats an earlier declaration (earlier
/// documents first, then earlier occurrences of the same document).
pub open spec fn repeats_earlier(docs: DocumentsView, d: int, j: int) -> bool {
    exists|d2: int, j2: int|
        ((0 <= d2 < d && 0 <= j2 < docs[d2].1.len()) || (d2 == d && 0 <= j2 < j)) && same_declaration(
            #[trigger] docs[d2].1[j2],
            docs[d].1[j],
        )
}

/// Duplicate-declaration diagnostics for the first `j` occurrences of document `d`.
pub open spec fn duplicate_diagnostics(docs: DocumentsView, d: int, j: int) -> Seq<DiagnosticView>
    decreases j,
{
    if j <= 0 {
        Seq::empty()
    } else {
        let o = docs[d].1[j - 1];
        duplicate_diagnostics(docs, d, j - 1) + if is_declaring(o.role) && repeats_earlier(docs, d, j - 1) {
            seq![DiagnosticView { range: o.range, message: duplicate_message(o.kind, o.name) }]
        } else {
            Seq::empty()
        }
    }
}

/// The semantic diagnostics of document `d`.
pub open spec fn document_semantic_diagnostics(docs: DocumentsView, d: int) -> Seq<DiagnosticView> {
    unresolved_diagnostics(docs, docs[d].1) + duplicate_diagnostics(docs, d, docs[d].1.len() as int)
}

/// The declaring entries of `m` (declarations and definitions), in order.
pub open spec fn declaring(m: Seq<(Seq<char>, OccurrenceView)>) -> Seq<(Seq<char>, OccurrenceView)>
    decreases m.len(),
{
    if m.len() == 0 {
        Seq::empty()
    } else {
        declaring(m.drop_last()) + if is_declaring(m.last().1.role) {
            seq![m.last()]
        } else {
            Seq::empty()
        }
    }
}

/// Some document has a declaring occurrence whose name has key `k`.
pub open spec fn declared_anywhere(docs: DocumentsView, k: Seq<char>) -> bool {
    exists|d: int, j: int|
        0 <= d < docs.len() && 0 <= j < docs[d].1.len() && key((#[trigger] docs[d].1[j]).name) == k
            && is_declaring(docs[d].1[j].role)
}

proof fn lemma_doc_matches(uri: Seq<char>, occs: Seq<OccurrenceView>, k: Seq<char>)
    ensures
        forall|i: int| 0 <= i < doc_matches(uri, occs, k).len() ==> {
            let x = #[trigger] doc_matches(uri, occs, k)[i];
            &&& x.0 == uri
            &&& key(x.1.name) == k
            &&& exists|j: int| 0 <= j < occs.len() && #[trigger] occs[j] == x.1
        },
        forall|j: int| 0 <= j < occs.len() && key((#[trigger] occs[j]).name) == k ==> exists|i: int|
            0 <= i < doc_matches(uri, occs, k).len() && #[trigger] doc_matches(uri, occs, k)[i] == (uri, occs[j]),
    decreases occs.len(),
{
    if occs.len() > 0 {
        let p = occs.drop_last();
        lemma_doc_matches(uri, p, k);
        let dp = doc_matches(uri, p, k);
        let dm = doc_matches(uri, occs, k);
        assert forall|i: int| 0 <= i < dm.len() implies {
            let x = #[trigger] dm[i];
            &&& x.0 == uri
            &&& key(x.1.name) == k
            &&& exists|j: int| 0 <= j < occs.len() && #[trigger] occs[j] == x.1
        } by {
            if i < dp.len() {
                assert(dm[i] == dp[i]);
                let j = choose|j: int| 0 <= j < p.len() && #[trigger] p[j] == dp[i].1;
                assert(occs[j] == p[j]);
            } else {
                assert(dm[i] == (uri, occs.last()));
                assert(occs[occs.len() - 1] == occs.last());
            }
        }
        assert forall|j: int| 0 <= j < occs.len() && key((#[trigger] occs[j]).name) == k implies exists|i: int|
            0 <= i < dm.len() && #[trigger] dm[i] == (uri, occs[j]) by {
            if j < p.len() {
                assert(occs[j] == p[j]);
                let i = choose|i: int| 0 <= i < dp.len() && #[trigger] dp[i] == (uri, p[j]);
                assert(dm[i] == dp[i]);
            } else {
                assert(dm[dp.len() as int] == (uri, occs[j]));
            }
        }
    }
}

proof fn lemma_named_matches(docs: DocumentsView, k: Seq<char>)
    ensures
        forall|i: int| 0 <= i < named_matches(docs, k).len() ==> {
            let x = #[trigger] named_matches(docs, k)[i];
            &&& key(x.1.name) == k
            &&& exists|d: int, j: int|
                0 <= d < docs.len() && 0 <= j < docs[d].1.len() && #[trigger] docs[d].1[j] == x.1
        },
        forall|d: int, j: int|
            0 <= d < docs.len() && 0 <= j < docs[d].1.len() && key((#[trigger] docs[d].1[j]).name) == k
                ==> exists|i: int|
                0 <= i < named_matches(docs, k).len() && (#[trigger] named_matches(docs, k)[i]).1 == docs[d].1[j],
    decreases docs.len(),
{
    if docs.len() > 0 {
        let p = docs.drop_last();
        lemma_named_matches(p, k);
        let last = docs.last();
        lemma_doc_matches(last.0, last.1, k);
        let np = named_matches(p, k);
        let dm = doc_matches(last.0, last.1, k);
        let nm = named_matches(docs, k);
        assert(nm == np + dm);
        assert forall|i: int| 0 <= i < nm.len() implies {
            let x = #[trigger] nm[i];
            &&& key(x.1.name) == k
            &&& exists|d: int, j: int|
                0 <= d < docs.len() && 0 <= j < docs[d].1.len() && #[trigger] docs[d].1[j] == x.1
        } by {
            if i < np.len() {
                assert(nm[i] == np[i]);
                let (d, j) = choose|d: int, j: int|
                    0 <= d < p.len() && 0 <= j < p[d].1.len() && #[trigger] p[d].1[j] == np[i].1;
                assert(docs[d] == p[d]);
                assert(docs[d].1[j] == nm[i].1);
            } else {
                assert(nm[i] == dm[i - np.len()]);
                let j = choose|j: int| 0 <= j < last.1.len() && #[trigger] last.1[j] == dm[i - np.len()].1;
                let d = docs.len() - 1;
                assert(docs[d] == last);
                assert(docs[d].1[j] == nm[i].1);
            }
        }
        assert forall|d: int, j: int|
            0 <= d < docs.len() && 0 <= j < docs[d].1.len() && key((#[trigger] docs[d].1[j]).name) == k implies exists|i: int|
            0 <= i < nm.len() && (#[trigger] nm[i]).1 == docs[d].1[j] by {
            if d < p.len() {
                assert(docs[d] == p[d]);
                assert(key(p[d].1[j].name) == k);
                let i = choose|i: int| 0 <= i < np.len() && (#[trigger] np[i]).1 == p[d].1[j];
                assert(nm[i] == np[i]);
            } else {
                assert(docs[d] == last);
                assert(key(last.1[j].name) == k);
                let i = choose|i: int| 0 <= i < dm.len() && #[trigger] dm[i] == (last.0, last.1[j]);
                assert(nm[np.len() + i] == dm[i]);
            }
        }
    }
}

proof fn lemma_with_role(m: Seq<(Seq<char>, OccurrenceView)>, r: OccurrenceRole)
    ensures
        forall|i: int| 0 <= i < with_role(m, r).len() ==> (#[trigger] with_role(m, r)[i]).1.role == r
            && exists|q: int| 0 <= q < m.len() && #[trigger] m[q] == with_role(m, r)[i],
    decreases m.len(),
{
    if m.len() > 0 {
        let p = m.drop_last();
        lemma_with_role(p, r);
        let w = with_role(m, r);
        let wp = with_role(p, r);
        assert forall|i: int| 0 <= i < w.len() implies (#[trigger] w[i]).1.role == r && exists|q: int|
            0 <= q < m.len() && #[trigger] m[q] == w[i] by {
            if i < wp.len() {
                assert(w[i] == wp[i]);
                let q = choose|q: int| 0 <= q < p.len() && #[trigger] p[q] == wp[i];
                assert(m[q] == p[q]);
            } else {
                assert(w[i] == m.last());
                assert(m[m.len() - 1] == m.last());
            }
        }
    }
}

proof fn lemma_role_split(m: Seq<(Seq<char>, OccurrenceView)>)
    ensures
        with_role(m, OccurrenceRole::Definition).to_multiset().add(
            with_role(m, OccurrenceRole::Declaration).to_multiset(),
        ) =~= declaring(m).to_multiset(),
    decreases m.len(),
{
    broadcast use vstd::seq_lib::group_to_multiset_ensures, vstd::multiset::group_multiset_axioms;

    if m.len() == 0 {
        assert(with_role(m, OccurrenceRole::Definition) =~= Seq::<(Seq<char>, OccurrenceView)>::empty());
        assert(with_role(m, OccurrenceRole::Declaration) =~= Seq::<(Seq<char>, OccurrenceView)>::empty());
        assert(declaring(m) =~= Seq::<(Seq<char>, OccurrenceView)>::empty());
    } else {
        let p = m.drop_last();
        let x = m.last();
        lemma_role_split(p);
        let a = with_role(p, OccurrenceRole::Definition);
        let b = with_role(p, OccurrenceRole::Declaration);
        let c = declaring(p);
        if x.1.role == OccurrenceRole::Definition {
            assert(with_role(m, OccurrenceRole::Definition) =~= a.push(x));
            assert(with_role(m, OccurrenceRole::Declaration) =~= b);
            assert(declaring(m) =~= c.push(x));
        } else if x.1.role == OccurrenceRole::Declaration {
            assert(with_role(m, OccurrenceRole::Definition) =~= a);
            assert(with_role(m, OccurrenceRole::Declaration) =~= b.push(x));
            assert(declaring(m) =~= c.push(x));
        } else {
            assert(with_role(m, OccurrenceRole::Definition) =~= a);
            assert(with_role(m, OccurrenceRole::Declaration) =~= b);
            assert(declaring(m) =~= c);
        }
    }
}

proof fn lemma_declaring_nonempty(m: Seq<(Seq<char>, OccurrenceView)>)
    ensures
        declaring(m).len() > 0 <==> exists|q: int| 0 <= q < m.len() && is_declaring((#[trigger] m[q]).1.role),
    decreases m.len(),
{
    if m.len() > 0 {
        let p = m.drop_last();
        lemma_declaring_nonempty(p);
        if exists|q: int| 0 <= q < p.len() && is_declaring((#[trigger] p[q]).1.role) {
            let q = choose|q: int| 0 <= q < p.len() && is_declaring((#[trigger] p[q]).1.role);
            assert(m[q] == p[q]);
        }
        if exists|q: int| 0 <= q < m.len() && is_declaring((#[trigger] m[q]).1.role) {
            let q = choose|q: int| 0 <= q < m.len() && is_declaring((#[trigger] m[q]).1.role);
            if q < p.len() {
                assert(p[q] == m[q]);
            }
        }
        if is_declaring(m.last().1.role) {
            assert(m[m.len() - 1] == m.last());
        }
    }
}

/// What `declarations_named` gives for key `k` is a permutation of the
/// declaring occurrences among the occurrences with that key, every
/// definition before every declaration; each has key `k`; and it is empty
/// exactly when no document declares or defines a symbol with that key.
pub proof fn law_declarations_are_the_declaring_matches(docs: DocumentsView, k: Seq<char>)
    ensures
        declarations_of(docs, k).to_multiset() == declaring(named_matches(docs, k)).to_multiset(),
        forall|i: int| 0 <= i < declarations_of(docs, k).len() ==> key(
            (#[trigger] declarations_of(docs, k)[i]).1.name,
        ) == k && is_declaring(declarations_of(docs, k)[i].1.role),
        forall|i: int, j: int|
            0 <= i < j < declarations_of(docs, k).len() ==> !((#[trigger] declarations_of(docs, k)[i]).1.role
                == OccurrenceRole::Declaration && (#[trigger] declarations_of(docs, k)[j]).1.role
                == OccurrenceRole::Definition),
        declarations_of(docs, k).len() == 0 <==> !declared_anywhere(docs, k),
{
    broadcast use vstd::seq_lib::group_to_multiset_ensures;

    let nm = named_matches(docs, k);
    let defs = with_role(nm, OccurrenceRole::Definition);
    let decls = with_role(nm, OccurrenceRole::Declaration);
    let res = declarations_of(docs, k);
    assert(res == defs + decls);
    vstd::seq_lib::lemma_multiset_commutative(defs, decls);
    lemma_role_split(nm);
    lemma_with_role(nm, OccurrenceRole::Definition);
    lemma_with_role(nm, OccurrenceRole::Declaration);
    lemma_named_matches(docs, k);
    assert forall|i: int| 0 <= i < res.len() implies key((#[trigger] res[i]).1.name) == k && is_declaring(
        res[i].1.role,
    ) by {
        if i < defs.len() {
            assert(res[i] == defs[i]);
            let q = choose|q: int| 0 <= q < nm.len() && #[trigger] nm[q] == defs[i];
        } else {
            assert(res[i] == decls[i - defs.len()]);
            let q = choose|q: int| 0 <= q < nm.len() && #[trigger] nm[q] == decls[i - defs.len()];
        }
    }
    assert forall|i: int, j: int| 0 <= i < j < res.len() implies !((#[trigger] res[i]).1.role
        == OccurrenceRole::Declaration && (#[trigger] res[j]).1.role == OccurrenceRole::Definition) by {
        if j < defs.len() {
            assert(res[i] == defs[i]);
            assert(res[j] == defs[j]);
        } else {
            assert(res[j] == decls[j - defs.len()]);
        }
    }
    assert(res.len() == res.to_multiset().len());
    assert(declaring(nm).len() == declaring(nm).to_multiset().len());
    lemma_declaring_nonempty(nm);
    if declared_anywhere(docs, k) {
        let (d, j) = choose|d: int, j: int|
            0 <= d < docs.len() && 0 <= j < docs[d].1.len() && key((#[trigger] docs[d].1[j]).name) == k
                && is_declaring(docs[d].1[j].role);
        let i = choose|i: int| 0 <= i < nm.len() && (#[trigger] nm[i]).1 == docs[d].1[j];
        assert(is_declaring(nm[i].1.role));
    }
    if declaring(nm).len() > 0 {
        let q = choose|q: int| 0 <= q < nm.len() && is_declaring((#[trigger] nm[q]).1.role);
        let (d, j) = choose|d: int, j: int|
            0 <= d < docs.len() && 0 <= j < docs[d].1.len() && #[trigger] docs[d].1[j] == nm[q].1;
        assert(key(docs[d].1[j].name) == k && is_declaring(docs[d].1[j].role));
    }
}

/// After a document's occurrences are recorded, looking it up gives them
/// back and other documents keep theirs; after it is removed, it is gone and
/// the others stay.
pub proof fn law_update_and_remove_then_lookup(
    docs: DocumentsView,
    uri: Seq<char>,
    occs: Seq<OccurrenceView>,
    other: Seq<char>,
)
    requires
        distinct_uris(docs),
    ensures
        lookup(upsert(docs, uri, occs), uri) == Some(occs),
        other != uri ==> lookup(upsert(docs, uri, occs), other) == lookup(docs, other),
        lookup(remove_uri(docs, uri), uri) is None,
        other != uri ==> lookup(remove_uri(docs, uri), other) == lookup(docs, other),
        distinct_uris(upsert(docs, uri, occs)),
        distinct_uris(remove_uri(docs, uri)),
{
    crate::keyed::lemma_put(docs, uri, occs, other);
    crate::keyed::lemma_drop_key(docs, uri, other);
}

#[derive(Debug)]
pub struct IndexedOccurrence {
    pub uri: String,
    pub occurrence: SymbolOccurrence,
}

impl View for IndexedOccurrence {
    type V = (Seq<char>, OccurrenceView);

    open spec fn view(&self) -> (Seq<char>, OccurrenceView) {
        (self.uri@, self.occurrence@)
    }
}

pub open spec fn indexed_views(s: Seq<IndexedOccurrence>) -> Seq<(Seq<char>, OccurrenceView)> {
    s.map_values(|o: IndexedOccurrence| o@)
}

pub struct WorkspaceSymbolIndex {
    documents: Vec<(String, DocumentSymbolIndex)>,
}

pub open spec fn entries_view(d: Seq<(String, DocumentSymbolIndex)>) -> DocumentsView {
    d.map_values(|e: (String, DocumentSymbolIndex)| (e.0@, e.1@))
}

impl View for WorkspaceSymbolIndex {
    type V = DocumentsView;

    closed spec fn view(&self) -> DocumentsView {
        entries_view(self.documents@)
    }
}

proof fn lemma_find_uri(docs: DocumentsView, uri: Seq<char>, from: int)
    requires
        0 <= from,
    ensures
        find_uri(docs, uri, from) matches Some(i) ==> from <= i < docs.len() && docs[i].0 == uri && forall|k: int|
            from <= k < i ==> docs[k].0 != uri,
        find_uri(docs, uri, from) is None ==> forall|k: int| from <= k < docs.len() ==> docs[k].0 != uri,
{
    lemma_find_key(docs, uri, from);
}

impl WorkspaceSymbolIndex {
    #[verifier::type_invariant]
    spec fn inv(self) -> bool {
        distinct_uris(entries_view(self.documents@))
    }

    pub fn new() -> (r: WorkspaceSymbolIndex)
        ensures
            r@ == Seq::<(Seq<char>, Seq<OccurrenceView>)>::empty(),
    {
        let r = WorkspaceSymbolIndex { documents: Vec::new() };
        assert(r@ =~= Seq::<(Seq<char>, Seq<OccurrenceView>)>::empty());
        r
    }

    /// The documents are keyed by distinct URIs.
    pub fn check_distinct(&self) -> (r: bool)
        ensures
            r,
            distinct_uris(self@),
    {
        proof {
            use_type_invariant(self);
        }
        true
    }

    fn position_of(&self, uri: &str) -> (r: Option<usize>)
        ensures
            r matches Some(i) ==> find_uri(self@, uri@, 0) == Some(i as int),
            r is None ==> find_uri(self@, uri@, 0) is None,
    {
        let mut i: usize = 0;
        while i < self.documents.len()
            invariant
                i <= self.documents@.len(),
                self@.len() == self.documents@.len(),
                find_uri(self@, uri@, i as int) == find_uri(self@, uri@, 0),
            decreases self.documents@.len() - i,
        {
            assert(self@[i as int].0 == self.documents@[i as int].0@);
            if text_eq(self.documents[i].0.as_str(), uri) {
                return Some(i);
            }
            i = i + 1;
        }
        None
    }

    /// Records the occurrences of the document at `uri`, replacing earlier ones.
    pub fn update(&mut self, uri: String, index: DocumentSymbolIndex)
        ensures
            final(self)@ == upsert(old(self)@, uri@, index@),
    {
        proof {
            use_type_invariant(&*self);
        }
        let ghost old_docs = self@;
        let ghost u = uri@;
        let ghost v = index@;
        match self.position_of(uri.as_str()) {
            Some(i) => {
                proof {
                    lemma_find_uri(old_docs, u, 0);
                }
                let mut documents: Vec<(String, DocumentSymbolIndex)> = Vec::new();
                std::mem::swap(&mut documents, &mut self.documents);
                documents.set(i, (uri, index));
                assert(entries_view(documents@) =~= old_docs.update(i as int, (u, v)));
                self.documents = documents;
            },
            None => {
                proof {
                    lemma_find_uri(old_docs, u, 0);
                }
                let mut documents: Vec<(String, DocumentSymbolIndex)> = Vec::new();
                std::mem::swap(&mut documents, &mut self.documents);
                documents.push((uri, index));
                assert(entries_view(documents@) =~= old_docs.push((u, v)));
                self.documents = documents;
            },
        }
    }

    /// Forgets the document at `uri`.
    pub fn remove(&mut self, uri: &str)
        ensures
            final(self)@ == remove_uri(old(self)@, uri@),
    {
        proof {
            use_type_invariant(&*self);
        }
        let ghost old_docs = self@;
        match self.position_of(uri) {
            Some(i) => {
                proof {
                    lemma_find_uri(old_docs, uri@, 0);
                }
                let mut documents: Vec<(String, DocumentSymbolIndex)> = Vec::new();
                std::mem::swap(&mut documents, &mut self.documents);
                documents.remove(i);
                assert(entries_view(documents@) =~= old_docs.remove(i as int));
                self.documents = documents;
            },
            None => {},
        }
    }

    /// The innermost occurrence at `position` in the document at `uri`.
    pub fn occurrence_at(&self, uri: &str, position: Position) -> (r: Option<&SymbolOccurrence>)
        ensures
            r matches Some(o) ==> lookup(self@, uri@) matches Some(occs) && exists|j: int|
                innermost_at(occs, position, j) && o@ == occs[j],
            r is None ==> (lookup(self@, uri@) matches Some(occs) ==> forall|k: int|
                0 <= k < occs.len() ==> !contains(#[trigger] occs[k].range, position)),
    {
        proof {
            lemma_find_uri(self@, uri@, 0);
        }
        match self.position_of(uri) {
            Some(i) => {
                assert(self@[i as int].1 == self.documents@[i as int].1@);
                self.documents[i].1.occurrence_at(position)
            },
            None => None,
        }
    }

    /// Whether the occurrence name `name` has key `k` (given as lower-cased text).
    fn key_matches(name: &String, k: &String) -> (r: bool)
        ensures
            r == (key(name@) == k@),
    {
        let lower = normalize(name.as_str());
        lower == *k
    }

    fn push_doc_matches(
        uri: &String,
        index: &DocumentSymbolIndex,
        k: &String,
        out: &mut Vec<IndexedOccurrence>,
    )
        ensures
            indexed_views(final(out)@) == indexed_views(old(out)@) + doc_matches(uri@, index@, k@),
    {
        let ghost occs = index@;
        let mut j: usize = 0;
        while j < index.len()
            invariant
                j <= occs.len(),
                occs == index@,
                indexed_views(out@) == indexed_views(old(out)@) + doc_matches(uri@, occs.subrange(0, j as int), k@),
            decreases occs.len() - j,
        {
            let o = index.get(j);
            assert(occs.subrange(0, j + 1).drop_last() =~= occs.subrange(0, j as int));
            let ghost before = indexed_views(out@);
            if Self::key_matches(&o.name, k) {
                out.push(IndexedOccurrence { uri: uri.clone(), occurrence: o.duplicate() });
                assert(indexed_views(out@) =~= before + seq![(uri@, occs[j as int])]);
            } else {
                assert(indexed_views(out@) =~= before);
            }
            j = j + 1;
        }
        assert(occs.subrange(0, j as int) =~= occs);
    }

    /// Every occurrence, in any document, whose name equals `name` ignoring ASCII case.
    pub fn occurrences_named(&self, name: &str) -> (r: Vec<IndexedOccurrence>)
        ensures
            indexed_views(r@) == named_matches(self@, key(name@)),
    {
        let k = normalize(name);
        let ghost docs = self@;
        let mut out: Vec<IndexedOccurrence> = Vec::new();
        let mut d: usize = 0;
        assert(indexed_views(out@) =~= named_matches(docs.subrange(0, 0), k@));
        while d < self.documents.len()
            invariant
                d <= self.documents@.len(),
                docs == self@,
                docs.len() == self.documents@.len(),
                indexed_views(out@) == named_matches(docs.subrange(0, d as int), k@),
            decreases self.documents@.len() - d,
        {
            let entry = &self.documents[d];
            assert(docs.subrange(0, d + 1).drop_last() =~= docs.subrange(0, d as int));
            assert(docs[d as int] == (entry.0@, entry.1@));
            Self::push_doc_matches(&entry.0, &entry.1, &k, &mut out);
            d = d + 1;
        }
        assert(docs.subrange(0, d as int) =~= docs);
        out
    }

    fn push_with_role(m: &Vec<IndexedOccurrence>, role: OccurrenceRole, out: &mut Vec<IndexedOccurrence>)
        ensures
            indexed_views(final(out)@) == indexed_views(old(out)@) + with_role(indexed_views(m@), role),
    {
        let ghost mv = indexed_views(m@);
        let mut j: usize = 0;
        while j < m.len()
            invariant
                j <= m@.len(),
                mv == indexed_views(m@),
                indexed_views(out@) == indexed_views(old(out)@) + with_role(mv.subrange(0, j as int), role),
            decreases m@.len() - j,
        {
            assert(mv.subrange(0, j + 1).drop_last() =~= mv.subrange(0, j as int));
            let ghost before = indexed_views(out@);
            if m[j].occurrence.role == role {
                out.push(IndexedOccurrence { uri: m[j].uri.clone(), occurrence: m[j].occurrence.duplicate() });
                assert(indexed_views(out@) =~= before + seq![mv[j as int]]);
            } else {
                assert(indexed_views(out@) =~= before);
            }
            j = j + 1;
        }
        assert(mv.subrange(0, j as int) =~= mv);
    }

    /// The definitions, then the declarations, of symbols named `name`.
    pub fn declarations_named(&self, name: &str) -> (r: Vec<IndexedOccurrence>)
        ensures
            indexed_views(r@) == declarations_of(self@, key(name@)),
    {
        let m = self.occurrences_named(name);
        let mut out: Vec<IndexedOccurrence> = Vec::new();
        assert(indexed_views(out@) =~= Seq::<(Seq<char>, OccurrenceView)>::empty());
        Self::push_with_role(&m, OccurrenceRole::Definition, &mut out);
        Self::push_with_role(&m, OccurrenceRole::Declaration, &mut out);
        out
    }

    /// Whether some document declares a symbol with key `k` (lower-cased).
    fn declares_key(&self, k: &String) -> (r: bool)
        ensures
            r == has_declaration(self@, k@),
    {
        let ghost docs = self@;
        let mut d: usize = 0;
        while d < self.documents.len()
            invariant
                d <= self.documents@.len(),
                docs == self@,
                docs.len() == self.documents@.len(),
                forall|d2: int, j2: int| 0 <= d2 < d && 0 <= j2 < docs[d2].1.len() ==> !declares(#[trigger] docs[d2].1[j2], k@),
            decreases self.documents@.len() - d,
        {
            let index = &self.documents[d].1;
            assert(docs[d as int].1 == index@);
            let mut j: usize = 0;
            while j < index.len()
                invariant
                    j <= index@.len(),
                    d < docs.len(),
                    docs == self@,
                    docs[d as int].1 == index@,
                    forall|j2: int| 0 <= j2 < j ==> !declares(#[trigger] docs[d as int].1[j2], k@),
                decreases index@.len() - j,
            {
                let o = index.get(j);
                if (o.role == OccurrenceRole::Declaration || o.role == OccurrenceRole::Definition) && Self::key_matches(&o.name, k) {
                    assert(declares(docs[d as int].1[j as int], k@));
                    assert(has_declaration(docs, k@));
                    return true;
                }
                j = j + 1;
            }
            d = d + 1;
        }
        false
    }

    /// Whether occurrence `j` of document `d` repeats an earlier declaration.
    fn repeats(&self, d: usize, j: usize) -> (r: bool)
        requires
            d < self@.len(),
            j < self@[d as int].1.len(),
        ensures
            r == repeats_earlier(self@, d as int, j as int),
    {
        let ghost docs = self@;
        let target = self.documents[d].1.get(j);
        assert(docs[d as int].1[j as int] == target@);
        let k = normalize(target.name.as_str());
        let count = self.documents.len();
        let mut d2: usize = 0;
        while d2 <= d
            invariant
                d2 <= d + 1,
                d < docs.len(),
                d < count,
                count == self.documents@.len(),
                docs == self@,
                docs.len() == self.documents@.len(),
                j < docs[d as int].1.len(),
                target@ == docs[d as int].1[j as int],
                k@ == key(target.name@),
                forall|a: int, b: int|
                    #![trigger docs[a].1[b]]
                    ((0 <= a < d2 && a < d && 0 <= b < docs[a].1.len()) || (a == d && d2 > d && 0 <= b < j))
                        ==> !same_declaration(docs[a].1[b], target@),
            decreases d + 1 - d2,
        {
            let index = &self.documents[d2].1;
            assert(docs[d2 as int].1 == index@);
            let limit = if d2 == d { j } else { index.len() };
            let mut j2: usize = 0;
            while j2 < limit
                invariant
                    j2 <= limit <= index@.len(),
                    d2 <= d,
                    d < docs.len(),
                    d < self.documents@.len(),
                    docs == self@,
                    j < docs[d as int].1.len(),
                    target@ == docs[d as int].1[j as int],
                    d2 < d ==> limit == docs[d2 as int].1.len(),
                    d2 == d ==> limit == j,
                    docs[d2 as int].1 == index@,
                    k@ == key(target.name@),
                    forall|b: int| 0 <= b < j2 ==> !same_declaration(#[trigger] docs[d2 as int].1[b], target@),
                decreases limit - j2,
            {
                let o = index.get(j2);
                if (o.role == OccurrenceRole::Declaration || o.role == OccurrenceRole::Definition) && o.role == target.role && o.kind == target.kind && Self::key_matches(&o.name, &k) {
                    assert(same_declaration(docs[d2 as int].1[j2 as int], target@));
                    assert(repeats_earlier(docs, d as int, j as int));
                    return true;
                }
                j2 = j2 + 1;
            }
            d2 = d2 + 1;
        }
        false
    }

    fn symbol_kind_name(kind: CeaSymbolKind) -> (r: &'static str)
        ensures
            r@ == kind_name(kind),
    {
        match kind {
            CeaSymbolKind::Label => "label",
            CeaSymbolKind::Allocation => "allocation",
            CeaSymbolKind::Definition => "definition",
            CeaSymbolKind::Registered => "registration",
        }
    }

    /// Per document, in order: unresolved strict references and registrations,
    /// then declarations that repeat an earlier one of the same kind and role.
    pub fn semantic_diagnostics(&self) -> (r: Vec<(String, Vec<CeaDiagnostic>)>)
        ensures
            r@.len() == self@.len(),
            forall|d: int| 0 <= d < r@.len() ==> (#[trigger] r@[d]).0@ == self@[d].0 && diagnostic_views(
                r@[d].1@,
            ) == document_semantic_diagnostics(self@, d),
    {
        let ghost docs = self@;
        let mut result: Vec<(String, Vec<CeaDiagnostic>)> = Vec::new();
        let mut d: usize = 0;
        while d < self.documents.len()
            invariant
                d <= self.documents@.len(),
                docs == self@,
                docs.len() == self.documents@.len(),
                result@.len() == d,
                forall|e: int| 0 <= e < d ==> (#[trigger] result@[e]).0@ == docs[e].0 && diagnostic_views(
                    result@[e].1@,
                ) == document_semantic_diagnostics(docs, e),
            decreases self.documents@.len() - d,
        {
            let entry = &self.documents[d];
            let index = &entry.1;
            let ghost occs = index@;
            assert(docs[d as int] == (entry.0@, occs));
            let mut diagnostics: Vec<CeaDiagnostic> = Vec::new();
            let mut j: usize = 0;
            while j < index.len()
                invariant
                    j <= occs.len(),
                    occs == index@,
                    d < docs.len(),
                    docs == self@,
                    docs[d as int].1 == occs,
                    diagnostic_views(diagnostics@) == unresolved_diagnostics(docs, occs.subrange(0, j as int)),
                decreases occs.len() - j,
            {
                let o = index.get(j);
                assert(occs.subrange(0, j + 1).drop_last() =~= occs.subrange(0, j as int));
                let ghost before = diagnostic_views(diagnostics@);
                if o.strict_reference || o.role == OccurrenceRole::Registration {
                    let k = normalize(o.name.as_str());
                    if !self.declares_key(&k) {
                        let message = framed("unresolved CEA symbol `", o.name.as_str(), "`");
                        diagnostics.push(CeaDiagnostic { range: o.range, message });
                        assert(diagnostic_views(diagnostics@) =~= before + seq![DiagnosticView { range: o.range, message: unresolved_message(o.name@) }]);
                    } else {
                        assert(diagnostic_views(diagnostics@) =~= before);
                    }
                } else {
                    assert(diagnostic_views(diagnostics@) =~= before);
                }
                j = j + 1;
            }
            assert(occs.subrange(0, j as int) =~= occs);
            let ghost unresolved = diagnostic_views(diagnostics@);
            let mut j: usize = 0;
            while j < index.len()
                invariant
                    j <= occs.len(),
                    occs == index@,
                    d < docs.len(),
                    docs == self@,
                    docs[d as int].1 == occs,
                    diagnostic_views(diagnostics@) == unresolved + duplicate_diagnostics(docs, d as int, j as int),
                decreases occs.len() - j,
            {
                let o = index.get(j);
                let ghost before = diagnostic_views(diagnostics@);
                if (o.role == OccurrenceRole::Declaration || o.role == OccurrenceRole::Definition) && self.repeats(d, j) {
                    let mut message = String::from_str("duplicate CEA ");
                    message.append(Self::symbol_kind_name(o.kind));
                    message.append(" `");
                    message.append(o.name.as_str());
                    message.append("`");
                    diagnostics.push(CeaDiagnostic { range: o.range, message });
                    assert(diagnostic_views(diagnostics@) =~= before + seq![DiagnosticView { range: o.range, message: duplicate_message(o.kind, o.name@) }]);
                } else {
                    assert(diagnostic_views(diagnostics@) =~= before);
                }
                j = j + 1;
            }
            result.push((entry.0.clone(), diagnostics));
            d = d + 1;
        }
        result
    }
}

pub open spec fn name_views(r: Seq<String>) -> Seq<Seq<char>> {
    r.map_values(|s: String| s@)
}

/// The invariant of the sorted name list while names are added.
#[verifier::opaque]
pub open spec fn names_step_inv(names: Seq<Seq<char>>, keys: Seq<Seq<char>>, seen: Seq<Seq<char>>) -> bool {
    &&& keys.len() == names.len()
    &&& forall|i: int| 0 <= i < names.len() ==> #[trigger] keys[i] == key(names[i])
    &&& sorted_unique_names(names, seen)
}

proof fn lemma_key_bytes_injective(a: Seq<char>, b: Seq<char>)
    requires
        key(a) != key(b),
    ensures
        key_bytes(a) != key_bytes(b),
{
    vstd::utf8::encode_utf8_decode_utf8(key(a));
    vstd::utf8::encode_utf8_decode_utf8(key(b));
}

proof fn lemma_names_inv_facts(nv: Seq<Seq<char>>, keys: Seq<Seq<char>>, seen: Seq<Seq<char>>)
    requires
        names_step_inv(nv, keys, seen),
    ensures
        keys.len() == nv.len(),
        forall|i: int| 0 <= i < nv.len() ==> #[trigger] keys[i] == key(nv[i]),
        forall|i: int, j: int| 0 <= i < j < nv.len() ==> bytes_lt(key_bytes(nv[i]), key_bytes(nv[j])),
        keys_sorted(nv),
        firsts_of(nv, seen),
        covers(nv, seen),
{
    reveal(names_step_inv);
    reveal(keys_sorted);
}

proof fn lemma_first_push(seen: Seq<Seq<char>>, n: Seq<char>, t: int, x: Seq<char>)
    requires
        is_first(seen, t, x),
    ensures
        is_first(seen.push(n), t, x),
{
    let s2 = seen.push(n);
    assert forall|u: int| 0 <= u < t implies key(#[trigger] s2[u]) != key(x) by {
        assert(s2[u] == seen[u]);
    }
}

proof fn lemma_firsts_push(r: Seq<Seq<char>>, seen: Seq<Seq<char>>, n: Seq<char>)
    requires
        firsts_of(r, seen),
    ensures
        firsts_of(r, seen.push(n)),
{
    assert forall|i: int| 0 <= i < r.len() implies is_first(seen.push(n), first_index(seen.push(n), #[trigger] r[i]), r[i]) by {
        let t = first_index(seen, r[i]);
        lemma_first_push(seen, n, t, r[i]);
    }
}

proof fn lemma_covers_present(r: Seq<Seq<char>>, seen: Seq<Seq<char>>, n: Seq<char>, p: int)
    requires
        covers(r, seen),
        0 <= p < r.len(),
        key(r[p]) == key(n),
    ensures
        covers(r, seen.push(n)),
{
    reveal(covers);
    let s2 = seen.push(n);
    assert forall|t: int| 0 <= t < s2.len() implies has_key_at(r, key_index(r, key(#[trigger] s2[t])), key(s2[t])) by {
        if t == seen.len() {
            assert(has_key_at(r, p, key(s2[t])));
        } else {
            assert(s2[t] == seen[t]);
        }
    }
}

proof fn lemma_absent_key(r: Seq<Seq<char>>, seen: Seq<Seq<char>>, n: Seq<char>)
    requires
        covers(r, seen),
        forall|q: int| 0 <= q < r.len() ==> key(#[trigger] r[q]) != key(n),
    ensures
        forall|t: int| 0 <= t < seen.len() ==> key(#[trigger] seen[t]) != key(n),
{
    reveal(covers);
    assert forall|t: int| 0 <= t < seen.len() implies key(#[trigger] seen[t]) != key(n) by {
        let i = key_index(r, key(seen[t]));
        assert(has_key_at(r, i, key(seen[t])));
        assert(key(r[i]) != key(n));
    }
}

proof fn lemma_firsts_insert(r: Seq<Seq<char>>, seen: Seq<Seq<char>>, n: Seq<char>, p: int)
    requires
        firsts_of(r, seen),
        0 <= p <= r.len(),
        forall|t: int| 0 <= t < seen.len() ==> key(#[trigger] seen[t]) != key(n),
    ensures
        firsts_of(r.insert(p, n), seen.push(n)),
{
    let s2 = seen.push(n);
    let r2 = r.insert(p, n);
    assert forall|i: int| 0 <= i < r2.len() implies is_first(s2, first_index(s2, #[trigger] r2[i]), r2[i]) by {
        if i == p {
            let t = seen.len() as int;
            assert forall|u: int| 0 <= u < t implies key(#[trigger] s2[u]) != key(n) by {
                assert(s2[u] == seen[u]);
            }
            assert(is_first(s2, t, r2[i]));
        } else {
            let oi = if i < p { i } else { i - 1 };
            assert(r2[i] == r[oi]);
            let t = first_index(seen, r[oi]);
            lemma_first_push(seen, n, t, r[oi]);
            assert(is_first(s2, t, r2[i]));
        }
    }
}

proof fn lemma_covers_insert(r: Seq<Seq<char>>, seen: Seq<Seq<char>>, n: Seq<char>, p: int)
    requires
        covers(r, seen),
        0 <= p <= r.len(),
    ensures
        covers(r.insert(p, n), seen.push(n)),
{
    reveal(covers);
    let s2 = seen.push(n);
    let r2 = r.insert(p, n);
    assert forall|t: int| 0 <= t < s2.len() implies has_key_at(r2, key_index(r2, key(#[trigger] s2[t])), key(s2[t])) by {
        if t == seen.len() {
            assert(has_key_at(r2, p, key(s2[t])));
        } else {
            assert(s2[t] == seen[t]);
            let i = key_index(r, key(seen[t]));
            assert(has_key_at(r, i, key(seen[t])));
            if i < p {
                assert(r2[i] == r[i]);
                assert(has_key_at(r2, i, key(s2[t])));
            } else {
                assert(r2[i + 1] == r[i]);
                assert(has_key_at(r2, i + 1, key(s2[t])));
            }
        }
    }
}

proof fn lemma_sorted_insert(r: Seq<Seq<char>>, n: Seq<char>, p: int)
    requires
        keys_sorted(r),
        0 <= p <= r.len(),
        forall|q: int| 0 <= q < p ==> bytes_lt(#[trigger] key_bytes(r[q]), key_bytes(n)),
        forall|q: int| p <= q < r.len() ==> bytes_lt(key_bytes(n), #[trigger] key_bytes(r[q])),
    ensures
        keys_sorted(r.insert(p, n)),
{
    reveal(keys_sorted);
    let r2 = r.insert(p, n);
    assert forall|i: int, j: int| 0 <= i < j < r2.len() implies bytes_lt(key_bytes(r2[i]), key_bytes(r2[j])) by {
        if j < p {
        } else if j == p {
        } else if i < p {
            assert(r2[j] == r[j - 1]);
            lemma_bytes_lt_transitive(key_bytes(r[i]), key_bytes(n), key_bytes(r[j - 1]));
        } else if i == p {
            assert(r2[j] == r[j - 1]);
        } else {
            assert(r2[i] == r[i - 1]);
            assert(r2[j] == r[j - 1]);
        }
    }
}

proof fn lemma_names_skip(nv: Seq<Seq<char>>, keys: Seq<Seq<char>>, seen: Seq<Seq<char>>, n: Seq<char>, p: int)
    requires
        names_step_inv(nv, keys, seen),
        0 <= p < nv.len(),
        key(nv[p]) == key(n),
    ensures
        names_step_inv(nv, keys, seen.push(n)),
{
    lemma_names_inv_facts(nv, keys, seen);
    lemma_firsts_push(nv, seen, n);
    lemma_covers_present(nv, seen, n, p);
    reveal(names_step_inv);
}

proof fn lemma_names_insert(nv: Seq<Seq<char>>, keys: Seq<Seq<char>>, seen: Seq<Seq<char>>, n: Seq<char>, p: int)
    requires
        names_step_inv(nv, keys, seen),
        0 <= p <= nv.len(),
        forall|q: int| 0 <= q < p ==> bytes_lt(#[trigger] key_bytes(nv[q]), key_bytes(n)),
        p < nv.len() ==> key(nv[p]) != key(n) && !bytes_lt(key_bytes(nv[p]), key_bytes(n)),
    ensures
        names_step_inv(nv.insert(p, n), keys.insert(p, key(n)), seen.push(n)),
{
    lemma_names_inv_facts(nv, keys, seen);
    assert forall|q: int| p <= q < nv.len() implies bytes_lt(key_bytes(n), #[trigger] key_bytes(nv[q])) by {
        lemma_key_bytes_injective(nv[p], n);
        lemma_bytes_lt_total(key_bytes(nv[p]), key_bytes(n));
        if q > p {
            lemma_bytes_lt_transitive(key_bytes(n), key_bytes(nv[p]), key_bytes(nv[q]));
        }
    }
    assert forall|q: int| 0 <= q < nv.len() implies key(#[trigger] nv[q]) != key(n) by {
        lemma_bytes_lt_irreflexive(key_bytes(n));
        if q >= p {
            assert(bytes_lt(key_bytes(n), key_bytes(nv[q])));
        } else {
            assert(bytes_lt(key_bytes(nv[q]), key_bytes(n)));
        }
    }
    lemma_absent_key(nv, seen, n);
    lemma_firsts_insert(nv, seen, n, p);
    lemma_covers_insert(nv, seen, n, p);
    lemma_sorted_insert(nv, n, p);
    let k2 = keys.insert(p, key(n));
    let nv2 = nv.insert(p, n);
    assert forall|i: int| 0 <= i < nv2.len() implies #[trigger] k2[i] == key(nv2[i]) by {
        if i < p {
        } else if i > p {
            assert(k2[i] == keys[i - 1]);
        }
    }
    reveal(names_step_inv);
}

/// Adds `name` to a sorted list of distinct keys unless its key is present.
fn insert_name(names: &mut Vec<String>, keys: &mut Vec<String>, name: &String, Ghost(seen): Ghost<Seq<Seq<char>>>)
    requires
        names_step_inv(name_views(old(names)@), name_views(old(keys)@), seen),
    ensures
        names_step_inv(name_views(final(names)@), name_views(final(keys)@), seen.push(name@)),
{
    let ghost nv = name_views(names@);
    let ghost kv = name_views(keys@);
    proof {
        lemma_names_inv_facts(nv, kv, seen);
    }
    let k = normalize(name.as_str());
    let kb = k.as_str().as_bytes();
    let mut p: usize = 0;
    while p < keys.len() && bytes_less(keys[p].as_str().as_bytes(), kb)
        invariant
            p <= keys@.len(),
            keys@.len() == names@.len(),
            nv == name_views(names@),
            kv == name_views(keys@),
            kv.len() == nv.len(),
            forall|i: int| 0 <= i < nv.len() ==> #[trigger] kv[i] == key(nv[i]),
            kb@ == key_bytes(name@),
            k@ == key(name@),
            forall|q: int| 0 <= q < p ==> bytes_lt(#[trigger] key_bytes(nv[q]), key_bytes(name@)),
        decreases keys@.len() - p,
    {
        assert(kv[p as int] == key(nv[p as int]));
        p = p + 1;
    }
    if p < keys.len() {
        assert(kv[p as int] == key(nv[p as int]));
    }
    if p < keys.len() && keys[p] == k {
        proof {
            lemma_names_skip(nv, kv, seen, name@, p as int);
        }
        return;
    }
    proof {
        lemma_names_insert(nv, kv, seen, name@, p as int);
    }
    names.insert(p, name.clone());
    keys.insert(p, k);
    assert(name_views(names@) =~= nv.insert(p as int, name@));
    assert(name_views(keys@) =~= kv.insert(p as int, key(name@)));
}

impl WorkspaceSymbolIndex {
    /// The declared and defined symbol names, one per key, sorted by key
    /// (see [`sorted_unique_names`]).
    pub fn symbol_names(&self) -> (r: Vec<String>)
        ensures
            sorted_unique_names(name_views(r@), declared_names(self@)),
    {
        let ghost docs = self@;
        let mut names: Vec<String> = Vec::new();
        let mut keys: Vec<String> = Vec::new();
        let ghost mut seen: Seq<Seq<char>> = Seq::empty();
        assert(name_views(names@) =~= Seq::<Seq<char>>::empty());
        assert(name_views(keys@) =~= Seq::<Seq<char>>::empty());
        assert(declared_names(docs.subrange(0, 0)) =~= Seq::<Seq<char>>::empty());
        proof {
            reveal(names_step_inv);
            reveal(keys_sorted);
                    reveal(covers);
            assert(names_step_inv(name_views(names@), name_views(keys@), seen));
        }
        let mut d: usize = 0;
        while d < self.documents.len()
            invariant
                d <= self.documents@.len(),
                docs == self@,
                docs.len() == self.documents@.len(),
                seen == declared_names(docs.subrange(0, d as int)),
                names_step_inv(name_views(names@), name_views(keys@), seen),
            decreases self.documents@.len() - d,
        {
            let index = &self.documents[d].1;
            let ghost occs = index@;
            assert(docs[d as int].1 == occs);
            let ghost base = seen;
            assert(doc_declared_names(occs.subrange(0, 0)) =~= Seq::<Seq<char>>::empty());
            assert(seen =~= base + doc_declared_names(occs.subrange(0, 0)));
            let mut j: usize = 0;
            while j < index.len()
                invariant
                    j <= occs.len(),
                    occs == index@,
                    seen == base + doc_declared_names(occs.subrange(0, j as int)),
                    names_step_inv(name_views(names@), name_views(keys@), seen),
                decreases occs.len() - j,
            {
                let o = index.get(j);
                assert(occs.subrange(0, j + 1).drop_last() =~= occs.subrange(0, j as int));
                if o.role == OccurrenceRole::Declaration || o.role == OccurrenceRole::Definition {
                    insert_name(&mut names, &mut keys, &o.name, Ghost(seen));
                    proof {
                        seen = seen.push(o.name@);
                    }
                    assert(seen =~= base + doc_declared_names(occs.subrange(0, j + 1)));
                } else {
                    assert(seen =~= base + doc_declared_names(occs.subrange(0, j + 1)));
                }
                j = j + 1;
            }
            assert(occs.subrange(0, j as int) =~= occs);
            assert(docs.subrange(0, d + 1).drop_last() =~= docs.subrange(0, d as int));
            d = d + 1;
        }
        assert(docs.subrange(0, d as int) =~= docs);
        proof {
            reveal(names_step_inv);
        }
        names
    }
}
} // verus!
