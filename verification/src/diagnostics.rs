//! Diagnostics reported for CEA scripts, and the per-document store that
//! combines CEA and Lua diagnostics before they are published.
use vstd::prelude::*;
use crate::text::{Range, text_eq};
use crate::keyed::{UriMap, value_of, put, drop_key, distinct_keys, lemma_put, lemma_drop_key};

verus! {

/// An error-severity diagnostic whose source is `cea`.
#[derive(Debug)]
pub struct CeaDiagnostic {
    pub range: Range,
    pub message: String,
}

pub ghost struct DiagnosticView {
    pub range: Range,
    pub message: Seq<char>,
}

impl View for CeaDiagnostic {
    type V = DiagnosticView;

    open spec fn view(&self) -> DiagnosticView {
        DiagnosticView { range: self.range, message: self.message@ }
    }
}

pub open spec fn diagnostic_views(s: Seq<CeaDiagnostic>) -> Seq<DiagnosticView> {
    s.map_values(|d: CeaDiagnostic| d@)
}

impl CeaDiagnostic {
    pub fn new(range: Range, message: String) -> (r: CeaDiagnostic)
        ensures
            r@ == (DiagnosticView { range, message: message@ }),
    {
        CeaDiagnostic { range, message }
    }

    /// The diagnostic source shown to users.
    pub fn source(&self) -> (r: &'static str)
        ensures
            r@ == "cea"@,
    {
        "cea"
    }

    pub fn duplicate(&self) -> (r: CeaDiagnostic)
        ensures
            r@ == self@,
    {
        CeaDiagnostic { range: self.range, message: self.message.clone() }
    }
}

/// Copies a list of diagnostics.
pub fn copy_diagnostics(s: &Vec<CeaDiagnostic>) -> (r: Vec<CeaDiagnostic>)
    ensures
        diagnostic_views(r@) == diagnostic_views(s@),
{
    let mut r: Vec<CeaDiagnostic> = Vec::new();
    let mut i: usize = 0;
    while i < s.len()
        invariant
            i <= s@.len(),
            diagnostic_views(r@) =~= diagnostic_views(s@).subrange(0, i as int),
        decreases s@.len() - i,
    {
        let ghost before = diagnostic_views(r@);
        r.push(s[i].duplicate());
        assert(diagnostic_views(r@) =~= before.push(s@[i as int]@));
        i = i + 1;
    }
    assert(diagnostic_views(s@).subrange(0, i as int) =~= diagnostic_views(s@));
    r
}

/// `prefix` followed by `text` followed by `suffix`.
pub fn framed(prefix: &str, text: &str, suffix: &str) -> (r: String)
    ensures
        r@ == prefix@ + text@ + suffix@,
{
    let mut s = String::from_str(prefix);
    s.append(text);
    s.append(suffix);
    s
}

/// The diagnostics of a kind recorded for `uri`, none when nothing is recorded.
pub open spec fn recorded<D>(m: Seq<(Seq<char>, Vec<D>)>, uri: Seq<char>) -> Seq<D> {
    match value_of(m, uri) {
        Some(v) => v@,
        None => Seq::empty(),
    }
}

/// What is published for `uri`: its CEA diagnostics, then its Lua diagnostics.
pub open spec fn published<D>(
    cea: Seq<(Seq<char>, Vec<D>)>,
    lua: Seq<(Seq<char>, Vec<D>)>,
    uri: Seq<char>,
) -> Seq<D> {
    recorded(cea, uri) + recorded(lua, uri)
}

/// The latest CEA and Lua diagnostics of each document, combined when
/// they are published.
pub struct DiagnosticStore<D> {
    cea: UriMap<Vec<D>>,
    lua: UriMap<Vec<D>>,
}

impl<D> DiagnosticStore<D> {
    pub closed spec fn cea_view(&self) -> Seq<(Seq<char>, Vec<D>)> {
        self.cea@
    }

    pub closed spec fn lua_view(&self) -> Seq<(Seq<char>, Vec<D>)> {
        self.lua@
    }

    /// Both record lists have distinct keys.
    pub open spec fn well_formed(&self) -> bool {
        distinct_keys(self.cea_view()) && distinct_keys(self.lua_view())
    }

    pub fn new() -> (r: DiagnosticStore<D>)
        ensures
            r.cea_view() == Seq::<(Seq<char>, Vec<D>)>::empty(),
            r.lua_view() == Seq::<(Seq<char>, Vec<D>)>::empty(),
            r.well_formed(),
    {
        DiagnosticStore { cea: UriMap::new(), lua: UriMap::new() }
    }

    /// Replaces the CEA diagnostics of `uri`.
    pub fn set_cea(&mut self, uri: String, diagnostics: Vec<D>)
        ensures
            final(self).cea_view() == put(old(self).cea_view(), uri@, diagnostics),
            final(self).lua_view() == old(self).lua_view(),
            final(self).well_formed(),
    {
        self.cea.insert(uri, diagnostics);
        let _ = self.lua.keys_distinct();
    }

    /// Replaces the Lua diagnostics of `uri`.
    pub fn set_lua(&mut self, uri: String, diagnostics: Vec<D>)
        ensures
            final(self).lua_view() == put(old(self).lua_view(), uri@, diagnostics),
            final(self).cea_view() == old(self).cea_view(),
            final(self).well_formed(),
    {
        self.lua.insert(uri, diagnostics);
        let _ = self.cea.keys_distinct();
    }

    /// Forgets both kinds of diagnostics of `uri`.
    pub fn clear(&mut self, uri: &str)
        ensures
            final(self).cea_view() == drop_key(old(self).cea_view(), uri@),
            final(self).lua_view() == drop_key(old(self).lua_view(), uri@),
            final(self).well_formed(),
    {
        self.cea.remove(uri);
        self.lua.remove(uri);
    }

    /// The CEA and the Lua diagnostics recorded for `uri`; published together,
    /// CEA first (see [`published`]).
    pub fn published(&self, uri: &str) -> (r: (Option<&Vec<D>>, Option<&Vec<D>>))
        ensures
            r.0 matches Some(v) ==> value_of(self.cea_view(), uri@) == Some(*v),
            r.0 is None ==> value_of(self.cea_view(), uri@) is None,
            r.1 matches Some(v) ==> value_of(self.lua_view(), uri@) == Some(*v),
            r.1 is None ==> value_of(self.lua_view(), uri@) is None,
    {
        (self.cea.get(uri), self.lua.get(uri))
    }
}

/// After new CEA diagnostics are set for a document, it publishes them
/// followed by its unchanged Lua diagnostics; other documents publish what
/// they did before.
pub proof fn law_set_cea_then_publish<D>(
    cea: Seq<(Seq<char>, Vec<D>)>,
    lua: Seq<(Seq<char>, Vec<D>)>,
    uri: Seq<char>,
    diagnostics: Vec<D>,
    other: Seq<char>,
)
    requires
        distinct_keys(cea),
    ensures
        published(put(cea, uri, diagnostics), lua, uri) == diagnostics@ + recorded(lua, uri),
        other != uri ==> published(put(cea, uri, diagnostics), lua, other) == published(cea, lua, other),
{
    lemma_put(cea, uri, diagnostics, other);
}

/// After new Lua diagnostics are set for a document, it publishes its
/// unchanged CEA diagnostics followed by them; other documents publish what
/// they did before.
pub proof fn law_set_lua_then_publish<D>(
    cea: Seq<(Seq<char>, Vec<D>)>,
    lua: Seq<(Seq<char>, Vec<D>)>,
    uri: Seq<char>,
    diagnostics: Vec<D>,
    other: Seq<char>,
)
    requires
        distinct_keys(lua),
    ensures
        published(cea, put(lua, uri, diagnostics), uri) == recorded(cea, uri) + diagnostics@,
        other != uri ==> published(cea, put(lua, uri, diagnostics), other) == published(cea, lua, other),
{
    lemma_put(lua, uri, diagnostics, other);
}

/// A cleared document publishes nothing; other documents publish what they
/// did before.
pub proof fn law_clear_then_publish<D>(
    cea: Seq<(Seq<char>, Vec<D>)>,
    lua: Seq<(Seq<char>, Vec<D>)>,
    uri: Seq<char>,
    other: Seq<char>,
)
    requires
        distinct_keys(cea),
        distinct_keys(lua),
    ensures
        published(drop_key(cea, uri), drop_key(lua, uri), uri) == Seq::<D>::empty(),
        other != uri ==> published(drop_key(cea, uri), drop_key(lua, uri), other) == published(
            cea,
            lua,
            other,
        ),
{
    lemma_drop_key(cea, uri, other);
    lemma_drop_key(lua, uri, other);
    assert(Seq::<D>::empty() + Seq::<D>::empty() =~= Seq::<D>::empty());
}

} // verus!
