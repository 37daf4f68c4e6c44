//! The bridge to the Lua language server: the virtual documents it sees,
//! the URIs translated between them and the scripts, and the decisions taken
//! on its messages.
use vstd::prelude::*;
use vstd::string::StrSliceExecFns;
use crate::text::{push_char, Position, Range, text_eq};
use crate::keyed::{UriMap, value_of, find_key};
use crate::json::{JsonValue, JsonView, json_view};
use crate::document::in_some_range;
use crate::json::{member, get_member, copy_json};
use crate::lua_paths::{split_on, texts};
use crate::workspace_folders::folder_views;
use crate::lua_config::LuaConfig;
use crate::integer::{dec_text, push_radix, signed_text, push_signed};
use crate::lua_paths::{lua_path_configuration, runtime_paths, unique_libraries, trim, trimmed};
use crate::integer::{parse_unsigned, parse_unsigned_at};
use vstd::string::StringSliceAdditionalSpecFns;

verus! {

/// A script as the Lua language server sees it.
pub struct ProxyDocument {
    pub source_uri: String,
    pub version: i32,
    pub source: String,
    pub ranges: Vec<Range>,
}

pub type ProxyDocuments = UriMap<ProxyDocument>;

pub type ProxyView = Seq<(Seq<char>, ProxyDocument)>;

/// The serialization of the URL that `Url::parse` reads from `text`, when it
/// reads one.
pub uninterp spec fn parsed_url(text: Seq<char>) -> Option<Seq<char>>;

/// Calls `Url::parse` of the `url` crate (re-exported by
/// `tower_lsp::lsp_types`); on success, hands back the URL's serialization.
/// The result is the name [`parsed_url`] of the text: what parsing normalizes
/// is not restated here.
#[verifier::external_body]
fn parse_url(text: &str) -> (r: Option<String>)
    ensures
        r matches Some(u) ==> parsed_url(text@) == Some(u@),
        r is None ==> parsed_url(text@) is None,
{
    match tower_lsp::lsp_types::Url::parse(text) {
        Ok(url) => Some(url.to_string()),
        Err(_) => None,
    }
}

/// A member name that holds a URI: `uri`, or a name ending in `Uri`.
pub open spec fn is_uri_field_name(f: Seq<char>) -> bool {
    f == "uri"@ || (f.len() >= 3 && f[f.len() - 3] == 'U' && f[f.len() - 2] == 'r' && f[f.len() - 1]
        == 'i')
}

pub fn is_uri_field(field: &str) -> (r: bool)
    ensures
        r == is_uri_field_name(field@),
{
    if text_eq(field, "uri") {
        return true;
    }
    let len = field.unicode_len();
    len >= 3 && field.get_char(len - 3) == 'U' && field.get_char(len - 2) == 'r' && field.get_char(
        len - 1,
    ) == 'i'
}

/// `text` with a virtual document's URI replaced by its script's URI.
pub open spec fn source_text(docs: ProxyView, text: Seq<char>) -> Seq<char> {
    match parsed_url(text) {
        Some(u) => match value_of(docs, u) {
            Some(d) => d.source_uri@,
            None => text,
        },
        None => text,
    }
}

/// A value from the Lua language server with the URIs of virtual documents
/// turned back into script URIs: member names that are such URIs, and text
/// under a URI member (`field` is the member the value sits under).
pub open spec fn translate_response(v: JsonView, field: Option<Seq<char>>, docs: ProxyView) -> JsonView
    decreases v,
{
    match v {
        JsonView::Text(s) => if field matches Some(f) && is_uri_field_name(f) {
            JsonView::Text(source_text(docs, s))
        } else {
            JsonView::Text(s)
        },
        JsonView::Array(items) => JsonView::Array(
            Seq::new(
                items.len(),
                |i: int|
                    if 0 <= i < items.len() {
                        translate_response(items[i], field, docs)
                    } else {
                        JsonView::Null
                    },
            ),
        ),
        JsonView::Object(members) => JsonView::Object(
            Seq::new(
                members.len(),
                |i: int|
                    if 0 <= i < members.len() {
                        (
                            source_text(docs, members[i].0),
                            translate_response(members[i].1, Some(members[i].0), docs),
                        )
                    } else {
                        (Seq::empty(), JsonView::Null)
                    },
            ),
        ),
        other => other,
    }
}

/// With no virtual document known, a response of the Lua language server
/// reaches the client unchanged.
pub proof fn law_response_without_documents_unchanged(v: JsonView, field: Option<Seq<char>>)
    ensures
        translate_response(v, field, Seq::empty()) == v,
    decreases v,
{
    let none: ProxyView = Seq::empty();
    match v {
        JsonView::Array(items) => {
            assert forall|i: int| 0 <= i < items.len() implies translate_response(items[i], field, none)
                == items[i] by {
                assert(decreases_to!(v => items[i]));
                law_response_without_documents_unchanged(items[i], field);
            }
            assert(translate_response(v, field, none)->Array_0 =~= items);
        },
        JsonView::Object(members) => {
            assert forall|i: int| 0 <= i < members.len() implies #[trigger] source_text(none, members[i].0)
                == members[i].0 && translate_response(members[i].1, Some(members[i].0), none)
                == members[i].1 by {
                assert(decreases_to!(v => members[i].1));
                law_response_without_documents_unchanged(members[i].1, Some(members[i].0));
            }
            assert(translate_response(v, field, none)->Object_0 =~= members);
        },
        _ => {},
    }
}

/// `text` in terms of scripts once `Url::parse` has read it as `parsed`:
/// the script's URI when `parsed` is a virtual document's URI, else `text`.
pub open spec fn source_of_parsed(docs: ProxyView, parsed: Option<Seq<char>>, text: Seq<char>) -> Seq<char> {
    match parsed {
        Some(u) => match value_of(docs, u) {
            Some(d) => d.source_uri@,
            None => text,
        },
        None => text,
    }
}

/// `text` in terms of scripts, given what `Url::parse` read from it (see
/// [`source_of_parsed`]).
pub fn source_of(parsed: Option<&str>, text: &str, documents: &ProxyDocuments) -> (r: String)
    ensures
        r@ == source_of_parsed(documents@, optional_text(parsed), text@),
{
    match parsed {
        Some(u) => match documents.get(u) {
            Some(d) => d.source_uri.clone(),
            None => text.to_owned(),
        },
        None => text.to_owned(),
    }
}

fn source_text_of(docs: &ProxyDocuments, text: &String) -> (r: String)
    ensures
        r@ == source_text(docs@, text@),
{
    let parsed = parse_url(text.as_str());
    let parsed_text = match &parsed {
        Some(u) => Some(u.as_str()),
        None => None,
    };
    source_of(parsed_text, text.as_str(), docs)
}

fn translate_response_fields(v: &JsonValue, field: Option<&str>, docs: &ProxyDocuments) -> (r: JsonValue)
    ensures
        json_view(r) == translate_response(
            json_view(*v),
            match field {
                Some(f) => Some(f@),
                None => None,
            },
            docs@,
        ),
    decreases v,
{
    let ghost fv = match field {
        Some(f) => Some(f@),
        None => None::<Seq<char>>,
    };
    match v {
        JsonValue::Null => JsonValue::Null,
        JsonValue::Bool(b) => JsonValue::Bool(*b),
        JsonValue::Number(s) => JsonValue::Number(s.clone()),
        JsonValue::Text(s) => {
            let uri_field = match field {
                Some(f) => is_uri_field(f),
                None => false,
            };
            if uri_field {
                JsonValue::Text(source_text_of(docs, s))
            } else {
                JsonValue::Text(s.clone())
            }
        },
        JsonValue::Array(items) => {
            let mut out: Vec<JsonValue> = Vec::new();
            let mut j: usize = 0;
            let ghost iv = json_view(*v)->Array_0;
            while j < items.len()
                invariant
                    *v == JsonValue::Array(*items),
                    iv == json_view(*v)->Array_0,
                    iv.len() == items@.len(),
                    forall|q: int| 0 <= q < items@.len() ==> #[trigger] iv[q] == json_view(items@[q]),
                    fv == match field {
                        Some(f) => Some(f@),
                        None => None,
                    },
                    j <= items@.len(),
                    out@.len() == j,
                    forall|q: int|
                        0 <= q < j ==> json_view(#[trigger] out@[q]) == translate_response(
                            iv[q],
                            fv,
                            docs@,
                        ),
                decreases items@.len() - j,
            {
                proof {
                    assert(decreases_to!(*v => (*v)->Array_0));
                    assert(decreases_to!(*items => items@));
                    assert(decreases_to!(items@ => items@[j as int]));
                    assert(iv[j as int] == json_view(items@[j as int]));
                }
                let c = translate_response_fields(&items[j], field, docs);
                out.push(c);
                j = j + 1;
            }
            let r = JsonValue::Array(out);
            assert(json_view(r)->Array_0 =~= translate_response(json_view(*v), fv, docs@)->Array_0);
            r
        },
        JsonValue::Object(members) => {
            let mut out: Vec<(String, JsonValue)> = Vec::new();
            let mut j: usize = 0;
            let ghost mv = json_view(*v)->Object_0;
            while j < members.len()
                invariant
                    *v == JsonValue::Object(*members),
                    mv == json_view(*v)->Object_0,
                    mv.len() == members@.len(),
                    forall|q: int|
                        0 <= q < members@.len() ==> #[trigger] mv[q] == (
                            members@[q].0@,
                            json_view(members@[q].1),
                        ),
                    j <= members@.len(),
                    out@.len() == j,
                    forall|q: int|
                        0 <= q < j ==> (#[trigger] out@[q]).0@ == source_text(docs@, mv[q].0)
                            && json_view(out@[q].1) == translate_response(
                            mv[q].1,
                            Some(mv[q].0),
                            docs@,
                        ),
                decreases members@.len() - j,
            {
                proof {
                    assert(decreases_to!(*v => (*v)->Object_0));
                    assert(decreases_to!(*members => members@));
                    assert(decreases_to!(members@ => members@[j as int]));
                    assert(decreases_to!(members@[j as int] => members@[j as int].1));
                    assert(mv[j as int] == (members@[j as int].0@, json_view(members@[j as int].1)));
                }
                let key = source_text_of(docs, &members[j].0);
                let c = translate_response_fields(&members[j].1, Some(members[j].0.as_str()), docs);
                out.push((key, c));
                j = j + 1;
            }
            let r = JsonValue::Object(out);
            assert(json_view(r)->Object_0 =~= translate_response(json_view(*v), fv, docs@)->Object_0);
            r
        },
    }
}

/// A response of the Lua language server with script URIs in place of
/// virtual document URIs (see [`translate_response`]).
pub fn translate_response_uris(value: &JsonValue, documents: &ProxyDocuments) -> (r: JsonValue)
    ensures
        json_view(r) == translate_response(json_view(*value), None, documents@),
{
    translate_response_fields(value, None, documents)
}

/// The script URI of a virtual document URI; any other URI is kept.
pub open spec fn related_source(docs: ProxyView, uri: Seq<char>) -> Seq<char> {
    match value_of(docs, uri) {
        Some(d) => d.source_uri@,
        None => uri,
    }
}

/// The URI that related information of a Lua diagnostic points to, in terms
/// of scripts (see [`related_source`]).
pub fn related_source_uri(uri: &str, documents: &ProxyDocuments) -> (r: String)
    ensures
        r@ == related_source(documents@, uri@),
{
    match documents.get(uri) {
        Some(d) => d.source_uri.clone(),
        None => uri.to_owned(),
    }
}

/// A value sent to the Lua language server with the script's URI replaced
/// by its virtual document's: member names equal to it, and text under a URI
/// member equal to it.
pub open spec fn translate_request(
    v: JsonView,
    field: Option<Seq<char>>,
    source: Seq<char>,
    target: Seq<char>,
) -> JsonView
    decreases v,
{
    match v {
        JsonView::Text(s) => if field matches Some(f) && is_uri_field_name(f) && s == source {
            JsonView::Text(target)
        } else {
            JsonView::Text(s)
        },
        JsonView::Array(items) => JsonView::Array(
            Seq::new(
                items.len(),
                |i: int|
                    if 0 <= i < items.len() {
                        translate_request(items[i], field, source, target)
                    } else {
                        JsonView::Null
                    },
            ),
        ),
        JsonView::Object(members) => JsonView::Object(
            Seq::new(
                members.len(),
                |i: int|
                    if 0 <= i < members.len() {
                        (
                            if members[i].0 == source {
                                target
                            } else {
                                members[i].0
                            },
                            translate_request(members[i].1, Some(members[i].0), source, target),
                        )
                    } else {
                        (Seq::empty(), JsonView::Null)
                    },
            ),
        ),
        other => other,
    }
}

fn translate_request_fields(v: &JsonValue, field: Option<&str>, source: &str, target: &str) -> (r: JsonValue)
    ensures
        json_view(r) == translate_request(
            json_view(*v),
            match field {
                Some(f) => Some(f@),
                None => None,
            },
            source@,
            target@,
        ),
    decreases v,
{
    let ghost fv = match field {
        Some(f) => Some(f@),
        None => None::<Seq<char>>,
    };
    match v {
        JsonValue::Null => JsonValue::Null,
        JsonValue::Bool(b) => JsonValue::Bool(*b),
        JsonValue::Number(s) => JsonValue::Number(s.clone()),
        JsonValue::Text(s) => {
            let uri_field = match field {
                Some(f) => is_uri_field(f),
                None => false,
            };
            if uri_field && text_eq(s.as_str(), source) {
                JsonValue::Text(target.to_owned())
            } else {
                JsonValue::Text(s.clone())
            }
        },
        JsonValue::Array(items) => {
            let mut out: Vec<JsonValue> = Vec::new();
            let mut j: usize = 0;
            let ghost iv = json_view(*v)->Array_0;
            while j < items.len()
                invariant
                    *v == JsonValue::Array(*items),
                    iv == json_view(*v)->Array_0,
                    iv.len() == items@.len(),
                    forall|q: int| 0 <= q < items@.len() ==> #[trigger] iv[q] == json_view(items@[q]),
                    fv == match field {
                        Some(f) => Some(f@),
                        None => None,
                    },
                    j <= items@.len(),
                    out@.len() == j,
                    forall|q: int|
                        0 <= q < j ==> json_view(#[trigger] out@[q]) == translate_request(
                            iv[q],
                            fv,
                            source@,
                            target@,
                        ),
                decreases items@.len() - j,
            {
                proof {
                    assert(decreases_to!(*v => (*v)->Array_0));
                    assert(decreases_to!(*items => items@));
                    assert(decreases_to!(items@ => items@[j as int]));
                    assert(iv[j as int] == json_view(items@[j as int]));
                }
                let c = translate_request_fields(&items[j], field, source, target);
                out.push(c);
                j = j + 1;
            }
            let r = JsonValue::Array(out);
            assert(json_view(r)->Array_0 =~= translate_request(json_view(*v), fv, source@, target@)->Array_0);
            r
        },
        JsonValue::Object(members) => {
            let mut out: Vec<(String, JsonValue)> = Vec::new();
            let mut j: usize = 0;
            let ghost mv = json_view(*v)->Object_0;
            while j < members.len()
                invariant
                    *v == JsonValue::Object(*members),
                    mv == json_view(*v)->Object_0,
                    mv.len() == members@.len(),
                    forall|q: int|
                        0 <= q < members@.len() ==> #[trigger] mv[q] == (
                            members@[q].0@,
                            json_view(members@[q].1),
                        ),
                    j <= members@.len(),
                    out@.len() == j,
                    forall|q: int|
                        0 <= q < j ==> (#[trigger] out@[q]).0@ == (if mv[q].0 == source@ {
                            target@
                        } else {
                            mv[q].0
                        }) && json_view(out@[q].1) == translate_request(
                            mv[q].1,
                            Some(mv[q].0),
                            source@,
                            target@,
                        ),
                decreases members@.len() - j,
            {
                proof {
                    assert(decreases_to!(*v => (*v)->Object_0));
                    assert(decreases_to!(*members => members@));
                    assert(decreases_to!(members@ => members@[j as int]));
                    assert(decreases_to!(members@[j as int] => members@[j as int].1));
                    assert(mv[j as int] == (members@[j as int].0@, json_view(members@[j as int].1)));
                }
                let key = if text_eq(members[j].0.as_str(), source) {
                    target.to_owned()
                } else {
                    members[j].0.clone()
                };
                let c = translate_request_fields(&members[j].1, Some(members[j].0.as_str()), source, target);
                out.push((key, c));
                j = j + 1;
            }
            let r = JsonValue::Object(out);
            assert(json_view(r)->Object_0 =~= translate_request(json_view(*v), fv, source@, target@)->Object_0);
            r
        },
    }
}

/// The value sits under a member that holds a URI.
pub open spec fn is_uri_member(field: Option<Seq<char>>) -> bool {
    field matches Some(f) && is_uri_field_name(f)
}

/// No member name of `v`, and no text of `v` under a URI member, is read by
/// `Url::parse` as the URL `target`.
pub open spec fn names_no_virtual(v: JsonView, field: Option<Seq<char>>, target: Seq<char>) -> bool
    decreases v,
{
    match v {
        JsonView::Text(x) => is_uri_member(field) ==> parsed_url(x) != Some(target),
        JsonView::Array(items) => forall|i: int|
            0 <= i < items.len() ==> names_no_virtual(#[trigger] items[i], field, target),
        JsonView::Object(members) => forall|i: int|
            0 <= i < members.len() ==> parsed_url((#[trigger] members[i]).0) != Some(target)
                && names_no_virtual(members[i].1, Some(members[i].0), target),
        _ => true,
    }
}

proof fn lemma_single_document(docs: ProxyView, u: Seq<char>)
    requires
        docs.len() == 1,
    ensures
        value_of(docs, u) == if u == docs[0].0 {
            Some(docs[0].1)
        } else {
            None::<ProxyDocument>
        },
{
    assert(find_key(docs, u, 1) is None);
}

proof fn lemma_round_trip(
    v: JsonView,
    f1: Option<Seq<char>>,
    f2: Option<Seq<char>>,
    docs: ProxyView,
    source: Seq<char>,
    target: Seq<char>,
)
    requires
        docs.len() == 1,
        docs[0].0 == target,
        docs[0].1.source_uri@ == source,
        parsed_url(target) == Some(target),
        !is_uri_field_name(source),
        !is_uri_field_name(target),
        is_uri_member(f1) == is_uri_member(f2),
        names_no_virtual(v, f1, target),
    ensures
        translate_response(translate_request(v, f1, source, target), f2, docs) == v,
    decreases v,
{
    match v {
        JsonView::Text(x) => {
            lemma_single_document(docs, target);
            if let Some(u) = parsed_url(x) {
                lemma_single_document(docs, u);
            }
        },
        JsonView::Array(items) => {
            let req = translate_request(v, f1, source, target);
            assert forall|i: int| 0 <= i < items.len() implies translate_response(
                translate_request(items[i], f1, source, target),
                f2,
                docs,
            ) == items[i] by {
                assert(decreases_to!(v => items[i]));
                assert(names_no_virtual(items[i], f1, target));
                lemma_round_trip(items[i], f1, f2, docs, source, target);
            }
            assert(translate_response(req, f2, docs)->Array_0 =~= items);
        },
        JsonView::Object(members) => {
            let req = translate_request(v, f1, source, target);
            assert forall|i: int| 0 <= i < members.len() implies {
                let k = (#[trigger] members[i]).0;
                let k2 = if k == source {
                    target
                } else {
                    k
                };
                &&& source_text(docs, k2) == k
                &&& translate_response(
                    translate_request(members[i].1, Some(k), source, target),
                    Some(k2),
                    docs,
                ) == members[i].1
            } by {
                let k = members[i].0;
                let k2 = if k == source {
                    target
                } else {
                    k
                };
                assert(parsed_url(k) != Some(target));
                lemma_single_document(docs, target);
                if let Some(u) = parsed_url(k) {
                    lemma_single_document(docs, u);
                }
                assert(decreases_to!(v => members[i].1));
                lemma_round_trip(members[i].1, Some(k), Some(k2), docs, source, target);
            }
            assert(translate_response(req, f2, docs)->Object_0 =~= members);
        },
        _ => {},
    }
}

/// A request translated for the Lua language server, and the response
/// carrying it back, give the value unchanged: with one virtual document
/// `target` standing for the script `source`, when no member name and no
/// URI text of the value reads as `target`, `target` is a URL's own
/// serialization, and neither URI is itself a URI member name.
pub proof fn law_request_response_round_trip(v: JsonView, docs: ProxyView, source: Seq<char>, target: Seq<char>)
    requires
        docs.len() == 1,
        docs[0].0 == target,
        docs[0].1.source_uri@ == source,
        parsed_url(target) == Some(target),
        !is_uri_field_name(source),
        !is_uri_field_name(target),
        names_no_virtual(v, None, target),
    ensures
        translate_response(translate_request(v, None, source, target), None, docs) == v,
{
    lemma_round_trip(v, None, None, docs, source, target);
}

/// A request for the Lua language server with `source_uri` replaced by
/// `virtual_uri` (see [`translate_request`]).
pub fn translate_request_uris(value: &JsonValue, source_uri: &str, virtual_uri: &str) -> (r: JsonValue)
    ensures
        json_view(r) == translate_request(json_view(*value), None, source_uri@, virtual_uri@),
{
    translate_request_fields(value, None, source_uri, virtual_uri)
}

// ------------------------------------------------------------ Lua diagnostics

/// `position` lies in `range`, its end excluded.
pub fn contains(range: &Range, position: Position) -> (r: bool)
    ensures
        r == (range.start.le(position) && position.lt(range.end)),
{
    range.start.at_or_before(&position) && position.before(&range.end)
}

/// The diagnostics whose start lies in one of `ranges`, in their order.
pub open spec fn kept_diagnostics<D>(ds: Seq<(Range, D)>, ranges: Seq<Range>) -> Seq<(Range, D)>
    decreases ds.len(),
{
    if ds.len() == 0 {
        Seq::empty()
    } else {
        kept_diagnostics(ds.drop_last(), ranges) + if in_some_range(ranges, ds.last().0.start) {
            seq![ds.last()]
        } else {
            Seq::empty()
        }
    }
}

fn starts_in_ranges(ranges: &[Range], position: Position) -> (r: bool)
    ensures
        r == in_some_range(ranges@, position),
{
    let mut j: usize = 0;
    while j < ranges.len()
        invariant
            j <= ranges@.len(),
            forall|q: int|
                0 <= q < j ==> !((#[trigger] ranges@[q]).start.le(position) && position.lt(ranges@[q].end)),
        decreases ranges@.len() - j,
    {
        if contains(&ranges[j], position) {
            return true;
        }
        j = j + 1;
    }
    false
}

/// Keeps the Lua diagnostics, each given with its range, that start inside
/// an embedded Lua range (see [`kept_diagnostics`]).
pub fn filter_lua_diagnostics<D>(diagnostics: Vec<(Range, D)>, ranges: &[Range]) -> (r: Vec<(Range, D)>)
    ensures
        r@ == kept_diagnostics(diagnostics@, ranges@),
{
    let ghost all = diagnostics@;
    let mut rest = diagnostics;
    let mut reversed: Vec<(Range, D)> = Vec::new();
    assert(all =~= rest@);
    assert(reversed@.reverse() =~= Seq::<(Range, D)>::empty());
    while rest.len() > 0
        invariant
            kept_diagnostics(all, ranges@) == kept_diagnostics(rest@, ranges@) + reversed@.reverse(),
        decreases rest@.len(),
    {
        let ghost before = rest@;
        let ghost rev_before = reversed@;
        let d = rest.pop().unwrap();
        assert(before.drop_last() =~= rest@);
        if starts_in_ranges(ranges, d.0.start) {
            reversed.push(d);
            assert(reversed@.reverse() =~= seq![d] + rev_before.reverse());
        }
    }
    assert(kept_diagnostics(rest@, ranges@) =~= Seq::<(Range, D)>::empty());
    let mut out: Vec<(Range, D)> = Vec::new();
    while reversed.len() > 0
        invariant
            kept_diagnostics(all, ranges@) == out@ + reversed@.reverse(),
        decreases reversed@.len(),
    {
        let ghost rev_before = reversed@;
        let d = reversed.pop().unwrap();
        assert(rev_before.reverse() =~= seq![d] + reversed@.reverse());
        out.push(d);
    }
    assert(reversed@.reverse() =~= Seq::<(Range, D)>::empty());
    assert(out@ =~= kept_diagnostics(all, ranges@));
    out
}

/// The kept Lua diagnostics are some of the given ones, in their order, and
/// each starts inside an embedded Lua range.
pub proof fn law_kept_diagnostics_start_in_lua<D>(ds: Seq<(Range, D)>, ranges: Seq<Range>)
    ensures
        kept_diagnostics(ds, ranges).len() <= ds.len(),
        forall|i: int|
            0 <= i < kept_diagnostics(ds, ranges).len() ==> in_some_range(
                ranges,
                (#[trigger] kept_diagnostics(ds, ranges)[i]).0.start,
            ) && ds.contains(kept_diagnostics(ds, ranges)[i]),
    decreases ds.len(),
{
    if ds.len() > 0 {
        let prev = kept_diagnostics(ds.drop_last(), ranges);
        law_kept_diagnostics_start_in_lua(ds.drop_last(), ranges);
        assert forall|i: int| 0 <= i < kept_diagnostics(ds, ranges).len() implies in_some_range(
            ranges,
            (#[trigger] kept_diagnostics(ds, ranges)[i]).0.start,
        ) && ds.contains(kept_diagnostics(ds, ranges)[i]) by {
            if i < prev.len() {
                assert(kept_diagnostics(ds, ranges)[i] == prev[i]);
                let k = choose|k: int| 0 <= k < ds.drop_last().len() && ds.drop_last()[k] == prev[i];
                assert(ds[k] == prev[i]);
            } else {
                assert(kept_diagnostics(ds, ranges)[i] == ds.last());
                assert(ds[ds.len() - 1] == ds.last());
            }
        }
    }
}

/// The diagnostics that start inside any of the ranges: at or after a
/// range's start and before its end.
pub open spec fn starts_in_any<D>(ranges: Seq<Range>) -> spec_fn((Range, D)) -> bool {
    |d: (Range, D)|
        exists|j: int|
            0 <= j < ranges.len() && (#[trigger] ranges[j]).start.le(d.0.start) && d.0.start.lt(
                ranges[j].end,
            )
}

/// A Lua diagnostic is forwarded exactly when it starts inside one of the
/// embedded Lua ranges, whichever of them that is; the forwarded ones keep
/// their order.
pub proof fn law_kept_diagnostics_are_all_those_in_lua<D>(ds: Seq<(Range, D)>, ranges: Seq<Range>)
    ensures
        kept_diagnostics(ds, ranges) == ds.filter(starts_in_any::<D>(ranges)),
    decreases ds.len(),
{
    reveal(Seq::filter);
    if ds.len() > 0 {
        let p = ds.drop_last();
        let x = ds.last();
        law_kept_diagnostics_are_all_those_in_lua(p, ranges);
        p.lemma_filter_push(x, starts_in_any::<D>(ranges));
        assert(p.push(x) =~= ds);
        assert(in_some_range(ranges, x.0.start) == starts_in_any::<D>(ranges)(x));
        if in_some_range(ranges, x.0.start) {
            assert(kept_diagnostics(ds, ranges) =~= kept_diagnostics(p, ranges).push(x));
        } else {
            assert(kept_diagnostics(ds, ranges) =~= kept_diagnostics(p, ranges));
        }
    }
}

/// Whether a request at `position` goes to the Lua language server: only
/// inside an embedded Lua range, or when it names no position.
pub fn request_in_lua(document: &ProxyDocument, position: Option<Position>) -> (r: bool)
    ensures
        r == match position {
            Some(p) => in_some_range(document.ranges@, p),
            None => true,
        },
{
    match position {
        Some(p) => starts_in_ranges(document.ranges.as_slice(), p),
        None => true,
    }
}

/// How a request to the Lua language server is named in errors.
pub open spec fn request_context_text(method: Seq<char>, request_id: u64, source_uri: Seq<char>) -> Seq<
    char,
> {
    "LuaLS "@ + method + " request "@ + dec_text(request_id as nat) + " for "@ + source_uri
}

pub fn request_context(method: &str, request_id: u64, source_uri: &str) -> (r: String)
    ensures
        r@ == request_context_text(method@, request_id, source_uri@),
{
    let mut s = String::from_str("LuaLS ");
    s.append(method);
    s.append(" request ");
    push_radix(&mut s, request_id as u128, 10);
    s.append(" for ");
    s.append(source_uri);
    s
}

// ------------------------------------------------------------ messages

/// What to do with a message read from the Lua language server.
#[derive(Clone, Copy, Debug, PartialEq, Eq, Structural)]
pub enum MessageRoute {
    /// The answer to the `initialize` request.
    InitializeResponse,
    /// The answer to the pending request with this id.
    Response(u64),
    /// Diagnostics for a virtual document.
    PublishDiagnostics,
    /// A request that the proxy answers as the client.
    ClientRequest,
    /// Nothing to do.
    Ignore,
}

/// The route of a message from what it holds: whether the `initialize`
/// answer is still awaited, whether it has a `method` member and its text,
/// whether it has an `id` member and its value as an unsigned integer.
pub open spec fn message_route(
    awaiting_initialize: bool,
    has_method: bool,
    method: Option<Seq<char>>,
    has_id: bool,
    id: Option<u64>,
) -> MessageRoute {
    if awaiting_initialize && !has_method && id == Some(1u64) {
        MessageRoute::InitializeResponse
    } else if !has_method {
        match id {
            Some(x) => MessageRoute::Response(x),
            None => MessageRoute::Ignore,
        }
    } else if method == Some("textDocument/publishDiagnostics"@) {
        MessageRoute::PublishDiagnostics
    } else if has_id {
        MessageRoute::ClientRequest
    } else {
        MessageRoute::Ignore
    }
}

pub fn route_message(
    awaiting_initialize: bool,
    has_method: bool,
    method: Option<&str>,
    has_id: bool,
    id: Option<u64>,
) -> (r: MessageRoute)
    ensures
        r == message_route(
            awaiting_initialize,
            has_method,
            match method {
                Some(m) => Some(m@),
                None => None,
            },
            has_id,
            id,
        ),
{
    if awaiting_initialize && !has_method && id == Some(1u64) {
        MessageRoute::InitializeResponse
    } else if !has_method {
        match id {
            Some(x) => MessageRoute::Response(x),
            None => MessageRoute::Ignore,
        }
    } else if match method {
        Some(m) => text_eq(m, "textDocument/publishDiagnostics"),
        None => false,
    } {
        MessageRoute::PublishDiagnostics
    } else if has_id {
        MessageRoute::ClientRequest
    } else {
        MessageRoute::Ignore
    }
}

// ------------------------------------------------------------ client requests

/// The value at a dotted configuration section: the whole configuration for
/// the empty section, else the member reached by each name in turn.
pub open spec fn section_value(configuration: JsonView, keys: Seq<Seq<char>>) -> Option<JsonView>
    decreases keys.len(),
{
    if keys.len() == 0 {
        Some(configuration)
    } else {
        match section_value(configuration, keys.drop_last()) {
            Some(v) => member(v, keys.last()),
            None => None,
        }
    }
}

pub open spec fn configuration_section_view(configuration: JsonView, section: Seq<char>) -> JsonView {
    if section.len() == 0 {
        configuration
    } else {
        match section_value(configuration, split_on(section, '.')) {
            Some(v) => v,
            None => JsonView::Null,
        }
    }
}

/// The fields of `s` between occurrences of `sep` (see [`split_on`]).
pub fn split_text(s: &str, sep: char) -> (r: Vec<String>)
    ensures
        texts(r@) == split_on(s@, sep),
{
    let len = s.unicode_len();
    let mut done: Vec<String> = Vec::new();
    let mut current = String::new();
    let mut i: usize = 0;
    assert(s@.subrange(0, 0) =~= Seq::<char>::empty());
    assert(split_on(s@.subrange(0, 0), sep) =~= texts(done@).push(current@));
    while i < len
        invariant
            len == s@.len(),
            i <= len,
            split_on(s@.subrange(0, i as int), sep) == texts(done@).push(current@),
        decreases len - i,
    {
        let c = s.get_char(i);
        assert(s@.subrange(0, i + 1).drop_last() =~= s@.subrange(0, i as int));
        if c == sep {
            let mut finished = String::new();
            std::mem::swap(&mut finished, &mut current);
            done.push(finished);
            assert(split_on(s@.subrange(0, i + 1), sep) =~= texts(done@).push(current@));
        } else {
            push_char(&mut current, c);
            assert(split_on(s@.subrange(0, i + 1), sep) =~= texts(done@).push(current@));
        }
        i = i + 1;
    }
    assert(s@.subrange(0, i as int) =~= s@);
    let ghost before = texts(done@);
    done.push(current);
    assert(texts(done@) =~= before.push(done@.last()@));
    done
}

/// The part of the Lua configuration that a `workspace/configuration` item
/// asks for (see [`configuration_section_view`]).
pub fn configuration_section(configuration: &JsonValue, section: &str) -> (r: JsonValue)
    ensures
        json_view(r) == configuration_section_view(json_view(*configuration), section@),
{
    if section.unicode_len() == 0 {
        return copy_json(configuration);
    }
    let keys = split_text(section, '.');
    let ghost kv = texts(keys@);
    let mut current: &JsonValue = configuration;
    let mut j: usize = 0;
    assert(kv.subrange(0, 0) =~= Seq::<Seq<char>>::empty());
    while j < keys.len()
        invariant
            kv == texts(keys@),
            kv == split_on(section@, '.'),
            section@.len() > 0,
            j <= keys@.len(),
            section_value(json_view(*configuration), kv.subrange(0, j as int)) == Some(json_view(*current)),
        decreases keys@.len() - j,
    {
        assert(kv.subrange(0, j + 1).drop_last() =~= kv.subrange(0, j as int));
        assert(kv.subrange(0, j + 1).last() == keys@[j as int]@);
        match get_member(current, keys[j].as_str()) {
            Some(next) => {
                current = next;
            },
            None => {
                assert(section_value(json_view(*configuration), kv.subrange(0, j + 1)) is None);
                proof {
                    lemma_section_value_none(json_view(*configuration), kv, j as int + 1);
                }
                assert(kv.subrange(0, kv.len() as int) =~= kv);
                return JsonValue::Null;
            },
        }
        j = j + 1;
    }
    assert(kv.subrange(0, j as int) =~= kv);
    copy_json(current)
}

proof fn lemma_section_value_none(configuration: JsonView, keys: Seq<Seq<char>>, m: int)
    requires
        0 <= m <= keys.len(),
        section_value(configuration, keys.subrange(0, m)) is None,
    ensures
        section_value(configuration, keys) is None,
    decreases keys.len() - m,
{
    if m < keys.len() {
        assert(keys.subrange(0, m + 1).drop_last() =~= keys.subrange(0, m));
        lemma_section_value_none(configuration, keys, m + 1);
    } else {
        assert(keys.subrange(0, m) =~= keys);
    }
}

pub open spec fn text_array(items: Seq<Seq<char>>) -> JsonView {
    JsonView::Array(items.map_values(|t: Seq<char>| JsonView::Text(t)))
}

/// A JSON-RPC response carrying `result` or an error `(code, message)`.
pub open spec fn response_view(id: JsonView, result: Result<JsonView, (i32, Seq<char>)>) -> JsonView {
    match result {
        Ok(r) => JsonView::Object(
            seq![("jsonrpc"@, JsonView::Text("2.0"@)), ("id"@, id), ("result"@, r)],
        ),
        Err((code, message)) => JsonView::Object(
            seq![
                ("jsonrpc"@, JsonView::Text("2.0"@)),
                ("id"@, id),
                (
                    "error"@,
                    JsonView::Object(
                        seq![
                            ("code"@, JsonView::Number(signed_text(code as int))),
                            ("message"@, JsonView::Text(message)),
                        ],
                    ),
                ),
            ],
        ),
    }
}

/// The answer to a request of the Lua language server to its client:
/// configuration by section, the workspace folders, a refusal of workspace
/// edits, an acknowledgement of registrations and progress, or an error.
pub open spec fn client_reply(
    method: Seq<char>,
    sections: Result<Seq<Option<Seq<char>>>, Seq<char>>,
    folders: JsonView,
    configuration: JsonView,
) -> Result<JsonView, (i32, Seq<char>)> {
    if method == "workspace/configuration"@ {
        match sections {
            Ok(secs) => Ok(
                JsonView::Array(
                    secs.map_values(
                        |s: Option<Seq<char>>|
                            match s {
                                Some(x) => configuration_section_view(configuration, x),
                                None => configuration,
                            },
                    ),
                ),
            ),
            Err(e) => Err((-32602i32, "invalid workspace/configuration params: "@ + e)),
        }
    } else if method == "workspace/workspaceFolders"@ {
        Ok(folders)
    } else if method == "workspace/applyEdit"@ {
        Ok(
            JsonView::Object(
                seq![
                    ("applied"@, JsonView::Bool(false)),
                    (
                        "failureReason"@,
                        JsonView::Text(
                            "LuaLS workspace edits are disabled to protect virtual CEA documents"@,
                        ),
                    ),
                ],
            ),
        )
    } else if method == "client/registerCapability"@ || method == "client/unregisterCapability"@
        || method == "window/workDoneProgress/create"@ {
        Ok(JsonView::Null)
    } else {
        Err((-32601i32, "unsupported LuaLS client request: "@ + method))
    }
}

fn text_value(s: &str) -> (r: JsonValue)
    ensures
        json_view(r) == JsonView::Text(s@),
{
    JsonValue::Text(s.to_owned())
}

fn object_value(members: Vec<(String, JsonValue)>) -> (r: JsonValue)
    ensures
        json_view(r) == JsonView::Object(
            members@.map_values(|m: (String, JsonValue)| (m.0@, json_view(m.1))),
        ),
{
    let r = JsonValue::Object(members);
    assert(json_view(r)->Object_0 =~= members@.map_values(
        |m: (String, JsonValue)| (m.0@, json_view(m.1)),
    ));
    r
}

fn array_value(items: Vec<JsonValue>) -> (r: JsonValue)
    ensures
        json_view(r) == JsonView::Array(items@.map_values(|v: JsonValue| json_view(v))),
{
    let r = JsonValue::Array(items);
    assert(json_view(r)->Array_0 =~= items@.map_values(|v: JsonValue| json_view(v)));
    r
}

fn member_pair(key: &str, value: JsonValue) -> (r: (String, JsonValue))
    ensures
        r.0@ == key@,
        r.1 == value,
{
    (key.to_owned(), value)
}

pub open spec fn sections_view(sections: Result<Vec<Option<String>>, String>) -> Result<
    Seq<Option<Seq<char>>>,
    Seq<char>,
> {
    match sections {
        Ok(v) => Ok(
            v@.map_values(
                |s: Option<String>|
                    match s {
                        Some(x) => Some(x@),
                        None => None,
                    },
            ),
        ),
        Err(e) => Err(e@),
    }
}

/// The response (see [`response_view`]) to request `id` of the Lua
/// language server whose method is `method` (see [`client_reply`]);
/// `sections` are the sections its `workspace/configuration` parameters ask
/// for, or why they could not be read.
pub fn client_request_response(
    id: JsonValue,
    method: &str,
    sections: Result<Vec<Option<String>>, String>,
    workspace_folders: JsonValue,
    configuration: &JsonValue,
) -> (r: JsonValue)
    ensures
        json_view(r) == response_view(
            json_view(id),
            client_reply(
                method@,
                sections_view(sections),
                json_view(workspace_folders),
                json_view(*configuration),
            ),
        ),
{
    let ghost sv = sections_view(sections);
    let ghost expected = client_reply(method@, sv, json_view(workspace_folders), json_view(*configuration));
    let result: Result<JsonValue, (i32, String)> = if text_eq(method, "workspace/configuration") {
        match sections {
            Ok(items) => {
                let mut out: Vec<JsonValue> = Vec::new();
                let mut j: usize = 0;
                while j < items.len()
                    invariant
                        j <= items@.len(),
                        out@.len() == j,
                        forall|q: int|
                            0 <= q < j ==> json_view(#[trigger] out@[q]) == match items@[q] {
                                Some(x) => configuration_section_view(json_view(*configuration), x@),
                                None => json_view(*configuration),
                            },
                    decreases items@.len() - j,
                {
                    let v = match &items[j] {
                        Some(x) => configuration_section(configuration, x.as_str()),
                        None => copy_json(configuration),
                    };
                    out.push(v);
                    j = j + 1;
                }
                let a = array_value(out);
                assert(json_view(a)->Array_0 =~= expected->Ok_0->Array_0);
                Ok(a)
            },
            Err(e) => {
                let mut m = String::from_str("invalid workspace/configuration params: ");
                m.append(e.as_str());
                Err((-32602i32, m))
            },
        }
    } else if text_eq(method, "workspace/workspaceFolders") {
        Ok(workspace_folders)
    } else if text_eq(method, "workspace/applyEdit") {
        let mut members: Vec<(String, JsonValue)> = Vec::new();
        members.push(member_pair("applied", JsonValue::Bool(false)));
        members.push(member_pair("failureReason", text_value("LuaLS workspace edits are disabled to protect virtual CEA documents")));
        let o = object_value(members);
        assert(json_view(o)->Object_0 =~= expected->Ok_0->Object_0);
        Ok(o)
    } else if text_eq(method, "client/registerCapability") || text_eq(method, "client/unregisterCapability")
        || text_eq(method, "window/workDoneProgress/create") {
        Ok(JsonValue::Null)
    } else {
        let mut m = String::from_str("unsupported LuaLS client request: ");
        m.append(method);
        Err((-32601i32, m))
    };
    assert(match result {
        Ok(v) => expected == Ok::<JsonView, (i32, Seq<char>)>(json_view(v)),
        Err((c, m)) => expected == Err::<JsonView, (i32, Seq<char>)>((c, m@)),
    });
    let ghost idv = json_view(id);
    let mut members: Vec<(String, JsonValue)> = Vec::new();
    members.push(member_pair("jsonrpc", text_value("2.0")));
    members.push(member_pair("id", id));
    match result {
        Ok(v) => {
            members.push(member_pair("result", v));
        },
        Err((code, message)) => {
            let mut number = String::new();
            push_signed(&mut number, code as i128);
            let mut error: Vec<(String, JsonValue)> = Vec::new();
            error.push(member_pair("code", JsonValue::Number(number)));
            error.push(member_pair("message", JsonValue::Text(message)));
            let e = object_value(error);
            assert(json_view(e)->Object_0 =~= seq![
                ("code"@, JsonView::Number(signed_text(code as int))),
                ("message"@, JsonView::Text(message@)),
            ]);
            members.push(member_pair("error", e));
        },
    }
    let r = object_value(members);
    assert(json_view(r)->Object_0 =~= response_view(idv, expected)->Object_0);
    r
}

fn text_values(items: &Vec<String>) -> (r: JsonValue)
    ensures
        json_view(r) == text_array(texts(items@)),
{
    let mut out: Vec<JsonValue> = Vec::new();
    let mut j: usize = 0;
    while j < items.len()
        invariant
            j <= items@.len(),
            out@.len() == j,
            forall|q: int| 0 <= q < j ==> json_view(#[trigger] out@[q]) == JsonView::Text(items@[q]@),
        decreases items@.len() - j,
    {
        out.push(text_value(items[j].as_str()));
        j = j + 1;
    }
    let a = array_value(out);
    assert(json_view(a)->Array_0 =~= text_array(texts(items@))->Array_0);
    a
}

/// Lua's default search layouts, which `;;` in a search path stands for.
pub open spec fn default_layouts() -> Seq<Seq<char>> {
    seq!["?.lua"@, "?/init.lua"@]
}

/// The search path holds `;;`, the mark of Lua's default layouts.
pub open spec fn has_default_mark(p: Seq<char>) -> bool {
    exists|i: int| 0 <= i && i + 1 < p.len() && #[trigger] p[i] == ';' && p[i + 1] == ';'
}

/// The runtime patterns inherited from a search path: its entries, then
/// Lua's default layouts where the path holds `;;`.
pub open spec fn inherited_runtime(p: Seq<char>) -> Seq<Seq<char>> {
    runtime_paths(p) + if has_default_mark(p) {
        default_layouts()
    } else {
        Seq::empty()
    }
}

/// A directory written relative to the workspace: it starts with neither
/// `/` nor `\` and has no drive letter.
pub open spec fn is_relative_dir(d: Seq<char>) -> bool {
    !(d.len() > 0 && (d[0] == '/' || d[0] == '\\')) && !(d.len() >= 2 && d[1] == ':')
}

/// A library directory resolved from the first workspace folder `root`.
pub open spec fn resolved_dir(root: Option<Seq<char>>, d: Seq<char>) -> Seq<char> {
    match root {
        Some(r) => if is_relative_dir(d) {
            r + "/"@ + d
        } else {
            d
        },
        None => d,
    }
}

pub open spec fn resolved_dirs(root: Option<Seq<char>>, ds: Seq<Seq<char>>) -> Seq<Seq<char>> {
    ds.map_values(|d: Seq<char>| resolved_dir(root, d))
}

pub open spec fn optional_text(o: Option<&str>) -> Option<Seq<char>> {
    match o {
        Some(t) => Some(t@),
        None => None,
    }
}

pub open spec fn optional_string(o: Option<String>) -> Option<Seq<char>> {
    match o {
        Some(t) => Some(t@),
        None => None,
    }
}

/// `Lua.runtime`: the search patterns, and the runtime version when one is set.
pub open spec fn runtime_view(runtime: Seq<Seq<char>>, version: Option<Seq<char>>) -> JsonView {
    match version {
        Some(v) => JsonView::Object(seq![("path"@, text_array(runtime)), ("version"@, JsonView::Text(v))]),
        None => JsonView::Object(seq![("path"@, text_array(runtime))]),
    }
}

/// The settings of the Lua language server.
///
/// - `Lua.runtime.path`: the configured patterns, then those inherited from
///   `LUA_PATH` when it is set (its entries, and Lua's default layouts where
///   it holds `;;`). Patterns are passed as written: the server searches
///   relative ones from the workspace.
/// - `Lua.workspace.library`: the configured directories, then those the
///   inherited entries search, then the directory of the installed Cheat
///   Engine API declarations (`api_library`) when the API is enabled;
///   relative ones are resolved from the first workspace folder `root`.
/// - `Lua.runtime.version`: the configured runtime version, when set.
///
/// None when there is nothing to set.
pub open spec fn lua_settings(
    lua_path: Option<Seq<char>>,
    runtime_path: Seq<Seq<char>>,
    library: Seq<Seq<char>>,
    version: Option<Seq<char>>,
    root: Option<Seq<char>>,
    api_library: Option<Seq<char>>,
) -> Option<JsonView> {
    let inherited = match lua_path {
        Some(p) => inherited_runtime(p),
        None => Seq::empty(),
    };
    let inherited_dirs = match lua_path {
        Some(p) => unique_libraries(runtime_paths(p)),
        None => Seq::empty(),
    };
    let runtime = runtime_path + inherited;
    let api_dirs = match api_library {
        Some(a) => seq![a],
        None => Seq::empty(),
    };
    let libraries = resolved_dirs(root, library + inherited_dirs + api_dirs);
    if runtime.len() == 0 && libraries.len() == 0 && version is None {
        None
    } else {
        Some(
            JsonView::Object(
                seq![
                    (
                        "Lua"@,
                        JsonView::Object(
                            seq![
                                ("runtime"@, runtime_view(runtime, version)),
                                (
                                    "workspace"@,
                                    JsonView::Object(seq![("library"@, text_array(libraries))]),
                                ),
                            ],
                        ),
                    ),
                ],
            ),
        )
    }
}

fn has_default_mark_in(p: &str) -> (r: bool)
    ensures
        r == has_default_mark(p@),
{
    let n = p.unicode_len();
    let mut i: usize = 0;
    while i < n && i + 1 < n
        invariant
            n == p@.len(),
            i <= n,
            forall|q: int| 0 <= q < i ==> !(#[trigger] p@[q] == ';' && p@[q + 1] == ';'),
        decreases n - i,
    {
        if p.get_char(i) == ';' && p.get_char(i + 1) == ';' {
            assert(p@[i as int] == ';' && p@[i + 1] == ';');
            return true;
        }
        i = i + 1;
    }
    assert forall|q: int| 0 <= q && q + 1 < p@.len() implies !(#[trigger] p@[q] == ';' && p@[q + 1] == ';') by {
        if q >= i {
            assert(q + 1 >= n);
        }
    }
    false
}

fn append_texts(out: &mut Vec<String>, items: &Vec<String>)
    ensures
        texts(final(out)@) == texts(old(out)@) + texts(items@),
{
    let ghost start = texts(out@);
    let mut j: usize = 0;
    while j < items.len()
        invariant
            j <= items@.len(),
            texts(out@) == start + texts(items@).subrange(0, j as int),
        decreases items@.len() - j,
    {
        let ghost before = out@;
        out.push(items[j].clone());
        assert(texts(out@) =~= texts(before).push(items@[j as int]@));
        assert(texts(items@).subrange(0, j + 1) =~= texts(items@).subrange(0, j as int).push(items@[j as int]@));
        j = j + 1;
    }
    assert(texts(items@).subrange(0, j as int) =~= texts(items@));
}

fn resolve_dir(root: Option<&str>, d: &str) -> (r: String)
    ensures
        r@ == resolved_dir(optional_text(root), d@),
{
    match root {
        None => d.to_owned(),
        Some(base) => {
            let n = d.unicode_len();
            let absolute = (n > 0 && (d.get_char(0) == '/' || d.get_char(0) == '\\')) || (n >= 2 && d.get_char(1)
                == ':');
            if absolute {
                d.to_owned()
            } else {
                let mut s = String::from_str(base);
                s.append("/");
                s.append(d);
                s
            }
        },
    }
}

fn resolve_dirs(root: Option<&str>, dirs: &Vec<String>) -> (r: Vec<String>)
    ensures
        texts(r@) == resolved_dirs(optional_text(root), texts(dirs@)),
{
    let ghost ds = texts(dirs@);
    let mut out: Vec<String> = Vec::new();
    let mut j: usize = 0;
    while j < dirs.len()
        invariant
            ds == texts(dirs@),
            j <= dirs@.len(),
            texts(out@) == resolved_dirs(optional_text(root), ds.subrange(0, j as int)),
        decreases dirs@.len() - j,
    {
        let ghost before = out@;
        let d = resolve_dir(root, dirs[j].as_str());
        out.push(d);
        assert(texts(out@) =~= texts(before).push(d@));
        assert(ds.subrange(0, j + 1) =~= ds.subrange(0, j as int).push(ds[j as int]));
        assert(resolved_dirs(optional_text(root), ds.subrange(0, j + 1)) =~= resolved_dirs(
            optional_text(root),
            ds.subrange(0, j as int),
        ).push(resolved_dir(optional_text(root), ds[j as int])));
        j = j + 1;
    }
    assert(ds.subrange(0, j as int) =~= ds);
    out
}

/// The settings of the Lua language server (see [`lua_settings`]) from the
/// value of `LUA_PATH` when it is set, the configuration, the path of the
/// first workspace folder when there is one, and the directory where the
/// Cheat Engine API declarations were installed, when they were.
pub fn lua_configuration(
    lua_path: Option<&str>,
    config: &LuaConfig,
    root: Option<&str>,
    api_library: Option<&str>,
) -> (r: Option<JsonValue>)
    ensures
        match lua_settings(
            optional_text(lua_path),
            texts(config.runtime_path@),
            texts(config.workspace_library@),
            optional_string(config.runtime_version),
            optional_text(root),
            if config.cheat_engine_api.enabled {
                optional_text(api_library)
            } else {
                None
            },
        ) {
            None => r is None,
            Some(v) => r matches Some(x) && json_view(x) == v,
        },
{
    let ghost lp = optional_text(lua_path);
    let ghost inherited = match lp {
        Some(p) => inherited_runtime(p),
        None => Seq::<Seq<char>>::empty(),
    };
    let ghost inherited_dirs = match lp {
        Some(p) => unique_libraries(runtime_paths(p)),
        None => Seq::<Seq<char>>::empty(),
    };
    let mut runtime: Vec<String> = Vec::new();
    append_texts(&mut runtime, &config.runtime_path);
    let mut dirs: Vec<String> = Vec::new();
    append_texts(&mut dirs, &config.workspace_library);
    assert(texts(runtime@) =~= texts(config.runtime_path@));
    assert(texts(dirs@) =~= texts(config.workspace_library@));
    match lua_path {
        Some(p) => {
            let (rt, libs) = lua_path_configuration(p);
            append_texts(&mut runtime, &rt);
            if has_default_mark_in(p) {
                let ghost before = runtime@;
                runtime.push(String::from_str("?.lua"));
                runtime.push(String::from_str("?/init.lua"));
                assert(texts(runtime@) =~= texts(before) + default_layouts());
            }
            append_texts(&mut dirs, &libs);
        },
        None => {},
    }
    assert(texts(runtime@) =~= texts(config.runtime_path@) + inherited);
    assert(texts(dirs@) =~= texts(config.workspace_library@) + inherited_dirs);
    let ghost api = if config.cheat_engine_api.enabled {
        optional_text(api_library)
    } else {
        None
    };
    let ghost api_dirs = match api {
        Some(a) => seq![a],
        None => Seq::<Seq<char>>::empty(),
    };
    if config.cheat_engine_api.enabled {
        match api_library {
            Some(a) => {
                let ghost before = dirs@;
                dirs.push(a.to_owned());
                assert(texts(dirs@) =~= texts(before).push(a@));
            },
            None => {},
        }
    }
    assert(texts(dirs@) =~= texts(config.workspace_library@) + inherited_dirs + api_dirs);
    let libraries = resolve_dirs(root, &dirs);
    if runtime.len() == 0 && libraries.len() == 0 && config.runtime_version.is_none() {
        return None;
    }
    let ghost runtime_texts = texts(runtime@);
    let ghost expected = lua_settings(
        lp,
        texts(config.runtime_path@),
        texts(config.workspace_library@),
        optional_string(config.runtime_version),
        optional_text(root),
        api,
    )->Some_0;
    let paths = text_values(&runtime);
    let libs = text_values(&libraries);
    let mut rt: Vec<(String, JsonValue)> = Vec::new();
    rt.push(member_pair("path", paths));
    match &config.runtime_version {
        Some(v) => rt.push(member_pair("version", text_value(v.as_str()))),
        None => {},
    }
    let rt = object_value(rt);
    assert(json_view(rt)->Object_0 =~= runtime_view(runtime_texts, optional_string(config.runtime_version))->Object_0);
    let mut ws: Vec<(String, JsonValue)> = Vec::new();
    ws.push(member_pair("library", libs));
    let ws = object_value(ws);
    let mut lua: Vec<(String, JsonValue)> = Vec::new();
    lua.push(member_pair("runtime", rt));
    lua.push(member_pair("workspace", ws));
    let lua = object_value(lua);
    let mut top: Vec<(String, JsonValue)> = Vec::new();
    top.push(member_pair("Lua", lua));
    let top = object_value(top);
    assert(json_view(top)->Object_0[0].1->Object_0[1].1->Object_0 =~= expected->Object_0[0].1->Object_0[1].1->Object_0);
    assert(json_view(top)->Object_0[0].1->Object_0 =~= expected->Object_0[0].1->Object_0);
    assert(json_view(top)->Object_0 =~= expected->Object_0);
    Some(top)
}

// ------------------------------------------------------------ requests

/// `params` with the URI at `/textDocument/uri`, when there is one, replaced
/// by `virtual_uri`.
pub open spec fn with_virtual_uri(params: JsonView, virtual_uri: Seq<char>) -> JsonView {
    match params {
        JsonView::Object(members) => {
            let t = member_index(members, "textDocument"@, 0);
            if t < members.len() {
                match members[t].1 {
                    JsonView::Object(inner) => {
                        let u = member_index(inner, "uri"@, 0);
                        if u < inner.len() {
                            JsonView::Object(
                                members.update(
                                    t,
                                    (
                                        members[t].0,
                                        JsonView::Object(
                                            inner.update(u, (inner[u].0, JsonView::Text(virtual_uri))),
                                        ),
                                    ),
                                ),
                            )
                        } else {
                            params
                        }
                    },
                    _ => params,
                }
            } else {
                params
            }
        },
        _ => params,
    }
}

/// Index of the first member named `key` from the `k`-th on, or the length.
pub open spec fn member_index(members: Seq<(Seq<char>, JsonView)>, key: Seq<char>, k: int) -> int
    decreases members.len() - k,
{
    if k < 0 || k >= members.len() {
        members.len() as int
    } else if members[k].0 == key {
        k
    } else {
        member_index(members, key, k + 1)
    }
}

fn find_member(members: &Vec<(String, JsonValue)>, key: &str) -> (r: usize)
    ensures
        r as int == member_index(members@.map_values(|m: (String, JsonValue)| (m.0@, json_view(m.1))), key@, 0),
        r <= members@.len(),
{
    let ghost mv = members@.map_values(|m: (String, JsonValue)| (m.0@, json_view(m.1)));
    let mut k: usize = 0;
    while k < members.len()
        invariant
            mv == members@.map_values(|m: (String, JsonValue)| (m.0@, json_view(m.1))),
            k <= members@.len(),
            member_index(mv, key@, k as int) == member_index(mv, key@, 0),
        ensures
            k <= members@.len(),
            member_index(mv, key@, 0) == k,
        decreases members@.len() - k,
    {
        assert(mv[k as int].0 == members@[k as int].0@);
        if text_eq(members[k].0.as_str(), key) {
            break;
        }
        k = k + 1;
    }
    k
}

/// Points a request at the virtual document (see [`with_virtual_uri`]).
pub fn set_virtual_uri(params: JsonValue, virtual_uri: &str) -> (r: JsonValue)
    ensures
        json_view(r) == with_virtual_uri(json_view(params), virtual_uri@),
{
    let ghost pv = json_view(params);
    match params {
        JsonValue::Object(members) => {
            let ghost mv = members@.map_values(|m: (String, JsonValue)| (m.0@, json_view(m.1)));
            assert(pv->Object_0 =~= mv);
            let t = find_member(&members, "textDocument");
            if t >= members.len() {
                let r = JsonValue::Object(members);
                assert(json_view(r)->Object_0 =~= mv);
                return r;
            }
            let mut members = members;
            let (name, value) = members.remove(t);
            let ghost rest = members@;
            match value {
                JsonValue::Object(inner) => {
                    let ghost iv = inner@.map_values(|m: (String, JsonValue)| (m.0@, json_view(m.1)));
                    assert(json_view(JsonValue::Object(inner))->Object_0 =~= iv);
                    let u = find_member(&inner, "uri");
                    let had = u < inner.len();
                    let mut inner = inner;
                    if had {
                        let (key, _) = inner.remove(u);
                        inner.insert(u, (key, text_value(virtual_uri)));
                    }
                    let ghost iv2 = inner@.map_values(|m: (String, JsonValue)| (m.0@, json_view(m.1)));
                    let value = JsonValue::Object(inner);
                    assert(json_view(value)->Object_0 =~= iv2);
                    members.insert(t, (name, value));
                    let r = JsonValue::Object(members);
                    if had {
                        assert(iv2 =~= iv.update(u as int, (iv[u as int].0, JsonView::Text(virtual_uri@))));
                        assert(json_view(r)->Object_0 =~= mv.update(
                            t as int,
                            (mv[t as int].0, JsonView::Object(iv.update(u as int, (iv[u as int].0, JsonView::Text(virtual_uri@))))),
                        ));
                    } else {
                        assert(iv2 =~= iv);
                        assert(json_view(r)->Object_0 =~= mv);
                    }
                    r
                },
                other => {
                    let ghost ov = json_view(other);
                    members.insert(t, (name, other));
                    let r = JsonValue::Object(members);
                    assert(json_view(r)->Object_0 =~= mv);
                    r
                },
            }
        },
        other => other,
    }
}

/// The data a completion item of the Lua language server carries through
/// the client: the script it was asked for and the server's own data.
pub open spec fn completion_data_view(source_uri: Seq<char>, data: Option<JsonView>) -> JsonView {
    JsonView::Object(
        seq![
            ("ceaSourceUri"@, JsonView::Text(source_uri)),
            (
                "luaData"@,
                match data {
                    Some(d) => d,
                    None => JsonView::Null,
                },
            ),
        ],
    )
}

pub open spec fn optional_view(data: Option<JsonValue>) -> Option<JsonView> {
    match data {
        Some(d) => Some(json_view(d)),
        None => None,
    }
}

pub fn wrap_completion_data(source_uri: &str, data: Option<JsonValue>) -> (r: JsonValue)
    ensures
        json_view(r) == completion_data_view(source_uri@, optional_view(data)),
{
    let ghost dv = optional_view(data);
    let inner = match data {
        Some(d) => d,
        None => JsonValue::Null,
    };
    let mut members: Vec<(String, JsonValue)> = Vec::new();
    members.push(member_pair("ceaSourceUri", text_value(source_uri)));
    members.push(member_pair("luaData", inner));
    let r = object_value(members);
    assert(json_view(r)->Object_0 =~= completion_data_view(source_uri@, dv)->Object_0);
    r
}

/// What a resolve request recovers from wrapped completion data: the
/// script's URI when `ceaSourceUri` is text, and the Lua server's data when
/// it is present and not null.
pub open spec fn unwrapped_data(data: JsonView) -> (Option<Seq<char>>, Option<JsonView>) {
    (
        match member(data, "ceaSourceUri"@) {
            Some(JsonView::Text(u)) => Some(u),
            _ => None,
        },
        match member(data, "luaData"@) {
            Some(JsonView::Null) => None,
            Some(d) => Some(d),
            None => None,
        },
    )
}

pub fn unwrap_completion_data(data: &JsonValue) -> (r: (Option<String>, Option<JsonValue>))
    ensures
        r.0 matches Some(u) ==> unwrapped_data(json_view(*data)).0 == Some(u@),
        r.0 is None ==> unwrapped_data(json_view(*data)).0 is None,
        r.1 matches Some(d) ==> unwrapped_data(json_view(*data)).1 == Some(json_view(d)),
        r.1 is None ==> unwrapped_data(json_view(*data)).1 is None,
{
    let uri = match get_member(data, "ceaSourceUri") {
        Some(JsonValue::Text(u)) => Some(u.clone()),
        _ => None,
    };
    let lua = match get_member(data, "luaData") {
        Some(JsonValue::Null) => None,
        Some(d) => Some(copy_json(d)),
        None => None,
    };
    (uri, lua)
}

/// The Lua diagnostics published for virtual document `virtual_uri`, in
/// terms of its script: none for an unknown document, else its script's URI
/// with the diagnostics inside its Lua ranges.
pub fn lua_diagnostics_for<D>(documents: &ProxyDocuments, virtual_uri: &str, diagnostics: Vec<(Range, D)>) -> (r: Option<
    (String, Vec<(Range, D)>),
>)
    ensures
        match value_of(documents@, virtual_uri@) {
            None => r is None,
            Some(d) => r matches Some(p) && p.0@ == d.source_uri@ && p.1@ == kept_diagnostics(
                diagnostics@,
                d.ranges@,
            ),
        },
{
    match documents.get(virtual_uri) {
        None => None,
        Some(d) => Some((d.source_uri.clone(), filter_lua_diagnostics(diagnostics, d.ranges.as_slice()))),
    }
}

// ------------------------------------------------------------ replies

/// What a reply to a forwarded request gives the caller waiting for it: a
/// failure naming the reply's error (`error`, the error's JSON text) when it
/// has one, else its result, or null when it has none.
pub fn reply_outcome(error: Option<&str>, result: Option<JsonValue>) -> (r: Result<JsonValue, String>)
    ensures
        match error {
            Some(e) => r matches Err(m) && m@ == "LuaLS request failed: "@ + e@,
            None => r matches Ok(v) && json_view(v) == match result {
                Some(x) => json_view(x),
                None => JsonView::Null,
            },
        },
{
    match error {
        Some(e) => {
            let mut m = String::from_str("LuaLS request failed: ");
            m.append(e);
            Err(m)
        },
        None => match result {
            Some(x) => Ok(x),
            None => Ok(JsonValue::Null),
        },
    }
}

/// What the reply to `initialize` gives the start-up: a failure naming its
/// error (its JSON text) when it has one.
pub fn initialize_outcome(error: Option<&str>) -> (r: Result<(), String>)
    ensures
        match error {
            Some(e) => r matches Err(m) && m@ == "LuaLS initialization failed: "@ + e@,
            None => r is Ok,
        },
{
    match error {
        Some(e) => {
            let mut m = String::from_str("LuaLS initialization failed: ");
            m.append(e);
            Err(m)
        },
        None => Ok(()),
    }
}

/// Why the messages from the Lua server stopped, which every request still
/// waiting is failed with: a read error, or the end of its output.
pub fn stream_failure(read_error: Option<&str>) -> (r: String)
    ensures
        r@ == match read_error {
            Some(e) => "LuaLS protocol read error: "@ + e@,
            None => "LuaLS stdout closed unexpectedly"@,
        },
{
    match read_error {
        Some(e) => {
            let mut m = String::from_str("LuaLS protocol read error: ");
            m.append(e);
            m
        },
        None => String::from_str("LuaLS stdout closed unexpectedly"),
    }
}

// ------------------------------------------------------------ framing

/// A header line of a message from the Lua language server.
#[derive(Clone, Copy, Debug, PartialEq, Eq, Structural)]
pub enum HeaderLine {
    /// The empty line that ends the headers.
    End,
    /// A `Content-Length` header, with its value when it is a number.
    ContentLength(Option<usize>),
    /// Any other header.
    Other,
}

pub open spec fn content_length_prefix() -> Seq<char> {
    seq!['C', 'o', 'n', 't', 'e', 'n', 't', '-', 'L', 'e', 'n', 'g', 't', 'h', ':', ' ']
}

/// What a header line (with its line break) says: the headers end at a bare
/// `\r\n`; `Content-Length: ` gives the body length, its trimmed value read
/// as a `usize`.
pub open spec fn header_line(line: Seq<char>) -> HeaderLine {
    if line == seq!['\r', '\n'] {
        HeaderLine::End
    } else if line.len() >= 16 && line.subrange(0, 16) == content_length_prefix() {
        match parse_unsigned(
            vstd::utf8::encode_utf8(trim(line.subrange(16, line.len() as int))),
            10,
            usize::MAX as nat,
        ) {
            Some(v) => HeaderLine::ContentLength(Some(v as usize)),
            None => HeaderLine::ContentLength(None),
        }
    } else {
        HeaderLine::Other
    }
}

pub fn classify_header(line: &str) -> (r: HeaderLine)
    ensures
        r == header_line(line@),
{
    let len = line.unicode_len();
    if len == 2 && line.get_char(0) == '\r' && line.get_char(1) == '\n' {
        assert(line@ =~= seq!['\r', '\n']);
        return HeaderLine::End;
    }
    assert(line@ != seq!['\r', '\n']);
    if len < 16 {
        return HeaderLine::Other;
    }
    let prefix: [char; 16] = ['C', 'o', 'n', 't', 'e', 'n', 't', '-', 'L', 'e', 'n', 'g', 't', 'h', ':', ' '];
    assert(prefix@ =~= content_length_prefix());
    let mut k: usize = 0;
    while k < 16
        invariant
            len == line@.len(),
            len >= 16,
            prefix@ == content_length_prefix(),
            k <= 16,
            forall|q: int| 0 <= q < k ==> line@[q] == prefix@[q],
        decreases 16 - k,
    {
        if line.get_char(k) != prefix[k] {
            assert(line@.subrange(0, 16)[k as int] != content_length_prefix()[k as int]);
            return HeaderLine::Other;
        }
        k = k + 1;
    }
    assert(line@.subrange(0, 16) =~= content_length_prefix());
    let value = trimmed(line.substring_char(16, len));
    let bytes = value.as_str().as_bytes();
    assert(bytes@.subrange(0, bytes@.len() as int) =~= bytes@);
    match parse_unsigned_at(bytes, 0, 10, usize::MAX as u64) {
        Some(v) => HeaderLine::ContentLength(Some(v as usize)),
        None => HeaderLine::ContentLength(None),
    }
}

/// The header written before a message body of `body_len` bytes.
pub fn frame_header(body_len: usize) -> (r: String)
    ensures
        r@ == "Content-Length: "@ + dec_text(body_len as nat) + "\r\n\r\n"@,
{
    let mut s = String::from_str("Content-Length: ");
    push_radix(&mut s, body_len as u128, 10);
    s.append("\r\n\r\n");
    s
}

// ------------------------------------------------------------ notifications

pub open spec fn notification_view(method: Seq<char>, params: JsonView) -> JsonView {
    JsonView::Object(
        seq![
            ("jsonrpc"@, JsonView::Text("2.0"@)),
            ("method"@, JsonView::Text(method)),
            ("params"@, params),
        ],
    )
}

fn notification(method: &str, params: JsonValue) -> (r: JsonValue)
    ensures
        json_view(r) == notification_view(method@, json_view(params)),
{
    let ghost pv = json_view(params);
    let mut members: Vec<(String, JsonValue)> = Vec::new();
    members.push(member_pair("jsonrpc", text_value("2.0")));
    members.push(member_pair("method", text_value(method)));
    members.push(member_pair("params", params));
    let r = object_value(members);
    assert(json_view(r)->Object_0 =~= notification_view(method@, pv)->Object_0);
    r
}

fn number_value(v: i128) -> (r: JsonValue)
    requires
        -0x1_0000_0000_0000_0000 <= v <= 0x1_0000_0000_0000_0000,
    ensures
        json_view(r) == JsonView::Number(signed_text(v as int)),
{
    let mut s = String::new();
    push_signed(&mut s, v);
    JsonValue::Number(s)
}

/// `textDocument/didOpen` for a virtual Lua document.
pub open spec fn did_open_view(virtual_uri: Seq<char>, version: i32, text: Seq<char>) -> JsonView {
    notification_view(
        "textDocument/didOpen"@,
        JsonView::Object(
            seq![
                (
                    "textDocument"@,
                    JsonView::Object(
                        seq![
                            ("uri"@, JsonView::Text(virtual_uri)),
                            ("languageId"@, JsonView::Text("lua"@)),
                            ("version"@, JsonView::Number(signed_text(version as int))),
                            ("text"@, JsonView::Text(text)),
                        ],
                    ),
                ),
            ],
        ),
    )
}

pub fn did_open_message(virtual_uri: &str, version: i32, text: &str) -> (r: JsonValue)
    ensures
        json_view(r) == did_open_view(virtual_uri@, version, text@),
{
    let mut document: Vec<(String, JsonValue)> = Vec::new();
    document.push(member_pair("uri", text_value(virtual_uri)));
    document.push(member_pair("languageId", text_value("lua")));
    document.push(member_pair("version", number_value(version as i128)));
    document.push(member_pair("text", text_value(text)));
    let document = object_value(document);
    let mut params: Vec<(String, JsonValue)> = Vec::new();
    params.push(member_pair("textDocument", document));
    let params = object_value(params);
    let r = notification("textDocument/didOpen", params);
    assert(json_view(r)->Object_0[2].1->Object_0[0].1->Object_0 =~= did_open_view(
        virtual_uri@,
        version,
        text@,
    )->Object_0[2].1->Object_0[0].1->Object_0);
    assert(json_view(r)->Object_0[2].1->Object_0 =~= did_open_view(virtual_uri@, version, text@)->Object_0[2].1->Object_0);
    assert(json_view(r)->Object_0 =~= did_open_view(virtual_uri@, version, text@)->Object_0);
    r
}

/// `textDocument/didChange` replacing the whole virtual Lua document.
pub open spec fn did_change_view(virtual_uri: Seq<char>, version: i32, text: Seq<char>) -> JsonView {
    notification_view(
        "textDocument/didChange"@,
        JsonView::Object(
            seq![
                (
                    "textDocument"@,
                    JsonView::Object(
                        seq![
                            ("uri"@, JsonView::Text(virtual_uri)),
                            ("version"@, JsonView::Number(signed_text(version as int))),
                        ],
                    ),
                ),
                (
                    "contentChanges"@,
                    JsonView::Array(seq![JsonView::Object(seq![("text"@, JsonView::Text(text))])]),
                ),
            ],
        ),
    )
}

pub fn did_change_message(virtual_uri: &str, version: i32, text: &str) -> (r: JsonValue)
    ensures
        json_view(r) == did_change_view(virtual_uri@, version, text@),
{
    let mut document: Vec<(String, JsonValue)> = Vec::new();
    document.push(member_pair("uri", text_value(virtual_uri)));
    document.push(member_pair("version", number_value(version as i128)));
    let document = object_value(document);
    let mut change: Vec<(String, JsonValue)> = Vec::new();
    change.push(member_pair("text", text_value(text)));
    let change = object_value(change);
    let mut changes: Vec<JsonValue> = Vec::new();
    changes.push(change);
    let changes = array_value(changes);
    let mut params: Vec<(String, JsonValue)> = Vec::new();
    params.push(member_pair("textDocument", document));
    params.push(member_pair("contentChanges", changes));
    let params = object_value(params);
    let r = notification("textDocument/didChange", params);
    let ghost e = did_change_view(virtual_uri@, version, text@);
    assert(json_view(r)->Object_0[2].1->Object_0[0].1->Object_0 =~= e->Object_0[2].1->Object_0[0].1->Object_0);
    assert(json_view(r)->Object_0[2].1->Object_0[1].1->Array_0[0]->Object_0 =~= e->Object_0[2].1->Object_0[1].1->Array_0[0]->Object_0);
    assert(json_view(r)->Object_0[2].1->Object_0[1].1->Array_0 =~= e->Object_0[2].1->Object_0[1].1->Array_0);
    assert(json_view(r)->Object_0[2].1->Object_0 =~= e->Object_0[2].1->Object_0);
    assert(json_view(r)->Object_0 =~= e->Object_0);
    r
}

/// `textDocument/didClose` for a virtual Lua document.
pub open spec fn did_close_view(virtual_uri: Seq<char>) -> JsonView {
    notification_view(
        "textDocument/didClose"@,
        JsonView::Object(
            seq![("textDocument"@, JsonView::Object(seq![("uri"@, JsonView::Text(virtual_uri))]))],
        ),
    )
}

pub fn did_close_message(virtual_uri: &str) -> (r: JsonValue)
    ensures
        json_view(r) == did_close_view(virtual_uri@),
{
    let mut document: Vec<(String, JsonValue)> = Vec::new();
    document.push(member_pair("uri", text_value(virtual_uri)));
    let document = object_value(document);
    let mut params: Vec<(String, JsonValue)> = Vec::new();
    params.push(member_pair("textDocument", document));
    let params = object_value(params);
    let r = notification("textDocument/didClose", params);
    let ghost e = did_close_view(virtual_uri@);
    assert(json_view(r)->Object_0[2].1->Object_0[0].1->Object_0 =~= e->Object_0[2].1->Object_0[0].1->Object_0);
    assert(json_view(r)->Object_0[2].1->Object_0 =~= e->Object_0[2].1->Object_0);
    assert(json_view(r)->Object_0 =~= e->Object_0);
    r
}

/// `$/cancelRequest` for request `request_id`.
pub open spec fn cancel_request_view(request_id: u64) -> JsonView {
    notification_view(
        "$/cancelRequest"@,
        JsonView::Object(seq![("id"@, JsonView::Number(dec_text(request_id as nat)))]),
    )
}

pub fn cancel_request_message(request_id: u64) -> (r: JsonValue)
    ensures
        json_view(r) == cancel_request_view(request_id),
{
    let mut digits = String::new();
    push_radix(&mut digits, request_id as u128, 10);
    let mut params: Vec<(String, JsonValue)> = Vec::new();
    params.push(member_pair("id", JsonValue::Number(digits)));
    let params = object_value(params);
    let r = notification("$/cancelRequest", params);
    let ghost e = cancel_request_view(request_id);
    assert(json_view(r)->Object_0[2].1->Object_0 =~= e->Object_0[2].1->Object_0);
    assert(json_view(r)->Object_0 =~= e->Object_0);
    r
}

// ------------------------------------------------------------ initialization

/// A workspace folder as the protocol writes it.
pub open spec fn folder_json(folder: (Seq<char>, Seq<char>)) -> JsonView {
    JsonView::Object(seq![("uri"@, JsonView::Text(folder.0)), ("name"@, JsonView::Text(folder.1))])
}

/// The client capabilities announced to the Lua server: related information
/// on published diagnostics, configuration requests and workspace folders.
pub open spec fn capabilities_view() -> JsonView {
    JsonView::Object(
        seq![
            (
                "textDocument"@,
                JsonView::Object(
                    seq![
                        (
                            "publishDiagnostics"@,
                            JsonView::Object(seq![("relatedInformation"@, JsonView::Bool(true))]),
                        ),
                    ],
                ),
            ),
            (
                "workspace"@,
                JsonView::Object(
                    seq![("configuration"@, JsonView::Bool(true)), ("workspaceFolders"@, JsonView::Bool(true))],
                ),
            ),
        ],
    )
}

/// The `initialize` request (id 1) sent to a new Lua server: no process id,
/// the first folder's URI as root (null without folders), every folder, and
/// the client capabilities.
pub open spec fn initialize_view(folders: Seq<(Seq<char>, Seq<char>)>) -> JsonView {
    JsonView::Object(
        seq![
            ("jsonrpc"@, JsonView::Text("2.0"@)),
            ("id"@, JsonView::Number("1"@)),
            ("method"@, JsonView::Text("initialize"@)),
            (
                "params"@,
                JsonView::Object(
                    seq![
                        ("processId"@, JsonView::Null),
                        (
                            "rootUri"@,
                            if folders.len() > 0 {
                                JsonView::Text(folders[0].0)
                            } else {
                                JsonView::Null
                            },
                        ),
                        (
                            "workspaceFolders"@,
                            JsonView::Array(folders.map_values(|f: (Seq<char>, Seq<char>)| folder_json(f))),
                        ),
                        ("capabilities"@, capabilities_view()),
                    ],
                ),
            ),
        ],
    )
}

fn bool_member(key: &str, b: bool) -> (r: (String, JsonValue))
    ensures
        r.0@ == key@,
        json_view(r.1) == JsonView::Bool(b),
{
    (key.to_owned(), JsonValue::Bool(b))
}

fn capabilities_value() -> (r: JsonValue)
    ensures
        json_view(r) == capabilities_view(),
{
    let mut publish: Vec<(String, JsonValue)> = Vec::new();
    publish.push(bool_member("relatedInformation", true));
    let publish = object_value(publish);
    let mut text_document: Vec<(String, JsonValue)> = Vec::new();
    text_document.push(member_pair("publishDiagnostics", publish));
    let text_document = object_value(text_document);
    let mut workspace: Vec<(String, JsonValue)> = Vec::new();
    workspace.push(bool_member("configuration", true));
    workspace.push(bool_member("workspaceFolders", true));
    let workspace = object_value(workspace);
    let mut members: Vec<(String, JsonValue)> = Vec::new();
    members.push(member_pair("textDocument", text_document));
    members.push(member_pair("workspace", workspace));
    let r = object_value(members);
    let ghost e = capabilities_view();
    assert(json_view(r)->Object_0[0].1->Object_0[0].1->Object_0 =~= e->Object_0[0].1->Object_0[0].1->Object_0);
    assert(json_view(r)->Object_0[0].1->Object_0 =~= e->Object_0[0].1->Object_0);
    assert(json_view(r)->Object_0[1].1->Object_0 =~= e->Object_0[1].1->Object_0);
    assert(json_view(r)->Object_0 =~= e->Object_0);
    r
}

pub fn initialize_message(folders: &Vec<(String, String)>) -> (r: JsonValue)
    ensures
        json_view(r) == initialize_view(folder_views(folders@)),
{
    let ghost fv = folder_views(folders@);
    let mut items: Vec<JsonValue> = Vec::new();
    let mut j: usize = 0;
    while j < folders.len()
        invariant
            fv == folder_views(folders@),
            j <= folders@.len(),
            items@.map_values(|v: JsonValue| json_view(v)) =~= fv.subrange(0, j as int).map_values(
                |f: (Seq<char>, Seq<char>)| folder_json(f),
            ),
        decreases folders@.len() - j,
    {
        let mut folder: Vec<(String, JsonValue)> = Vec::new();
        folder.push(member_pair("uri", text_value(folders[j].0.as_str())));
        folder.push(member_pair("name", text_value(folders[j].1.as_str())));
        let item = object_value(folder);
        assert(json_view(item)->Object_0 =~= folder_json(fv[j as int])->Object_0);
        let ghost before = items@;
        items.push(item);
        assert(fv.subrange(0, j + 1) =~= fv.subrange(0, j as int).push(fv[j as int]));
        assert(items@ =~= before.push(item));
        assert(items@.map_values(|v: JsonValue| json_view(v)) =~= before.map_values(|v: JsonValue| json_view(v)).push(json_view(item)));
        j = j + 1;
    }
    assert(fv.subrange(0, j as int) =~= fv);
    let root = if folders.len() > 0 {
        text_value(folders[0].0.as_str())
    } else {
        JsonValue::Null
    };
    let mut params: Vec<(String, JsonValue)> = Vec::new();
    params.push(member_pair("processId", JsonValue::Null));
    params.push(member_pair("rootUri", root));
    params.push(member_pair("workspaceFolders", array_value(items)));
    params.push(member_pair("capabilities", capabilities_value()));
    let params = object_value(params);
    let mut members: Vec<(String, JsonValue)> = Vec::new();
    members.push(member_pair("jsonrpc", text_value("2.0")));
    members.push(member_pair("id", JsonValue::Number(String::from_str("1"))));
    members.push(member_pair("method", text_value("initialize")));
    members.push(member_pair("params", params));
    let r = object_value(members);
    let ghost e = initialize_view(fv);
    assert(json_view(r)->Object_0[3].1->Object_0[2].1->Array_0 =~= e->Object_0[3].1->Object_0[2].1->Array_0);
    assert(json_view(r)->Object_0[3].1->Object_0 =~= e->Object_0[3].1->Object_0);
    assert(json_view(r)->Object_0 =~= e->Object_0);
    r
}

} // verus!
