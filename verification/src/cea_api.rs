//! The bundled Cheat Engine Lua API declarations: which versions exist, how a
//! snapshot is checked and content-addressed, and the names of its cache
//! directories.
use vstd::prelude::*;
use vstd::string::StringSliceAdditionalSpecFns;
use crate::text::{push_char, utf8_str, utf8_error_text, text_eq};
use crate::integer::{dec_text, push_radix};
use crate::json::{JsonValue, JsonView, json_view, member, get_member};

verus! {

/// Whether the bundled API declarations are used, and which version.
#[derive(Debug, Clone)]
pub struct CheatEngineApiConfig {
    pub enabled: bool,
    pub version: String,
}

impl Default for CheatEngineApiConfig {
    fn default() -> (r: Self)
        ensures
            r.enabled,
            r.version@ == "7.7"@,
    {
        CheatEngineApiConfig { enabled: true, version: String::from_str("7.7") }
    }
}

impl CheatEngineApiConfig {
    pub fn duplicate(&self) -> (r: CheatEngineApiConfig)
        ensures
            r.enabled == self.enabled,
            r.version@ == self.version@,
    {
        CheatEngineApiConfig { enabled: self.enabled, version: self.version.clone() }
    }
}

/// The versions whose declarations are bundled.
pub fn supported_versions() -> (r: Vec<&'static str>)
    ensures
        r@.len() == 1,
        r@[0]@ == "7.7"@,
{
    let mut v: Vec<&'static str> = Vec::new();
    v.push("7.7");
    v
}

/// The text `{:?}` prints for `s`.
pub uninterp spec fn debug_text(s: Seq<char>) -> Seq<char>;

/// Formats the text with `{:?}`, that is `<str as Debug>::fmt` of std: quoted,
/// with escapes. The result is named [`debug_text`]; the escaping rules are
/// not restated here.
#[verifier::external_body]
fn quoted(s: &str) -> (r: String)
    ensures
        r@ == debug_text(s@),
{
    format!("{s:?}")
}

/// Why a version that is not bundled is refused.
pub open spec fn unsupported_version_message(version: Seq<char>) -> Seq<char> {
    "unsupported Cheat Engine API version "@ + debug_text(version) + "; supported versions: 7.7"@
}

pub fn unsupported_version(version: &str) -> (r: String)
    ensures
        r@ == unsupported_version_message(version@),
{
    let mut m = String::from_str("unsupported Cheat Engine API version ");
    let q = quoted(version);
    m.append(q.as_str());
    m.append("; supported versions: 7.7");
    m
}

/// A version of the declarations: its version text and its files, the
/// manifest first.
#[derive(Debug)]
pub struct Snapshot {
    pub version: String,
    pub files: Vec<(String, Vec<u8>)>,
}

pub open spec fn file_views(files: Seq<(String, Vec<u8>)>) -> Seq<(Seq<char>, Seq<u8>)> {
    files.map_values(|f: (String, Vec<u8>)| (f.0@, f.1@))
}

/// The bundled snapshot of `version`, or why there is none.
pub fn snapshot<'a>(version: &str, bundled: &'a Snapshot) -> (r: Result<&'a Snapshot, String>)
    ensures
        version@ == "7.7"@ ==> r == Ok::<&Snapshot, String>(bundled),
        version@ != "7.7"@ ==> (r matches Err(e) && e@ == unsupported_version_message(version@)),
{
    if text_eq(version, "7.7") {
        Ok(bundled)
    } else {
        Err(unsupported_version(version))
    }
}

// ------------------------------------------------------------ validation

/// The JSON value that `serde_json::from_slice` reads from the bytes, or the
/// message of the error it reports.
pub uninterp spec fn parsed_json(bytes: Seq<u8>) -> Result<JsonView, Seq<char>>;

/// Declares `serde_json::Value`, which [`parse_json`] converts.
#[verifier::external_type_specification]
#[verifier::external_body]
pub struct ExJsonValue(serde_json::Value);

/// Calls `serde_json::from_slice` to read the bytes as a `serde_json::Value`
/// and hands it over as a [`JsonValue`] (see [`json_of_value`]); on failure
/// hands back the error's message. The result is named [`parsed_json`].
#[verifier::external_body]
fn parse_json(bytes: &[u8]) -> (r: Result<JsonValue, String>)
    ensures
        parsed_json(bytes@) == match r {
            Ok(v) => Ok(json_view(v)),
            Err(e) => Err(e@),
        },
{
    match serde_json::from_slice::<serde_json::Value>(bytes) {
        Ok(value) => Ok(json_of_value(value)),
        Err(error) => Err(error.to_string()),
    }
}

/// Converts a `serde_json::Value` into a [`JsonValue`], variant for variant:
/// a number becomes the text `serde_json` prints for it, an object its
/// members in the map's order.
#[verifier::external_body]
fn json_of_value(value: serde_json::Value) -> JsonValue {
    match value {
        serde_json::Value::Null => JsonValue::Null,
        serde_json::Value::Bool(b) => JsonValue::Bool(b),
        serde_json::Value::Number(n) => JsonValue::Number(n.to_string()),
        serde_json::Value::String(s) => JsonValue::Text(s),
        serde_json::Value::Array(items) => JsonValue::Array(items.into_iter().map(json_of_value).collect()),
        serde_json::Value::Object(members) => JsonValue::Object(
            members.into_iter().map(|(k, v)| (k, json_of_value(v))).collect(),
        ),
    }
}

pub open spec fn meta_header() -> Seq<u8> {
    seq![45u8, 45u8, 45u8, 64u8, 109u8, 101u8, 116u8, 97u8, 10u8]
}

pub open spec fn require_call() -> Seq<u8> {
    seq![114u8, 101u8, 113u8, 117u8, 105u8, 114u8, 101u8, 40u8]
}

pub open spec fn setmetatable_call() -> Seq<u8> {
    seq![115u8, 101u8, 116u8, 109u8, 101u8, 116u8, 97u8, 116u8, 97u8, 98u8, 108u8, 101u8, 40u8]
}

/// `needle` occurs in `hay` at `i`.
pub open spec fn occurs_at(hay: Seq<u8>, needle: Seq<u8>, i: int) -> bool {
    0 <= i && i + needle.len() <= hay.len() && hay.subrange(i, i + needle.len()) == needle
}

pub open spec fn occurs_in(hay: Seq<u8>, needle: Seq<u8>) -> bool {
    exists|i: int| occurs_at(hay, needle, i)
}

/// Why a declaration file is refused: it is not UTF-8, does not start with
/// `---@meta` on its own line, or calls `require(` or `setmetatable(`.
pub open spec fn declaration_error(name: Seq<char>, content: Seq<u8>) -> Option<Seq<char>> {
    if !vstd::utf8::valid_utf8(content) {
        Some(name + " is not valid UTF-8: "@ + utf8_error_text(content))
    } else if !occurs_at(content, meta_header(), 0) {
        Some(name + " must begin with @meta"@)
    } else if occurs_in(content, require_call()) || occurs_in(content, setmetatable_call()) {
        Some(name + " contains runtime behavior"@)
    } else {
        None
    }
}

/// The first refused declaration file from the `k`-th on.
pub open spec fn first_declaration_error(files: Seq<(Seq<char>, Seq<u8>)>, k: int) -> Option<Seq<char>>
    decreases files.len() - k,
{
    if k < 0 || k >= files.len() {
        None
    } else {
        match declaration_error(files[k].0, files[k].1) {
            Some(e) => Some(e),
            None => first_declaration_error(files, k + 1),
        }
    }
}

/// The verdict on a snapshot: its manifest must parse and name the
/// snapshot's version, and every other file must be a plain declaration file.
pub open spec fn snapshot_error(version: Seq<char>, files: Seq<(Seq<char>, Seq<u8>)>) -> Option<Seq<char>> {
    verdict_error(parsed_json(files[0].1), version, files)
}

/// The verdict on a snapshot whose manifest was read as `manifest` (its JSON
/// value, or the parser's error message).
pub open spec fn verdict_error(
    manifest: Result<JsonView, Seq<char>>,
    version: Seq<char>,
    files: Seq<(Seq<char>, Seq<u8>)>,
) -> Option<Seq<char>> {
    match manifest {
        Err(e) => Some("invalid embedded CE API manifest: "@ + e),
        Ok(m) => if member(m, "version"@) != Some(JsonView::Text(version)) {
            Some("embedded CE API manifest version does not match its snapshot"@)
        } else {
            first_declaration_error(files, 1)
        },
    }
}

pub open spec fn manifest_view(manifest: Result<JsonValue, String>) -> Result<JsonView, Seq<char>> {
    match manifest {
        Ok(v) => Ok(json_view(v)),
        Err(e) => Err(e@),
    }
}

fn occurs_at_bytes(hay: &[u8], needle: &[u8], i: usize) -> (r: bool)
    ensures
        r == occurs_at(hay@, needle@, i as int),
{
    let hl = hay.len();
    if i > hl || needle.len() > hl - i {
        return false;
    }
    let mut k: usize = 0;
    while k < needle.len()
        invariant
            hl == hay@.len(),
            i + needle@.len() <= hay@.len(),
            k <= needle@.len(),
            forall|q: int| 0 <= q < k ==> hay@[i + q] == needle@[q],
        decreases needle@.len() - k,
    {
        if hay[i + k] != needle[k] {
            assert(hay@.subrange(i as int, i + needle@.len())[k as int] != needle@[k as int]);
            return false;
        }
        k = k + 1;
    }
    assert(hay@.subrange(i as int, i + needle@.len()) =~= needle@);
    true
}

fn occurs_in_bytes(hay: &[u8], needle: &[u8]) -> (r: bool)
    ensures
        r == occurs_in(hay@, needle@),
{
    let mut i: usize = 0;
    while i < hay.len()
        invariant
            i <= hay@.len(),
            forall|q: int| 0 <= q < i ==> !occurs_at(hay@, needle@, q),
        decreases hay@.len() - i,
    {
        if occurs_at_bytes(hay, needle, i) {
            return true;
        }
        i = i + 1;
    }
    if occurs_at_bytes(hay, needle, hay.len()) {
        return true;
    }
    assert forall|q: int| !occurs_at(hay@, needle@, q) by {
        if 0 <= q < i {
        } else if q > hay@.len() {
        }
    }
    false
}

fn check_declaration(name: &String, content: &Vec<u8>) -> (r: Option<String>)
    ensures
        r matches Some(e) ==> declaration_error(name@, content@) == Some(e@),
        r is None ==> declaration_error(name@, content@) is None,
{
    let bytes = content.as_slice();
    match utf8_str(bytes) {
        Err(e) => {
            let mut m = name.clone();
            m.append(" is not valid UTF-8: ");
            m.append(e.as_str());
            return Some(m);
        },
        Ok(_) => {},
    }
    let header: [u8; 9] = [45, 45, 45, 64, 109, 101, 116, 97, 10];
    assert(header@ =~= meta_header());
    if !occurs_at_bytes(bytes, &header, 0) {
        let mut m = name.clone();
        m.append(" must begin with @meta");
        return Some(m);
    }
    let require: [u8; 8] = [114, 101, 113, 117, 105, 114, 101, 40];
    let setmetatable: [u8; 13] = [115, 101, 116, 109, 101, 116, 97, 116, 97, 98, 108, 101, 40];
    assert(require@ =~= require_call());
    assert(setmetatable@ =~= setmetatable_call());
    if occurs_in_bytes(bytes, &require) || occurs_in_bytes(bytes, &setmetatable) {
        let mut m = name.clone();
        m.append(" contains runtime behavior");
        return Some(m);
    }
    None
}

/// Checks a snapshot (see [`snapshot_error`]).
pub fn validate_snapshot(snapshot: &Snapshot) -> (r: Result<(), String>)
    requires
        snapshot.files@.len() >= 1,
    ensures
        r matches Err(e) ==> snapshot_error(snapshot.version@, file_views(snapshot.files@)) == Some(e@),
        r is Ok ==> snapshot_error(snapshot.version@, file_views(snapshot.files@)) is None,
{
    let manifest = parse_json(snapshot.files[0].1.as_slice());
    snapshot_verdict(manifest, snapshot)
}

/// Checks a snapshot whose manifest was read as `manifest` (see
/// [`verdict_error`]).
pub fn snapshot_verdict(manifest: Result<JsonValue, String>, snapshot: &Snapshot) -> (r: Result<(), String>)
    ensures
        r matches Err(e) ==> verdict_error(manifest_view(manifest), snapshot.version@, file_views(snapshot.files@))
            == Some(e@),
        r is Ok ==> verdict_error(manifest_view(manifest), snapshot.version@, file_views(snapshot.files@)) is None,
{
    let ghost files = file_views(snapshot.files@);
    let ghost mv = manifest_view(manifest);
    match manifest {
        Err(e) => {
            let mut m = String::from_str("invalid embedded CE API manifest: ");
            m.append(e.as_str());
            return Err(m);
        },
        Ok(manifest) => {
            let matches = match get_member(&manifest, "version") {
                Some(JsonValue::Text(s)) => text_eq(s.as_str(), snapshot.version.as_str()),
                _ => false,
            };
            if !matches {
                return Err(String::from_str("embedded CE API manifest version does not match its snapshot"));
            }
        },
    }
    assert(verdict_error(mv, snapshot.version@, files) == first_declaration_error(files, 1));
    let mut k: usize = 1;
    while k < snapshot.files.len()
        invariant
            files == file_views(snapshot.files@),
            mv == manifest_view(manifest),
            verdict_error(mv, snapshot.version@, files) == first_declaration_error(files, 1),
            1 <= k,
            k <= snapshot.files@.len() || snapshot.files@.len() == 0,
            first_declaration_error(files, k as int) == first_declaration_error(files, 1),
        decreases snapshot.files@.len() - k,
    {
        let (name, content) = &snapshot.files[k];
        assert(files[k as int] == (name@, content@));
        match check_declaration(name, content) {
            Some(e) => return Err(e),
            None => {},
        }
        k = k + 1;
    }
    proof {
        if snapshot.files@.len() == 0 {
            assert(first_declaration_error(files, 1) is None);
        }
    }
    Ok(())
}

// ------------------------------------------------------------ content address

pub open spec fn fnv_offset() -> u64 {
    0xcbf29ce484222325u64
}

pub open spec fn fnv_prime() -> u64 {
    0x100000001b3u64
}

/// One step of 64-bit FNV-1a: xor the byte in, then multiply, wrapping.
pub open spec fn fnv_step(h: u64, b: u8) -> u64 {
    (((h ^ (b as u64)) as nat * fnv_prime() as nat) % 0x1_0000_0000_0000_0000nat) as u64
}

pub open spec fn fnv_bytes(h: u64, bytes: Seq<u8>) -> u64
    decreases bytes.len(),
{
    if bytes.len() == 0 {
        h
    } else {
        fnv_step(fnv_bytes(h, bytes.drop_last()), bytes.last())
    }
}

/// The hashed bytes of a snapshot: each file's name (UTF-8) then its content.
pub open spec fn snapshot_bytes(files: Seq<(Seq<char>, Seq<u8>)>) -> Seq<u8>
    decreases files.len(),
{
    if files.len() == 0 {
        Seq::empty()
    } else {
        snapshot_bytes(files.drop_last()) + vstd::utf8::encode_utf8(files.last().0) + files.last().1
    }
}

pub open spec fn snapshot_hash_of(files: Seq<(Seq<char>, Seq<u8>)>) -> u64 {
    fnv_bytes(fnv_offset(), snapshot_bytes(files))
}

fn hash_bytes(h: u64, bytes: &[u8], Ghost(seen): Ghost<Seq<u8>>) -> (r: u64)
    requires
        h == fnv_bytes(fnv_offset(), seen),
    ensures
        r == fnv_bytes(fnv_offset(), seen + bytes@),
{
    let mut h = h;
    let mut k: usize = 0;
    assert(seen + bytes@.subrange(0, 0) =~= seen);
    while k < bytes.len()
        invariant
            k <= bytes@.len(),
            h == fnv_bytes(fnv_offset(), seen + bytes@.subrange(0, k as int)),
        decreases bytes@.len() - k,
    {
        assert((seen + bytes@.subrange(0, k + 1)).drop_last() =~= seen + bytes@.subrange(0, k as int));
        h = (h ^ (bytes[k] as u64)).wrapping_mul(0x100000001b3u64);
        k = k + 1;
    }
    assert(bytes@.subrange(0, k as int) =~= bytes@);
    h
}

/// The 64-bit FNV-1a hash of the snapshot's names and contents (see
/// [`snapshot_hash_of`]).
pub fn snapshot_hash(snapshot: &Snapshot) -> (r: u64)
    ensures
        r == snapshot_hash_of(file_views(snapshot.files@)),
{
    let ghost files = file_views(snapshot.files@);
    let mut h: u64 = 0xcbf29ce484222325u64;
    let mut j: usize = 0;
    assert(files.subrange(0, 0) =~= Seq::<(Seq<char>, Seq<u8>)>::empty());
    while j < snapshot.files.len()
        invariant
            files == file_views(snapshot.files@),
            j <= snapshot.files@.len(),
            h == fnv_bytes(fnv_offset(), snapshot_bytes(files.subrange(0, j as int))),
        decreases snapshot.files@.len() - j,
    {
        let (name, content) = &snapshot.files[j];
        let ghost before = snapshot_bytes(files.subrange(0, j as int));
        let name_bytes = name.as_str().as_bytes();
        h = hash_bytes(h, name_bytes, Ghost(before));
        h = hash_bytes(h, content.as_slice(), Ghost(before + name_bytes@));
        assert(files.subrange(0, j + 1).drop_last() =~= files.subrange(0, j as int));
        assert(files.subrange(0, j + 1).last() == (name@, content@));
        assert(snapshot_bytes(files.subrange(0, j + 1)) =~= before + name_bytes@ + content@);
        j = j + 1;
    }
    assert(files.subrange(0, j as int) =~= files);
    h
}

// ------------------------------------------------------------ cache names

pub open spec fn lower_hex_digit(d: nat) -> char {
    seq!['0', '1', '2', '3', '4', '5', '6', '7', '8', '9', 'a', 'b', 'c', 'd', 'e', 'f'][d as int]
}

/// The `count` last hexadecimal digits of `v`, lower case, zero-padded.
pub open spec fn hex_digits(v: nat, count: nat) -> Seq<char>
    decreases count,
{
    if count == 0 {
        Seq::empty()
    } else {
        hex_digits(v / 16, (count - 1) as nat).push(lower_hex_digit(v % 16))
    }
}

/// `{:016x}` of `v`.
pub open spec fn hex16(v: u64) -> Seq<char> {
    hex_digits(v as nat, 16)
}

fn push_hex_digits(out: &mut String, v: u64, count: usize)
    ensures
        final(out)@ == old(out)@ + hex_digits(v as nat, count as nat),
    decreases count,
{
    if count == 0 {
        assert(old(out)@ + hex_digits(v as nat, 0) =~= old(out)@);
        return;
    }
    push_hex_digits(out, v / 16, count - 1);
    let digits: [char; 16] = ['0', '1', '2', '3', '4', '5', '6', '7', '8', '9', 'a', 'b', 'c', 'd', 'e', 'f'];
    let d = (v % 16) as usize;
    assert(digits@ =~= seq!['0', '1', '2', '3', '4', '5', '6', '7', '8', '9', 'a', 'b', 'c', 'd', 'e', 'f']);
    push_char(out, digits[d]);
}

/// The directory of an installed snapshot: `{version}-{hash:016x}`.
pub open spec fn cache_directory(version: Seq<char>, hash: u64) -> Seq<char> {
    version + "-"@ + hex16(hash)
}

pub fn cache_directory_name(version: &str, hash: u64) -> (r: String)
    ensures
        r@ == cache_directory(version@, hash),
{
    let mut s = String::from_str(version);
    s.append("-");
    push_hex_digits(&mut s, hash, 16);
    s
}

/// The directory a snapshot is written to before it is installed:
/// `.{version}-{hash:016x}-{nonce}.tmp`, and `-{attempt}` before `.tmp`
/// after `attempt` collisions.
pub open spec fn temporary_directory(version: Seq<char>, hash: u64, nonce: u128, attempt: u32) -> Seq<
    char,
> {
    "."@ + version + "-"@ + hex16(hash) + "-"@ + dec_text(nonce as nat) + (if attempt == 0 {
        Seq::empty()
    } else {
        "-"@ + dec_text(attempt as nat)
    }) + ".tmp"@
}

pub fn temporary_directory_name(version: &str, hash: u64, nonce: u128, attempt: u32) -> (r: String)
    ensures
        r@ == temporary_directory(version@, hash, nonce, attempt),
{
    let mut s = String::from_str(".");
    s.append(version);
    s.append("-");
    push_hex_digits(&mut s, hash, 16);
    s.append("-");
    push_radix(&mut s, nonce, 10);
    if attempt != 0 {
        s.append("-");
        push_radix(&mut s, attempt as u128, 10);
    }
    s.append(".tmp");
    s
}

/// The content of the marker that completes an extracted snapshot: the hash
/// as 16 lower-case hexadecimal digits and a line break.
pub fn completion_marker(hash: u64) -> (r: String)
    ensures
        r@ == hex16(hash).push('\n'),
{
    let mut s = String::new();
    push_hex_digits(&mut s, hash, 16);
    push_char(&mut s, '\n');
    s
}

/// An installed snapshot matches when every file of the snapshot was read
/// back (`found`, in the snapshot's file order) with exactly its bytes.
pub open spec fn contents_match(files: Seq<(Seq<char>, Seq<u8>)>, found: Seq<Option<Seq<u8>>>) -> bool {
    &&& found.len() == files.len()
    &&& forall|i: int| 0 <= i < files.len() ==> #[trigger] found[i] == Some(files[i].1)
}

pub open spec fn found_views(found: Seq<Option<Vec<u8>>>) -> Seq<Option<Seq<u8>>> {
    found.map_values(|f: Option<Vec<u8>>| match f {
        Some(b) => Some(b@),
        None => None,
    })
}

fn bytes_equal(a: &[u8], b: &[u8]) -> (r: bool)
    ensures
        r <==> a@ == b@,
{
    if a.len() != b.len() {
        return false;
    }
    let mut i: usize = 0;
    while i < a.len()
        invariant
            a@.len() == b@.len(),
            i <= a@.len(),
            forall|k: int| 0 <= k < i ==> a@[k] == b@[k],
        decreases a@.len() - i,
    {
        if a[i] != b[i] {
            return false;
        }
        i = i + 1;
    }
    assert(a@ =~= b@);
    true
}

/// Whether what was read back from a cache directory is the snapshot (see
/// [`contents_match`]); a file that could not be read is `None`.
pub fn cache_contents_match(snapshot: &Snapshot, found: &Vec<Option<Vec<u8>>>) -> (r: bool)
    ensures
        r == contents_match(file_views(snapshot.files@), found_views(found@)),
{
    let ghost files = file_views(snapshot.files@);
    let ghost fv = found_views(found@);
    if found.len() != snapshot.files.len() {
        return false;
    }
    let mut i: usize = 0;
    while i < found.len()
        invariant
            files == file_views(snapshot.files@),
            fv == found_views(found@),
            found@.len() == snapshot.files@.len(),
            i <= found@.len(),
            forall|k: int| 0 <= k < i ==> #[trigger] fv[k] == Some(files[k].1),
        decreases found@.len() - i,
    {
        match &found[i] {
            Some(content) => {
                if !bytes_equal(content.as_slice(), snapshot.files[i].1.as_slice()) {
                    assert(fv[i as int] != Some(files[i as int].1));
                    return false;
                }
                assert(fv[i as int] == Some(files[i as int].1));
            },
            None => {
                assert(fv[i as int] is None);
                return false;
            },
        }
        i = i + 1;
    }
    true
}

} // verus!
