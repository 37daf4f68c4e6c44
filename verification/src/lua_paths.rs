//! The Lua search path (`LUA_PATH`) turned into runtime path patterns and
//! the library directories they point into.
use vstd::prelude::*;
use vstd::string::StrSliceExecFns;
use crate::text::{push_char, is_whitespace_char, whitespace_char};

verus! {

/// The fields of `s` between occurrences of `sep`, as `str::split` yields them.
pub open spec fn split_on(s: Seq<char>, sep: char) -> Seq<Seq<char>>
    decreases s.len(),
{
    if s.len() == 0 {
        seq![Seq::empty()]
    } else {
        let rest = split_on(s.drop_last(), sep);
        if s.last() == sep {
            rest.push(Seq::empty())
        } else {
            rest.update(rest.len() - 1, rest.last().push(s.last()))
        }
    }
}

pub proof fn lemma_split_on_nonempty(s: Seq<char>, sep: char)
    ensures
        split_on(s, sep).len() >= 1,
    decreases s.len(),
{
    if s.len() > 0 {
        lemma_split_on_nonempty(s.drop_last(), sep);
    }
}

/// Index of the first character at or after `k` that is not whitespace.
pub open spec fn trim_start_index(t: Seq<char>, k: int) -> int
    decreases t.len() - k,
{
    if k < 0 || k >= t.len() {
        t.len() as int
    } else if is_whitespace_char(t[k]) {
        trim_start_index(t, k + 1)
    } else {
        k
    }
}

/// One past the last character before `k` that is not whitespace, or `lo`.
pub open spec fn trim_end_index(t: Seq<char>, lo: int, k: int) -> int
    decreases k - lo,
{
    if k <= lo {
        lo
    } else if is_whitespace_char(t[k - 1]) {
        trim_end_index(t, lo, k - 1)
    } else {
        k
    }
}

/// `t` without leading and trailing whitespace, as `str::trim`.
pub open spec fn trim(t: Seq<char>) -> Seq<char> {
    let lo = trim_start_index(t, 0);
    t.subrange(lo, trim_end_index(t, lo, t.len() as int))
}

/// The trimmed fields that are not empty.
pub open spec fn nonempty_trimmed(fields: Seq<Seq<char>>) -> Seq<Seq<char>>
    decreases fields.len(),
{
    if fields.len() == 0 {
        Seq::empty()
    } else {
        let t = trim(fields.last());
        nonempty_trimmed(fields.drop_last()) + if t.len() > 0 {
            seq![t]
        } else {
            Seq::empty()
        }
    }
}

/// The runtime path patterns of a `;`-separated Lua path: its non-blank
/// entries, trimmed.
pub open spec fn runtime_paths(lua_path: Seq<char>) -> Seq<Seq<char>> {
    nonempty_trimmed(split_on(lua_path, ';'))
}

/// Index of the first `c` in `t` from `k` on, or the length.
pub open spec fn index_of(t: Seq<char>, c: char, k: int) -> int
    decreases t.len() - k,
{
    if k < 0 || k >= t.len() {
        t.len() as int
    } else if t[k] == c {
        k
    } else {
        index_of(t, c, k + 1)
    }
}

pub open spec fn is_separator(c: char) -> bool {
    c == '/' || c == '\\'
}

/// One past the last character before `k` that is not a path separator.
pub open spec fn strip_separators_end(t: Seq<char>, k: int) -> int
    decreases k,
{
    if k <= 0 {
        0
    } else if is_separator(t[k - 1]) {
        strip_separators_end(t, k - 1)
    } else {
        k
    }
}

/// The directory a pattern searches: the text before its first `?` without
/// trailing separators, when there is a `?` and the directory is not empty.
pub open spec fn library_of(pattern: Seq<char>) -> Option<Seq<char>> {
    let q = index_of(pattern, '?', 0);
    if q < pattern.len() {
        let dir = pattern.subrange(0, strip_separators_end(pattern, q));
        if dir.len() > 0 {
            Some(dir)
        } else {
            None
        }
    } else {
        None
    }
}

/// The library directories of the patterns, each once, in order of first use.
pub open spec fn unique_libraries(patterns: Seq<Seq<char>>) -> Seq<Seq<char>>
    decreases patterns.len(),
{
    if patterns.len() == 0 {
        Seq::empty()
    } else {
        let prev = unique_libraries(patterns.drop_last());
        match library_of(patterns.last()) {
            Some(l) => if prev.contains(l) {
                prev
            } else {
                prev.push(l)
            },
            None => prev,
        }
    }
}

/// No library directory is listed twice, and the directory of every
/// runtime pattern that has one is listed.
pub proof fn law_libraries_unique_and_complete(patterns: Seq<Seq<char>>)
    ensures
        unique_libraries(patterns).no_duplicates(),
        forall|j: int|
            0 <= j < patterns.len() && (#[trigger] library_of(patterns[j])) is Some
                ==> unique_libraries(patterns).contains(library_of(patterns[j])->Some_0),
    decreases patterns.len(),
{
    if patterns.len() > 0 {
        let prev = unique_libraries(patterns.drop_last());
        law_libraries_unique_and_complete(patterns.drop_last());
        assert forall|j: int|
            0 <= j < patterns.len() && (#[trigger] library_of(patterns[j])) is Some implies unique_libraries(
                patterns,
            ).contains(library_of(patterns[j])->Some_0) by {
            if j < patterns.len() - 1 {
                assert(patterns.drop_last()[j] == patterns[j]);
                let l = library_of(patterns[j])->Some_0;
                let k = choose|k: int| 0 <= k < prev.len() && prev[k] == l;
                match library_of(patterns.last()) {
                    Some(x) => if !prev.contains(x) {
                        assert(prev.push(x)[k] == l);
                    },
                    None => {},
                }
            } else {
                let l = library_of(patterns.last())->Some_0;
                if !prev.contains(l) {
                    assert(prev.push(l)[prev.len() as int] == l);
                }
            }
        }
    }
}

pub open spec fn texts(v: Seq<String>) -> Seq<Seq<char>> {
    v.map_values(|s: String| s@)
}

/// `t` trimmed (see [`trim`]).
pub fn trimmed(t: &str) -> (r: String)
    ensures
        r@ == trim(t@),
{
    let len = t.unicode_len();
    let mut lo: usize = 0;
    while lo < len
        invariant
            len == t@.len(),
            lo <= len,
            trim_start_index(t@, lo as int) == trim_start_index(t@, 0),
        ensures
            lo <= len,
            trim_start_index(t@, 0) == lo,
        decreases len - lo,
    {
        if !whitespace_char(t.get_char(lo)) {
            break;
        }
        lo = lo + 1;
    }
    let mut hi: usize = len;
    while hi > lo
        invariant
            len == t@.len(),
            lo <= hi <= len,
            trim_end_index(t@, lo as int, hi as int) == trim_end_index(t@, lo as int, len as int),
        ensures
            lo <= hi <= len,
            trim_end_index(t@, lo as int, len as int) == hi,
        decreases hi - lo,
    {
        if !whitespace_char(t.get_char(hi - 1)) {
            break;
        }
        hi = hi - 1;
    }
    t.substring_char(lo, hi).to_owned()
}

fn library_dir(pattern: &str) -> (r: Option<String>)
    ensures
        r matches Some(d) ==> library_of(pattern@) == Some(d@),
        r is None ==> library_of(pattern@) is None,
{
    let len = pattern.unicode_len();
    let mut q: usize = 0;
    while q < len
        invariant
            len == pattern@.len(),
            q <= len,
            index_of(pattern@, '?', q as int) == index_of(pattern@, '?', 0),
        ensures
            q <= len,
            index_of(pattern@, '?', 0) == q,
        decreases len - q,
    {
        if pattern.get_char(q) == '?' {
            break;
        }
        q = q + 1;
    }
    if q == len {
        return None;
    }
    let mut e: usize = q;
    while e > 0
        invariant
            len == pattern@.len(),
            e <= q < len,
            strip_separators_end(pattern@, e as int) == strip_separators_end(pattern@, q as int),
        ensures
            e <= q,
            strip_separators_end(pattern@, q as int) == e,
        decreases e,
    {
        let c = pattern.get_char(e - 1);
        if !(c == '/' || c == '\\') {
            break;
        }
        e = e - 1;
    }
    if e == 0 {
        None
    } else {
        Some(pattern.substring_char(0, e).to_owned())
    }
}

fn contains_string(v: &Vec<String>, s: &String) -> (r: bool)
    ensures
        r == texts(v@).contains(s@),
{
    let mut j: usize = 0;
    while j < v.len()
        invariant
            j <= v@.len(),
            forall|q: int| 0 <= q < j ==> v@[q]@ != s@,
        decreases v@.len() - j,
    {
        if v[j] == *s {
            assert(texts(v@)[j as int] == s@);
            return true;
        }
        j = j + 1;
    }
    assert forall|q: int| 0 <= q < texts(v@).len() implies texts(v@)[q] != s@ by {
        assert(v@[q]@ != s@);
    }
    false
}

/// The runtime path patterns of a Lua search path and the library
/// directories they search (see [`runtime_paths`] and [`unique_libraries`]).
pub fn lua_path_configuration(lua_path: &str) -> (r: (Vec<String>, Vec<String>))
    ensures
        texts(r.0@) == runtime_paths(lua_path@),
        texts(r.1@) == unique_libraries(runtime_paths(lua_path@)),
{
    let ghost s = lua_path@;
    let len = lua_path.unicode_len();
    let mut runtime: Vec<String> = Vec::new();
    let mut current = String::new();
    let ghost mut done: Seq<Seq<char>> = Seq::empty();
    let mut i: usize = 0;
    assert(s.subrange(0, 0) =~= Seq::<char>::empty());
    assert(split_on(s.subrange(0, 0), ';') =~= done.push(current@));
    assert(texts(runtime@) =~= nonempty_trimmed(done));
    while i < len
        invariant
            len == s.len(),
            s == lua_path@,
            i <= len,
            split_on(s.subrange(0, i as int), ';') == done.push(current@),
            texts(runtime@) == nonempty_trimmed(done),
        decreases len - i,
    {
        let c = lua_path.get_char(i);
        assert(s.subrange(0, i + 1).drop_last() =~= s.subrange(0, i as int));
        assert(s.subrange(0, i + 1).last() == c);
        if c == ';' {
            let t = trimmed(current.as_str());
            let ghost before = texts(runtime@);
            if t.as_str().unicode_len() > 0 {
                runtime.push(t);
                assert(texts(runtime@) =~= before.push(trim(current@)));
            }
            proof {
                assert(done.push(current@).drop_last() =~= done);
                assert(nonempty_trimmed(done.push(current@)) =~= texts(runtime@));
                done = done.push(current@);
            }
            current = String::new();
            assert(split_on(s.subrange(0, i + 1), ';') =~= done.push(current@));
        } else {
            let ghost old_current = current@;
            push_char(&mut current, c);
            assert(split_on(s.subrange(0, i + 1), ';') =~= done.push(current@));
        }
        i = i + 1;
    }
    assert(s.subrange(0, i as int) =~= s);
    let t = trimmed(current.as_str());
    let ghost before = texts(runtime@);
    if t.as_str().unicode_len() > 0 {
        runtime.push(t);
        assert(texts(runtime@) =~= before.push(trim(current@)));
    }
    assert(done.push(current@).drop_last() =~= done);
    assert(texts(runtime@) == runtime_paths(s));
    let ghost paths = texts(runtime@);
    let mut libraries: Vec<String> = Vec::new();
    let mut j: usize = 0;
    assert(paths.subrange(0, 0) =~= Seq::<Seq<char>>::empty());
    while j < runtime.len()
        invariant
            paths == texts(runtime@),
            j <= runtime@.len(),
            texts(libraries@) == unique_libraries(paths.subrange(0, j as int)),
        decreases runtime@.len() - j,
    {
        assert(paths.subrange(0, j + 1).drop_last() =~= paths.subrange(0, j as int));
        assert(paths.subrange(0, j + 1).last() == runtime@[j as int]@);
        match library_dir(runtime[j].as_str()) {
            Some(d) => {
                if !contains_string(&libraries, &d) {
                    let ghost before = texts(libraries@);
                    libraries.push(d);
                    assert(texts(libraries@) =~= before.push(libraries@.last()@));
                }
            },
            None => {},
        }
        j = j + 1;
    }
    assert(paths.subrange(0, j as int) =~= paths);
    (runtime, libraries)
}

} // verus!
