//! A light Lua scanner that finds direct `getAddress("name")` and
//! `getAddressSafe("name")` calls, skipping strings and comments.
use vstd::prelude::*;
use crate::text::{at_boundary, is_boundary};

verus! {

/// `u8::is_ascii_whitespace`: space, tab, line feed, form feed, carriage return.
pub open spec fn is_ascii_space(b: u8) -> bool {
    b == 32 || b == 9 || b == 10 || b == 12 || b == 13
}

pub open spec fn is_ident_start(b: u8) -> bool {
    (97 <= b && b <= 122) || (65 <= b && b <= 90) || b == 95
}

pub open spec fn is_ident_continue(b: u8) -> bool {
    is_ident_start(b) || (48 <= b && b <= 57)
}

/// Index of the first `quote` byte at or after `start` that is not escaped
/// by a backslash (a backslash skips the byte after it).
pub open spec fn closing_quote(b: Seq<u8>, start: int, quote: u8) -> Option<int>
    decreases b.len() + 2 - start,
{
    if start < 0 || start >= b.len() {
        None
    } else if b[start] == 92 {
        closing_quote(b, start + 2, quote)
    } else if b[start] == quote {
        Some(start)
    } else {
        closing_quote(b, start + 1, quote)
    }
}

/// One past the closing quote of the string literal opened at `quote_start`.
pub open spec fn string_end(b: Seq<u8>, quote_start: int) -> Option<int> {
    match closing_quote(b, quote_start + 1, b[quote_start]) {
        Some(e) => Some(e + 1),
        None => None,
    }
}

/// First index at or after `from` past a run of ASCII whitespace.
pub open spec fn skip_space(b: Seq<u8>, from: int) -> int
    decreases b.len() - from,
{
    if 0 <= from < b.len() && is_ascii_space(b[from]) {
        skip_space(b, from + 1)
    } else {
        from
    }
}

/// The last byte before `cursor` that is not ASCII whitespace.
pub open spec fn previous_non_space(b: Seq<u8>, cursor: int) -> Option<u8>
    decreases cursor,
{
    if cursor <= 0 {
        None
    } else if !is_ascii_space(b[cursor - 1]) {
        Some(b[cursor - 1])
    } else {
        previous_non_space(b, cursor - 1)
    }
}

/// End of the identifier whose bytes continue from `from`.
pub open spec fn identifier_end(b: Seq<u8>, from: int) -> int
    decreases b.len() - from,
{
    if 0 <= from < b.len() && is_ident_continue(b[from]) {
        identifier_end(b, from + 1)
    } else {
        from
    }
}

/// One past the first `'\n'` at or after `from`, or the length.
pub open spec fn line_comment_end(b: Seq<u8>, from: int) -> int
    decreases b.len() - from,
{
    if from >= b.len() {
        b.len() as int
    } else if b[from] == 10 {
        from + 1
    } else {
        line_comment_end(b, from + 1)
    }
}

/// Two past the first `]]` at or after `from`, or the length.
pub open spec fn long_comment_end(b: Seq<u8>, from: int) -> int
    decreases b.len() - from,
{
    if from + 1 >= b.len() {
        b.len() as int
    } else if b[from] == 93 && b[from + 1] == 93 {
        from + 2
    } else {
        long_comment_end(b, from + 1)
    }
}

/// `getAddress`
pub open spec fn get_address_name() -> Seq<u8> {
    seq![103u8, 101, 116, 65, 100, 100, 114, 101, 115, 115]
}

/// `getAddressSafe`
pub open spec fn get_address_safe_name() -> Seq<u8> {
    seq![103u8, 101, 116, 65, 100, 100, 114, 101, 115, 115, 83, 97, 102, 101]
}

pub open spec fn is_quote(b: u8) -> bool {
    b == 39 || b == 34
}

/// The argument of a direct address call whose identifier spans
/// `start..end`: the byte range of the quoted name, where the scan resumes,
/// and whether the range is kept (non-empty, no escapes, on character boundaries).
pub open spec fn call_argument(b: Seq<u8>, start: int, end: int) -> Option<(int, int, bool)> {
    let id = b.subrange(start, end);
    let prev = previous_non_space(b, start);
    if !(id == get_address_name() || id == get_address_safe_name()) || prev == Some(46u8) || prev
        == Some(58u8) {
        None
    } else {
        let call = skip_space(b, end);
        if !(call < b.len() && b[call] == 40) {
            None
        } else {
            let q = skip_space(b, call + 1);
            if !(q < b.len() && is_quote(b[q])) {
                None
            } else {
                match closing_quote(b, q + 1, b[q]) {
                    None => None,
                    Some(ve) => {
                        let vs = q + 1;
                        let keep = vs < ve && (forall|k: int| vs <= k < ve ==> b[k] != 92)
                            && at_boundary(b, vs) && at_boundary(b, ve);
                        Some((vs, ve, keep))
                    },
                }
            }
        }
    }
}

pub proof fn lemma_closing_quote_bounds(b: Seq<u8>, start: int, quote: u8)
    ensures
        closing_quote(b, start, quote) matches Some(e) ==> start <= e < b.len() && b[e] == quote,
    decreases b.len() + 2 - start,
{
    if 0 <= start < b.len() {
        if b[start] == 92 {
            lemma_closing_quote_bounds(b, start + 2, quote);
        } else if b[start] != quote {
            lemma_closing_quote_bounds(b, start + 1, quote);
        }
    }
}

pub proof fn lemma_skip_space_bounds(b: Seq<u8>, from: int)
    requires
        0 <= from,
    ensures
        from <= skip_space(b, from),
        from <= b.len() ==> skip_space(b, from) <= b.len(),
    decreases b.len() - from,
{
    if 0 <= from < b.len() && is_ascii_space(b[from]) {
        lemma_skip_space_bounds(b, from + 1);
    }
}

pub proof fn lemma_identifier_end_bounds(b: Seq<u8>, from: int)
    requires
        0 <= from <= b.len(),
    ensures
        from <= identifier_end(b, from) <= b.len(),
    decreases b.len() - from,
{
    if from < b.len() && is_ident_continue(b[from]) {
        lemma_identifier_end_bounds(b, from + 1);
    }
}

pub proof fn lemma_line_comment_end_bounds(b: Seq<u8>, from: int)
    requires
        0 <= from <= b.len(),
    ensures
        from < line_comment_end(b, from) <= b.len() || (from == b.len() && line_comment_end(
            b,
            from,
        ) == b.len()),
    decreases b.len() - from,
{
    if from < b.len() && b[from] != 10 {
        lemma_line_comment_end_bounds(b, from + 1);
    }
}

pub proof fn lemma_long_comment_end_bounds(b: Seq<u8>, from: int)
    requires
        0 <= from <= b.len(),
    ensures
        from <= long_comment_end(b, from) <= b.len(),
    decreases b.len() - from,
{
    if from + 1 < b.len() && !(b[from] == 93 && b[from + 1] == 93) {
        lemma_long_comment_end_bounds(b, from + 1);
    }
}

pub proof fn lemma_call_argument_bounds(b: Seq<u8>, start: int, end: int)
    requires
        0 <= start < end <= b.len(),
    ensures
        call_argument(b, start, end) matches Some((vs, ve, keep)) ==> end < vs <= ve < b.len(),
{
    lemma_skip_space_bounds(b, end);
    let call = skip_space(b, end);
    if call < b.len() {
        lemma_skip_space_bounds(b, call + 1);
        let q = skip_space(b, call + 1);
        if q < b.len() {
            lemma_closing_quote_bounds(b, q + 1, b[q]);
        }
    }
}

/// The byte ranges of the quoted names passed to direct `getAddress` and
/// `getAddressSafe` calls, scanning from `cursor`. Quoted strings, `--` line
/// comments and `[[ ... ]]` blocks are skipped; calls through `.` or `:` are
/// not direct calls.
pub open spec fn address_arguments_from(b: Seq<u8>, cursor: int) -> Seq<(int, int)>
    decreases b.len() - cursor,
{
    if cursor < 0 || cursor >= b.len() {
        seq![]
    } else if is_quote(b[cursor]) {
        let next = match string_end(b, cursor) {
            Some(e) => e,
            None => b.len() as int,
        };
        proof {
            lemma_closing_quote_bounds(b, cursor + 1, b[cursor]);
        }
        address_arguments_from(b, next)
    } else if b[cursor] == 45 && cursor + 1 < b.len() && b[cursor + 1] == 45 {
        proof {
            lemma_line_comment_end_bounds(b, cursor + 2);
        }
        address_arguments_from(b, line_comment_end(b, cursor + 2))
    } else if b[cursor] == 91 && cursor + 1 < b.len() && b[cursor + 1] == 91 {
        proof {
            lemma_long_comment_end_bounds(b, cursor + 2);
        }
        address_arguments_from(b, long_comment_end(b, cursor + 2))
    } else if is_ident_start(b[cursor]) {
        let end = identifier_end(b, cursor + 1);
        proof {
            lemma_identifier_end_bounds(b, cursor + 1);
            lemma_call_argument_bounds(b, cursor, end);
        }
        match call_argument(b, cursor, end) {
            None => address_arguments_from(b, end),
            Some((vs, ve, keep)) => if keep {
                seq![(vs, ve)] + address_arguments_from(b, ve + 1)
            } else {
                address_arguments_from(b, ve + 1)
            },
        }
    } else {
        address_arguments_from(b, cursor + 1)
    }
}

/// The byte range `s..e` of a quoted name: it lies inside the text, is
/// framed by the same quote byte on both sides, holds no backslash and no
/// such quote, and starts and ends on character boundaries.
pub open spec fn well_formed_argument(b: Seq<u8>, s: int, e: int) -> bool {
    &&& 1 <= s < e < b.len()
    &&& is_quote(b[e])
    &&& b[s - 1] == b[e]
    &&& forall|i: int| s <= i < e ==> #[trigger] b[i] != 92 && b[i] != b[e]
    &&& at_boundary(b, s)
    &&& at_boundary(b, e)
}

proof fn lemma_closing_quote_first(b: Seq<u8>, start: int, quote: u8, e: int)
    requires
        closing_quote(b, start, quote) == Some(e),
        forall|i: int| start <= i < e ==> #[trigger] b[i] != 92,
    ensures
        forall|i: int| start <= i < e ==> #[trigger] b[i] != quote,
    decreases b.len() + 2 - start,
{
    lemma_closing_quote_bounds(b, start, quote);
    if b[start] == 92 {
        lemma_closing_quote_bounds(b, start + 2, quote);
        assert(b[start] != 92);
    } else if b[start] != quote {
        lemma_closing_quote_first(b, start + 1, quote, e);
        assert forall|i: int| start <= i < e implies #[trigger] b[i] != quote by {
            if i > start {
            }
        }
    }
}

proof fn lemma_arguments_from(b: Seq<u8>, cursor: int)
    requires
        0 <= cursor,
    ensures
        forall|k: int| 0 <= k < address_arguments_from(b, cursor).len() ==> cursor < (
        #[trigger] address_arguments_from(b, cursor)[k]).0 && well_formed_argument(
            b,
            address_arguments_from(b, cursor)[k].0,
            address_arguments_from(b, cursor)[k].1,
        ),
        forall|k: int|
            0 <= k && k + 1 < address_arguments_from(b, cursor).len() ==> (
            #[trigger] address_arguments_from(b, cursor)[k]).1 < address_arguments_from(b, cursor)[k + 1].0,
    decreases b.len() - cursor,
{
    if cursor >= b.len() {
        return;
    }
    if is_quote(b[cursor]) {
        lemma_closing_quote_bounds(b, cursor + 1, b[cursor]);
        let next = match string_end(b, cursor) {
            Some(e) => e,
            None => b.len() as int,
        };
        lemma_arguments_from(b, next);
        assert(address_arguments_from(b, cursor) == address_arguments_from(b, next));
    } else if b[cursor] == 45 && cursor + 1 < b.len() && b[cursor + 1] == 45 {
        lemma_line_comment_end_bounds(b, cursor + 2);
        lemma_arguments_from(b, line_comment_end(b, cursor + 2));
        assert(address_arguments_from(b, cursor) == address_arguments_from(b, line_comment_end(b, cursor + 2)));
    } else if b[cursor] == 91 && cursor + 1 < b.len() && b[cursor + 1] == 91 {
        lemma_long_comment_end_bounds(b, cursor + 2);
        lemma_arguments_from(b, long_comment_end(b, cursor + 2));
        assert(address_arguments_from(b, cursor) == address_arguments_from(b, long_comment_end(b, cursor + 2)));
    } else if is_ident_start(b[cursor]) {
        let end = identifier_end(b, cursor + 1);
        lemma_identifier_end_bounds(b, cursor + 1);
        lemma_call_argument_bounds(b, cursor, end);
        match call_argument(b, cursor, end) {
            None => {
                lemma_arguments_from(b, end);
                assert(address_arguments_from(b, cursor) == address_arguments_from(b, end));
            },
            Some((vs, ve, keep)) => {
                lemma_arguments_from(b, ve + 1);
                if keep {
                    let call = skip_space(b, end);
                    let q = skip_space(b, call + 1);
                    assert(vs == q + 1);
                    lemma_closing_quote_bounds(b, q + 1, b[q]);
                    lemma_closing_quote_first(b, q + 1, b[q], ve);
                    assert(well_formed_argument(b, vs, ve));
                    let tail = address_arguments_from(b, ve + 1);
                    let r = address_arguments_from(b, cursor);
                    assert(r == seq![(vs, ve)] + tail);
                    assert forall|k: int| 0 <= k < r.len() implies cursor < (#[trigger] r[k]).0
                        && well_formed_argument(b, r[k].0, r[k].1) by {
                        if k > 0 {
                            assert(r[k] == tail[k - 1]);
                        }
                    }
                    assert forall|k: int| 0 <= k && k + 1 < r.len() implies (#[trigger] r[k]).1 < r[k + 1].0 by {
                        assert(r[k + 1] == tail[k]);
                        if k > 0 {
                            assert(r[k] == tail[k - 1]);
                        }
                    }
                } else {
                    assert(address_arguments_from(b, cursor) == address_arguments_from(b, ve + 1));
                }
            },
        }
    } else {
        lemma_arguments_from(b, cursor + 1);
        assert(address_arguments_from(b, cursor) == address_arguments_from(b, cursor + 1));
    }
}

/// Every name range the scan reports is well formed (see
/// [`well_formed_argument`]), and the ranges come in order without overlap.
pub proof fn law_address_arguments_well_formed(b: Seq<u8>)
    ensures
        forall|k: int| 0 <= k < address_arguments_from(b, 0).len() ==> well_formed_argument(
            b,
            (#[trigger] address_arguments_from(b, 0)[k]).0,
            address_arguments_from(b, 0)[k].1,
        ),
        forall|k: int|
            0 <= k && k + 1 < address_arguments_from(b, 0).len() ==> (
            #[trigger] address_arguments_from(b, 0)[k]).1 < address_arguments_from(b, 0)[k + 1].0,
{
    lemma_arguments_from(b, 0);
}

pub fn is_lua_identifier_start(byte: u8) -> (r: bool)
    ensures
        r == is_ident_start(byte),
{
    (97 <= byte && byte <= 122) || (65 <= byte && byte <= 90) || byte == 95
}

pub fn is_lua_identifier_continue(byte: u8) -> (r: bool)
    ensures
        r == is_ident_continue(byte),
{
    is_lua_identifier_start(byte) || (48 <= byte && byte <= 57)
}

fn is_space_byte(b: u8) -> (r: bool)
    ensures
        r == is_ascii_space(b),
{
    b == 32 || b == 9 || b == 10 || b == 12 || b == 13
}

/// Index of the first unescaped `quote` at or after `start`.
pub fn unescaped_quote(source: &[u8], start: usize, quote: u8) -> (r: Option<usize>)
    ensures
        r matches Some(e) ==> closing_quote(source@, start as int, quote) == Some(e as int),
        r is None ==> closing_quote(source@, start as int, quote) is None,
{
    let mut cursor = start;
    while cursor < source.len()
        invariant
            start <= cursor,
            closing_quote(source@, cursor as int, quote) == closing_quote(source@, start as int, quote),
        decreases source@.len() + 2 - cursor,
    {
        if source[cursor] == 92 {
            if cursor > usize::MAX - 2 {
                assert(closing_quote(source@, cursor + 2, quote) is None);
                return None;
            }
            cursor = cursor + 2;
        } else if source[cursor] == quote {
            return Some(cursor);
        } else {
            cursor = cursor + 1;
        }
    }
    None
}

/// One past the end of the string literal opened at `quote_start`.
pub fn quoted_end(source: &[u8], quote_start: usize) -> (r: Option<usize>)
    requires
        quote_start < source@.len(),
    ensures
        r matches Some(e) ==> string_end(source@, quote_start as int) == Some(e as int),
        r is None ==> string_end(source@, quote_start as int) is None,
{
    let n = source.len();
    assert(quote_start < n);
    match unescaped_quote(source, quote_start + 1, source[quote_start]) {
        Some(end) => {
            proof {
                lemma_closing_quote_bounds(source@, quote_start + 1, source@[quote_start as int]);
            }
            Some(end + 1)
        },
        None => None,
    }
}

pub fn skip_ascii_whitespace(source: &[u8], cursor: usize) -> (r: usize)
    ensures
        r == skip_space(source@, cursor as int),
{
    let mut c = cursor;
    while c < source.len() && is_space_byte(source[c])
        invariant
            cursor <= c,
            skip_space(source@, c as int) == skip_space(source@, cursor as int),
        decreases source@.len() - c,
    {
        c = c + 1;
    }
    c
}

pub fn previous_non_whitespace(source: &[u8], cursor: usize) -> (r: Option<u8>)
    requires
        cursor <= source@.len(),
    ensures
        r == previous_non_space(source@, cursor as int),
{
    let mut c = cursor;
    while c > 0
        invariant
            c <= cursor <= source@.len(),
            previous_non_space(source@, c as int) == previous_non_space(source@, cursor as int),
        decreases c,
    {
        if !is_space_byte(source[c - 1]) {
            return Some(source[c - 1]);
        }
        c = c - 1;
    }
    None
}

fn matches_name(source: &[u8], start: usize, end: usize, name: &[u8]) -> (r: bool)
    requires
        start <= end <= source@.len(),
    ensures
        r == (source@.subrange(start as int, end as int) == name@),
{
    if end - start != name.len() {
        return false;
    }
    let mut i: usize = 0;
    while i < name.len()
        invariant
            end - start == name@.len(),
            start <= end <= source@.len(),
            i <= name@.len(),
            forall|j: int| 0 <= j < i ==> source@[start + j] == name@[j],
        decreases name@.len() - i,
    {
        if source[start + i] != name[i] {
            assert(source@.subrange(start as int, end as int)[i as int] != name@[i as int]);
            return false;
        }
        i = i + 1;
    }
    assert(source@.subrange(start as int, end as int) =~= name@);
    true
}

fn no_backslash(source: &[u8], start: usize, end: usize) -> (r: bool)
    requires
        start <= end <= source@.len(),
    ensures
        r == (forall|k: int| start <= k < end ==> source@[k] != 92),
{
    let mut k = start;
    while k < end
        invariant
            start <= k <= end,
            end <= source@.len(),
            forall|j: int| start <= j < k ==> source@[j] != 92,
        decreases end - k,
    {
        if source[k] == 92 {
            return false;
        }
        k = k + 1;
    }
    true
}

/// The argument of a direct address call (see [`call_argument`]).
fn exec_call_argument(source: &[u8], start: usize, end: usize) -> (r: Option<(usize, usize, bool)>)
    requires
        start < end <= source@.len(),
    ensures
        r matches Some((vs, ve, keep)) ==> call_argument(source@, start as int, end as int) == Some(
            (vs as int, ve as int, keep),
        ),
        r is None ==> call_argument(source@, start as int, end as int) is None,
{
    let get_address: [u8; 10] = [103, 101, 116, 65, 100, 100, 114, 101, 115, 115];
    let get_address_safe: [u8; 14] = [103, 101, 116, 65, 100, 100, 114, 101, 115, 115, 83, 97, 102, 101];
    assert(get_address@ =~= get_address_name());
    assert(get_address_safe@ =~= get_address_safe_name());
    if !(matches_name(source, start, end, &get_address) || matches_name(
        source,
        start,
        end,
        &get_address_safe,
    )) {
        return None;
    }
    let prev = previous_non_whitespace(source, start);
    if prev == Some(46u8) || prev == Some(58u8) {
        return None;
    }
    let call = skip_ascii_whitespace(source, end);
    if !(call < source.len() && source[call] == 40) {
        return None;
    }
    proof {
        lemma_skip_space_bounds(source@, end as int);
    }
    let q = skip_ascii_whitespace(source, call + 1);
    if !(q < source.len() && (source[q] == 39 || source[q] == 34)) {
        return None;
    }
    match unescaped_quote(source, q + 1, source[q]) {
        None => None,
        Some(ve) => {
            proof {
                lemma_closing_quote_bounds(source@, q + 1, source@[q as int]);
            }
            let vs = q + 1;
            let keep = vs < ve && no_backslash(source, vs, ve) && is_boundary(source, vs)
                && is_boundary(source, ve);
            Some((vs, ve, keep))
        },
    }
}

/// Byte ranges of the names passed to direct `getAddress`/`getAddressSafe`
/// calls in a Lua chunk (see [`address_arguments_from`]).
pub fn lua_address_arguments(source: &[u8]) -> (r: Vec<(usize, usize)>)
    ensures
        r@.map_values(|p: (usize, usize)| (p.0 as int, p.1 as int)) == address_arguments_from(
            source@,
            0,
        ),
{
    let b = source;
    let mut arguments: Vec<(usize, usize)> = Vec::new();
    let mut cursor: usize = 0;
    while cursor < b.len()
        invariant
            arguments@.map_values(|p: (usize, usize)| (p.0 as int, p.1 as int)) + address_arguments_from(
                b@,
                cursor as int,
            ) == address_arguments_from(b@, 0),
        decreases b@.len() - cursor,
    {
        let ghost before = arguments@.map_values(|p: (usize, usize)| (p.0 as int, p.1 as int));
        let c = b[cursor];
        if c == 39 || c == 34 {
            proof {
                lemma_closing_quote_bounds(b@, cursor + 1, b@[cursor as int]);
            }
            cursor = match quoted_end(b, cursor) {
                Some(e) => e,
                None => b.len(),
            };
        } else if c == 45 && cursor + 1 < b.len() && b[cursor + 1] == 45 {
            let mut k = cursor + 2;
            while k < b.len() && b[k] != 10
                invariant
                    cursor + 2 <= k <= b@.len(),
                    line_comment_end(b@, k as int) == line_comment_end(b@, cursor + 2),
                decreases b@.len() - k,
            {
                k = k + 1;
            }
            cursor = if k < b.len() {
                k + 1
            } else {
                b.len()
            };
        } else if c == 91 && cursor + 1 < b.len() && b[cursor + 1] == 91 {
            let mut k = cursor + 2;
            while k < b.len() - 1 && !(b[k] == 93 && b[k + 1] == 93)
                invariant
                    cursor + 2 <= k <= b@.len(),
                    long_comment_end(b@, k as int) == long_comment_end(b@, cursor + 2),
                decreases b@.len() - k,
            {
                k = k + 1;
            }
            cursor = if k < b.len() - 1 {
                k + 2
            } else {
                b.len()
            };
        } else if is_lua_identifier_start(c) {
            let mut end = cursor + 1;
            while end < b.len() && is_lua_identifier_continue(b[end])
                invariant
                    cursor + 1 <= end <= b@.len(),
                    identifier_end(b@, end as int) == identifier_end(b@, cursor + 1),
                decreases b@.len() - end,
            {
                end = end + 1;
            }
            match exec_call_argument(b, cursor, end) {
                None => {
                    cursor = end;
                },
                Some((vs, ve, keep)) => {
                    proof {
                        lemma_call_argument_bounds(b@, cursor as int, end as int);
                    }
                    if keep {
                        arguments.push((vs, ve));
                        assert(arguments@.map_values(|p: (usize, usize)| (p.0 as int, p.1 as int))
                            =~= before + seq![(vs as int, ve as int)]);
                    }
                    cursor = ve + 1;
                },
            }
        } else {
            cursor = cursor + 1;
        }
    }
    arguments
}

} // verus!
