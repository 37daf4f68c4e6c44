//! Byte-level text utilities: character boundaries, UTF-16 columns,
//! LSP positions and ASCII case folding.
use vstd::prelude::*;
use vstd::utf8::*;
use vstd::string::StringSliceAdditionalSpecFns;
use vstd::string::StrSliceExecFns;

verus! {

/// A zero-based LSP position: a line and a UTF-16 column.
#[derive(Clone, Copy, Debug, PartialEq, Eq, Structural)]
pub struct Position {
    pub line: u32,
    pub character: u32,
}

/// A half-open or closed span between two LSP positions, depending on its use.
#[derive(Clone, Copy, Debug, PartialEq, Eq, Structural)]
pub struct Range {
    pub start: Position,
    pub end: Position,
}

impl Position {
    pub fn new(line: u32, character: u32) -> (p: Position)
        ensures
            p.line == line,
            p.character == character,
    {
        Position { line, character }
    }

    /// Lexicographic order on `(line, character)`.
    pub open spec fn le(self, other: Position) -> bool {
        self.line < other.line || (self.line == other.line && self.character <= other.character)
    }

    pub open spec fn lt(self, other: Position) -> bool {
        self.line < other.line || (self.line == other.line && self.character < other.character)
    }

    pub fn at_or_before(&self, other: &Position) -> (r: bool)
        ensures
            r == self.le(*other),
    {
        self.line < other.line || (self.line == other.line && self.character <= other.character)
    }

    pub fn before(&self, other: &Position) -> (r: bool)
        ensures
            r == self.lt(*other),
    {
        self.line < other.line || (self.line == other.line && self.character < other.character)
    }
}

impl Range {
    pub fn new(start: Position, end: Position) -> (r: Range)
        ensures
            r.start == start,
            r.end == end,
    {
        Range { start, end }
    }
}

pub open spec fn is_continuation(b: u8) -> bool {
    0x80 <= b && b < 0xC0
}

/// `str::is_char_boundary` as std computes it on the underlying bytes.
pub open spec fn at_boundary(bytes: Seq<u8>, i: int) -> bool {
    i == 0 || i == bytes.len() || (0 <= i < bytes.len() && !is_continuation(bytes[i]))
}

/// UTF-16 code units contributed by one UTF-8 byte: a leading byte of a
/// four-byte sequence starts a surrogate pair, continuation bytes add nothing.
pub open spec fn utf16_weight(b: u8) -> nat {
    if b < 0x80 {
        1
    } else if b < 0xC0 {
        0
    } else if b < 0xF0 {
        1
    } else {
        2
    }
}

/// Number of UTF-16 code units of the text encoded by `bytes`.
pub open spec fn utf16_units(bytes: Seq<u8>) -> nat
    decreases bytes.len(),
{
    if bytes.len() == 0 {
        0
    } else {
        utf16_units(bytes.drop_last()) + utf16_weight(bytes.last())
    }
}

/// Index of the first `'\n'` at or after `from`, or the length when there is none.
pub open spec fn next_newline(bytes: Seq<u8>, from: int) -> int
    decreases bytes.len() - from,
{
    if from >= bytes.len() {
        bytes.len() as int
    } else if bytes[from] == 10 {
        from
    } else {
        next_newline(bytes, from + 1)
    }
}

/// Byte offset where line `row` starts (lines are separated by `'\n'`),
/// or `None` when the text has fewer lines.
pub open spec fn line_start(bytes: Seq<u8>, row: nat) -> Option<int>
    decreases row,
{
    if row == 0 {
        Some(0)
    } else {
        match line_start(bytes, (row - 1) as nat) {
            Some(s) => {
                let e = next_newline(bytes, s);
                if e < bytes.len() {
                    Some(e + 1)
                } else {
                    None
                }
            },
            None => None,
        }
    }
}

/// Number of `'\n'` bytes in `bytes`.
pub open spec fn newline_count(bytes: Seq<u8>) -> nat
    decreases bytes.len(),
{
    if bytes.len() == 0 {
        0
    } else {
        newline_count(bytes.drop_last()) + if bytes.last() == 10 {
            1nat
        } else {
            0nat
        }
    }
}

/// One past the last `'\n'` before `end`, or 0.
pub open spec fn last_line_start(bytes: Seq<u8>, end: int) -> int
    decreases end,
{
    if end <= 0 {
        0
    } else if bytes[end - 1] == 10 {
        end
    } else {
        last_line_start(bytes, end - 1)
    }
}

/// The position of the tree point `(row, column)`, where `column` counts
/// bytes: the column becomes a count of UTF-16 units of the line prefix.
pub open spec fn point_position(bytes: Seq<u8>, row: nat, column: nat) -> Position {
    match line_start(bytes, row) {
        None => Position { line: row as u32, character: 0 },
        Some(s) => {
            let line = bytes.subrange(s, next_newline(bytes, s));
            let prefix = if column <= line.len() && at_boundary(line, column as int) {
                line.subrange(0, column as int)
            } else {
                line
            };
            Position { line: row as u32, character: utf16_units(prefix) as u32 }
        },
    }
}

/// The position of byte offset `byte`; an offset that is out of range or
/// inside a character stands for the end of the text.
pub open spec fn offset_position(bytes: Seq<u8>, byte: nat) -> Position {
    let p: int = if byte <= bytes.len() && at_boundary(bytes, byte as int) {
        byte as int
    } else {
        bytes.len() as int
    };
    let prefix = bytes.subrange(0, p);
    let ls = last_line_start(bytes, p);
    Position {
        line: newline_count(prefix) as u32,
        character: utf16_units(bytes.subrange(ls, p)) as u32,
    }
}

/// Scans one line for the byte whose UTF-16 column is `character`.
pub open spec fn column_offset(line: Seq<u8>, k: int, units: nat, character: nat) -> Option<int>
    decreases line.len() - k,
{
    if k >= line.len() {
        if units == character {
            Some(line.len() as int)
        } else {
            None
        }
    } else if is_continuation(line[k]) {
        column_offset(line, k + 1, units, character)
    } else if units == character {
        Some(k)
    } else if units + utf16_weight(line[k]) > character {
        None
    } else {
        column_offset(line, k + 1, units + utf16_weight(line[k]), character)
    }
}

/// The byte offset of an LSP position, if it falls on a character of its line
/// or at the line's end. A line past the last one starts at the end of the text.
pub open spec fn position_offset(bytes: Seq<u8>, position: Position) -> Option<int> {
    let s = match line_start(bytes, position.line as nat) {
        Some(s) => s,
        None => bytes.len() as int,
    };
    let line = bytes.subrange(s, next_newline(bytes, s));
    match column_offset(line, 0, 0, position.character as nat) {
        Some(k) => Some(s + k),
        None => None,
    }
}

pub proof fn lemma_line_start_bounds(bytes: Seq<u8>, row: nat)
    ensures
        line_start(bytes, row) matches Some(s) ==> 0 <= s <= bytes.len(),
    decreases row,
{
    if row > 0 {
        lemma_line_start_bounds(bytes, (row - 1) as nat);
        if let Some(s) = line_start(bytes, (row - 1) as nat) {
            lemma_next_newline_bounds(bytes, s);
        }
    }
}

pub proof fn lemma_next_newline_bounds(bytes: Seq<u8>, from: int)
    requires
        0 <= from,
    ensures
        from <= next_newline(bytes, from) <= bytes.len() || (from > bytes.len()
            && next_newline(bytes, from) == bytes.len()),
        next_newline(bytes, from) < bytes.len() ==> bytes[next_newline(bytes, from)] == 10,
    decreases bytes.len() - from,
{
    if from < bytes.len() && bytes[from] != 10 {
        lemma_next_newline_bounds(bytes, from + 1);
    }
}

proof fn lemma_line_start_none_after(bytes: Seq<u8>, row: nat, later: nat)
    requires
        line_start(bytes, row) is None,
        row <= later,
    ensures
        line_start(bytes, later) is None,
    decreases later - row,
{
    if row < later {
        lemma_line_start_none_after(bytes, row, (later - 1) as nat);
    }
}

proof fn lemma_utf16_units_step(bytes: Seq<u8>, start: int, end: int)
    requires
        0 <= start <= end < bytes.len(),
    ensures
        utf16_units(bytes.subrange(start, end + 1)) == utf16_units(bytes.subrange(start, end))
            + utf16_weight(bytes[end]),
{
    assert(bytes.subrange(start, end + 1).drop_last() =~= bytes.subrange(start, end));
}

proof fn lemma_newline_count_step(bytes: Seq<u8>, end: int)
    requires
        0 <= end < bytes.len(),
    ensures
        newline_count(bytes.subrange(0, end + 1)) == newline_count(bytes.subrange(0, end)) + if bytes[end]
            == 10 {
            1nat
        } else {
            0nat
        },
{
    assert(bytes.subrange(0, end + 1).drop_last() =~= bytes.subrange(0, end));
}

/// Number of UTF-16 units of `bytes[start..end]`, truncated to `u32` as an LSP column.
pub fn utf16_column(bytes: &[u8], start: usize, end: usize) -> (n: u32)
    requires
        start <= end <= bytes@.len(),
    ensures
        n == utf16_units(bytes@.subrange(start as int, end as int)) as u32,
{
    let mut total: u128 = 0;
    let mut i = start;
    while i < end
        invariant
            start <= i <= end <= bytes@.len(),
            total == utf16_units(bytes@.subrange(start as int, i as int)),
            total <= 2 * (i - start),
        decreases end - i,
    {
        proof {
            lemma_utf16_units_step(bytes@, start as int, i as int);
        }
        let b = bytes[i];
        if b < 0x80 {
            total = total + 1;
        } else if b < 0xC0 {
        } else if b < 0xF0 {
            total = total + 1;
        } else {
            total = total + 2;
        }
        i = i + 1;
    }
    #[verifier::truncate]
    (total as u32)
}

/// Index of the first `'\n'` at or after `from`.
pub fn find_newline(bytes: &[u8], from: usize) -> (e: usize)
    requires
        from <= bytes@.len(),
    ensures
        e == next_newline(bytes@, from as int),
        from <= e <= bytes@.len(),
{
    let mut i = from;
    while i < bytes.len() && bytes[i] != 10
        invariant
            from <= i <= bytes@.len(),
            next_newline(bytes@, i as int) == next_newline(bytes@, from as int),
        decreases bytes@.len() - i,
    {
        i = i + 1;
    }
    i
}

/// Returns `true` when byte offset `i` is a character boundary of `bytes`.
pub fn is_boundary(bytes: &[u8], i: usize) -> (r: bool)
    ensures
        r == at_boundary(bytes@, i as int),
{
    if i == 0 || i == bytes.len() {
        true
    } else if i < bytes.len() {
        let b = bytes[i];
        !(0x80 <= b && b < 0xC0)
    } else {
        false
    }
}

/// Start of line `row`, or `None` when the text has fewer lines.
pub fn find_line_start(bytes: &[u8], row: usize) -> (r: Option<usize>)
    ensures
        r matches Some(s) ==> line_start(bytes@, row as nat) == Some(s as int) && s <= bytes@.len(),
        r is None ==> line_start(bytes@, row as nat) is None,
{
    let mut start: usize = 0;
    let mut r: usize = 0;
    while r < row
        invariant
            r <= row,
            line_start(bytes@, r as nat) == Some(start as int),
            start <= bytes@.len(),
        decreases row - r,
    {
        let e = find_newline(bytes, start);
        if e == bytes.len() {
            proof {
                assert(line_start(bytes@, (r + 1) as nat) is None);
                lemma_line_start_none_after(bytes@, (r + 1) as nat, row as nat);
            }
            return None;
        }
        start = e + 1;
        r = r + 1;
    }
    Some(start)
}

/// The LSP position of a tree point given as a row and a byte column.
pub fn lsp_position(bytes: &[u8], row: usize, column: usize) -> (p: Position)
    ensures
        p == point_position(bytes@, row as nat, column as nat),
{
    #[verifier::truncate]
    let line = row as u32;
    match find_line_start(bytes, row) {
        None => Position { line, character: 0 },
        Some(s) => {
            let e = find_newline(bytes, s);
            let len = e - s;
            let ghost lb = bytes@.subrange(s as int, e as int);
            let prefix_end = if column <= len && (column == 0 || column == len || !(0x80
                <= bytes[s + column] && bytes[s + column] < 0xC0)) {
                s + column
            } else {
                e
            };
            proof {
                if column <= len && at_boundary(lb, column as int) {
                    assert(lb.subrange(0, column as int) =~= bytes@.subrange(
                        s as int,
                        (s + column) as int,
                    ));
                }
            }
            Position { line, character: utf16_column(bytes, s, prefix_end) }
        },
    }
}

/// The LSP position of byte offset `byte`.
pub fn byte_position(bytes: &[u8], byte: usize) -> (p: Position)
    ensures
        p == offset_position(bytes@, byte as nat),
{
    let p = if byte <= bytes.len() && is_boundary(bytes, byte) {
        byte
    } else {
        bytes.len()
    };
    let mut i: usize = 0;
    let mut lines: usize = 0;
    let mut ls: usize = 0;
    while i < p
        invariant
            i <= p <= bytes@.len(),
            lines == newline_count(bytes@.subrange(0, i as int)),
            lines <= i,
            ls == last_line_start(bytes@, i as int),
            ls <= i,
        decreases p - i,
    {
        proof {
            lemma_newline_count_step(bytes@, i as int);
        }
        if bytes[i] == 10 {
            lines = lines + 1;
            ls = i + 1;
        }
        i = i + 1;
    }
    #[verifier::truncate]
    let line = lines as u32;
    Position { line, character: utf16_column(bytes, ls, p) }
}

/// The byte offset of an LSP position (see [`position_offset`]).
pub fn byte_offset_at_position(bytes: &[u8], position: Position) -> (r: Option<usize>)
    ensures
        r matches Some(o) ==> position_offset(bytes@, position) == Some(o as int),
        r is None ==> position_offset(bytes@, position) is None,
{
    let s = match find_line_start(bytes, position.line as usize) {
        Some(s) => s,
        None => bytes.len(),
    };
    let e = find_newline(bytes, s);
    let ghost line = bytes@.subrange(s as int, e as int);
    assert(position_offset(bytes@, position) == match column_offset(line, 0, 0, position.character as nat) {
        Some(k) => Some(s + k),
        None => None::<int>,
    });
    let target = position.character as u64;
    let mut units: u64 = 0;
    let mut k: usize = 0;
    while k < e - s
        invariant
            s <= e <= bytes@.len(),
            line == bytes@.subrange(s as int, e as int),
            k <= e - s,
            units <= target,
            target == position.character,
            position_offset(bytes@, position) == match column_offset(line, 0, 0, target as nat) {
                Some(k) => Some(s + k),
                None => None::<int>,
            },
            column_offset(line, k as int, units as nat, target as nat) == column_offset(
                line,
                0,
                0,
                target as nat,
            ),
        decreases e - s - k,
    {
        let b = bytes[s + k];
        assert(line[k as int] == b);
        if 0x80 <= b && b < 0xC0 {
            k = k + 1;
        } else {
            if units == target {
                return Some(s + k);
            }
            let w: u64 = if b < 0x80 {
                1
            } else if b < 0xF0 {
                1
            } else {
                2
            };
            if units + w > target {
                return None;
            }
            units = units + w;
            k = k + 1;
        }
    }
    if units == target {
        Some(e)
    } else {
        None
    }
}

/// ASCII lower-casing of one character, as `char::to_ascii_lowercase`.
pub open spec fn lower_char(c: char) -> char {
    if 'A' <= c && c <= 'Z' {
        ((c as u32) + 32) as char
    } else {
        c
    }
}

/// ASCII lower-casing of one byte, as `u8::to_ascii_lowercase`.
pub open spec fn lower_byte(b: u8) -> u8 {
    if 65 <= b && b <= 90 {
        (b + 32) as u8
    } else {
        b
    }
}

pub open spec fn lower_chars(s: Seq<char>) -> Seq<char> {
    s.map_values(|c: char| lower_char(c))
}

pub open spec fn lower_bytes(s: Seq<u8>) -> Seq<u8> {
    s.map_values(|b: u8| lower_byte(b))
}

/// Calls `String::push`: the character is appended.
#[verifier::external_body]
pub(crate) fn push_char(s: &mut String, c: char)
    ensures
        final(s)@ == old(s)@.push(c),
{
    s.push(c);
}

fn lower_char_of(c: char) -> (r: char)
    ensures
        r == lower_char(c),
{
    if 'A' <= c && c <= 'Z' {
        let v: u32 = c as u32;
        let b: u8 = c as u8;
        assert(b as u32 == v) by (bit_vector)
            requires
                65 <= v <= 90,
                b == v as u8,
        ;
        (b + 32) as char
    } else {
        c
    }
}

/// The text with ASCII letters lower-cased and every other character kept,
/// as `str::to_ascii_lowercase` gives it.
pub(crate) fn ascii_lowercase(s: &str) -> (r: String)
    ensures
        r@ == lower_chars(s@),
{
    let n = s.unicode_len();
    let mut out = String::new();
    let mut i: usize = 0;
    while i < n
        invariant
            n == s@.len(),
            i <= n,
            out@ == lower_chars(s@.subrange(0, i as int)),
        decreases n - i,
    {
        let c = s.get_char(i);
        push_char(&mut out, lower_char_of(c));
        assert(lower_chars(s@.subrange(0, i + 1)) =~= lower_chars(s@.subrange(0, i as int)).push(lower_char(c)));
        i = i + 1;
    }
    assert(s@.subrange(0, n as int) =~= s@);
    out
}

/// The message of the error `std::str::from_utf8` reports for `bytes`.
pub uninterp spec fn utf8_error_text(bytes: Seq<u8>) -> Seq<char>;

/// Calls `std::str::from_utf8`: it succeeds exactly on valid UTF-8 and then
/// views the same bytes as text; on failure it hands back the error's
/// message, named [`utf8_error_text`] and not restated here.
#[verifier::external_body]
pub(crate) fn utf8_str(bytes: &[u8]) -> (r: Result<&str, String>)
    ensures
        r is Ok <==> valid_utf8(bytes@),
        r matches Ok(s) ==> s.spec_bytes() == bytes@,
        r matches Err(e) ==> e@ == utf8_error_text(bytes@),
{
    match std::str::from_utf8(bytes) {
        Ok(s) => Ok(s),
        Err(error) => Err(error.to_string()),
    }
}

/// The text of `bytes[start..end]` as std's `str::get` yields it on valid
/// UTF-8: present when the range is in bounds and on character boundaries.
pub open spec fn slice_text(bytes: Seq<u8>, start: int, end: int) -> Option<Seq<char>> {
    if 0 <= start <= end <= bytes.len() && at_boundary(bytes, start) && at_boundary(bytes, end)
        && valid_utf8(bytes.subrange(start, end)) {
        Some(decode_utf8(bytes.subrange(start, end)))
    } else {
        None
    }
}

/// An owned copy of `bytes[start..end]` as text (see [`slice_text`]).
pub fn slice_string(bytes: &[u8], start: usize, end: usize) -> (r: Option<String>)
    ensures
        r matches Some(s) ==> slice_text(bytes@, start as int, end as int) == Some(s@),
        r is None ==> slice_text(bytes@, start as int, end as int) is None,
{
    if start <= end && end <= bytes.len() && is_boundary(bytes, start) && is_boundary(bytes, end) {
        let sub = slice_range(bytes, start, end);
        match utf8_str(sub) {
            Ok(s) => {
                proof {
                    vstd::utf8::encode_utf8_decode_utf8(s@);
                }
                Some(s.to_owned())
            },
            Err(_) => None,
        }
    } else {
        None
    }
}

/// `bytes[start..end]` as a slice.
pub fn slice_range(bytes: &[u8], start: usize, end: usize) -> (r: &[u8])
    requires
        start <= end <= bytes@.len(),
    ensures
        r@ == bytes@.subrange(start as int, end as int),
{
    let (head, _) = bytes.split_at(end);
    let (_, tail) = head.split_at(start);
    tail
}

/// `char::is_whitespace`: the Unicode `White_Space` property.
pub open spec fn is_whitespace_char(c: char) -> bool {
    let v = c as u32;
    (9 <= v && v <= 13) || v == 32 || v == 0x85 || v == 0xA0 || v == 0x1680 || (0x2000 <= v && v
        <= 0x200A) || v == 0x2028 || v == 0x2029 || v == 0x202F || v == 0x205F || v == 0x3000
}

pub fn whitespace_char(c: char) -> (r: bool)
    ensures
        r == is_whitespace_char(c),
{
    let v = c as u32;
    (9 <= v && v <= 13) || v == 32 || v == 0x85 || v == 0xA0 || v == 0x1680 || (0x2000 <= v && v
        <= 0x200A) || v == 0x2028 || v == 0x2029 || v == 0x202F || v == 0x205F || v == 0x3000
}

/// `true` when some character of `s` is not whitespace, that is when
/// `!s.trim().is_empty()`.
pub fn has_non_whitespace(s: &str) -> (r: bool)
    ensures
        r == exists|i: int| 0 <= i < s@.len() && !is_whitespace_char(#[trigger] s@[i]),
{
    let n = s.unicode_len();
    let mut i: usize = 0;
    while i < n
        invariant
            n == s@.len(),
            i <= n,
            forall|j: int| 0 <= j < i ==> is_whitespace_char(#[trigger] s@[j]),
        decreases n - i,
    {
        if !whitespace_char(s.get_char(i)) {
            return true;
        }
        i = i + 1;
    }
    false
}

} // verus!

verus! {

/// `true` when two texts are equal.
pub fn text_eq(a: &str, b: &str) -> (r: bool)
    ensures
        r == (a@ == b@),
{
    let x = a.as_bytes();
    let y = b.as_bytes();
    proof {
        vstd::utf8::encode_utf8_decode_utf8(a@);
        vstd::utf8::encode_utf8_decode_utf8(b@);
    }
    if x.len() != y.len() {
        return false;
    }
    let mut i: usize = 0;
    while i < x.len()
        invariant
            x@.len() == y@.len(),
            x@ == a.spec_bytes(),
            y@ == b.spec_bytes(),
            i <= x@.len(),
            forall|j: int| 0 <= j < i ==> x@[j] == y@[j],
        decreases x@.len() - i,
    {
        if x[i] != y[i] {
            return false;
        }
        i = i + 1;
    }
    assert(x@ =~= y@);
    true
}

} // verus!
