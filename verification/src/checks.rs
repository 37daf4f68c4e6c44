//! The diagnostics of one CEA script: syntax errors, section structure,
//! command arities, value notation, label definitions and `{$STRICT}` order.
use vstd::prelude::*;
use crate::text::{Position, Range, ascii_lowercase, lower_chars, is_whitespace_char, has_non_whitespace};
use crate::syntax::{SyntaxNode, SyntaxTree, NodeKind, FieldName, field_child, argument_list, node_text, node_range};
use crate::diagnostics::{CeaDiagnostic, DiagnosticView, diagnostic_views};
use crate::integer::{dec_text, push_radix};
use crate::symbol_index::{CeaSymbolKind, OccurrenceRole, OccurrenceView, DocumentSymbolIndex};
use crate::syntax::first_named_child_from;

verus! {

/// The text of node `i`, or the empty text when it has none.
pub open spec fn text_or_empty(src: Seq<u8>, n: Seq<SyntaxNode>, i: int) -> Seq<char> {
    match node_text(src, n, i) {
        Some(t) => t,
        None => Seq::empty(),
    }
}

pub open spec fn diagnostic(range: Range, message: Seq<char>) -> DiagnosticView {
    DiagnosticView { range, message }
}

// ---------------------------------------------------------------- syntax errors

/// What an error or missing node reports.
pub open spec fn error_message(node: SyntaxNode) -> Seq<char> {
    if node.is_missing {
        "expected "@ + node.kind_name@
    } else {
        "could not parse this CEA syntax"@
    }
}

/// One diagnostic for each error or missing node of the subtree of `i`
/// (all children, named or not), except below a node already reported.
pub open spec fn error_diagnostics(src: Seq<u8>, n: Seq<SyntaxNode>, i: int, reported: bool) -> Seq<
    DiagnosticView,
>
    decreases n.len() - i, 1int, 0int,
{
    if i < 0 || i >= n.len() {
        Seq::empty()
    } else {
        let report = !reported && (n[i].is_error || n[i].is_missing);
        (if report {
            seq![diagnostic(node_range(src, n, i), error_message(n[i]))]
        } else {
            Seq::empty()
        }) + error_children(src, n, i, 0, reported || report)
    }
}

pub open spec fn error_children(src: Seq<u8>, n: Seq<SyntaxNode>, i: int, k: int, reported: bool) -> Seq<
    DiagnosticView,
>
    decreases n.len() - i, 0int, n[i].children@.len() - k,
{
    if 0 <= i < n.len() && 0 <= k < n[i].children@.len() {
        let c = n[i].children@[k] as int;
        (if i < c < n.len() {
            error_diagnostics(src, n, c, reported)
        } else {
            Seq::empty()
        }) + error_children(src, n, i, k + 1, reported)
    } else {
        Seq::empty()
    }
}

// ------------------------------------------------------------- node collection

/// The nodes of kind `kind` in the named subtree of `i`, in document order,
/// without descending into Lua chunks.
pub open spec fn kind_nodes(n: Seq<SyntaxNode>, i: int, kind: NodeKind) -> Seq<int>
    decreases n.len() - i, 1int, 0int,
{
    if i < 0 || i >= n.len() || n[i].kind == NodeKind::LuaChunk {
        Seq::empty()
    } else {
        (if n[i].kind == kind {
            seq![i]
        } else {
            Seq::empty()
        }) + kind_children(n, i, kind, 0)
    }
}

pub open spec fn kind_children(n: Seq<SyntaxNode>, i: int, kind: NodeKind, k: int) -> Seq<int>
    decreases n.len() - i, 0int, n[i].children@.len() - k,
{
    if 0 <= i < n.len() && 0 <= k < n[i].children@.len() {
        let c = n[i].children@[k] as int;
        (if i < c < n.len() && n[c].is_named {
            kind_nodes(n, c, kind)
        } else {
            Seq::empty()
        }) + kind_children(n, i, kind, k + 1)
    } else {
        Seq::empty()
    }
}

// ---------------------------------------------------------------- sections

pub open spec fn section_name(src: Seq<u8>, n: Seq<SyntaxNode>, i: int) -> Seq<char> {
    lower_chars(text_or_empty(src, n, i))
}

/// Whether `[ENABLE]` and `[DISABLE]` were seen among `secs`.
pub open spec fn section_state(src: Seq<u8>, n: Seq<SyntaxNode>, secs: Seq<int>) -> (bool, bool)
    decreases secs.len(),
{
    if secs.len() == 0 {
        (false, false)
    } else {
        let (e, d) = section_state(src, n, secs.drop_last());
        let name = section_name(src, n, secs.last());
        if name == "[enable]"@ {
            (true, d)
        } else if name == "[disable]"@ {
            (e, true)
        } else {
            (e, d)
        }
    }
}

/// `[ENABLE]` after any section header is misplaced, and so is `[DISABLE]`
/// twice or before `[ENABLE]`.
pub open spec fn section_invalid(name: Seq<char>, enable_seen: bool, disable_seen: bool) -> bool {
    if name == "[enable]"@ {
        enable_seen || disable_seen
    } else if name == "[disable]"@ {
        disable_seen || !enable_seen
    } else {
        false
    }
}

pub open spec fn section_diagnostics(src: Seq<u8>, n: Seq<SyntaxNode>, secs: Seq<int>) -> Seq<
    DiagnosticView,
>
    decreases secs.len(),
{
    if secs.len() == 0 {
        Seq::empty()
    } else {
        let (e, d) = section_state(src, n, secs.drop_last());
        let i = secs.last();
        let name = section_name(src, n, i);
        section_diagnostics(src, n, secs.drop_last()) + if section_invalid(name, e, d) {
            seq![diagnostic(node_range(src, n, i), "invalid section usage: "@ + name)]
        } else {
            Seq::empty()
        }
    }
}

pub open spec fn origin_range() -> Range {
    Range { start: Position { line: 0, character: 0 }, end: Position { line: 0, character: 0 } }
}

pub open spec fn missing_section_diagnostics(enable_seen: bool, disable_seen: bool) -> Seq<
    DiagnosticView,
> {
    (if !enable_seen {
        seq![diagnostic(origin_range(), "missing required [ENABLE] section"@)]
    } else {
        Seq::empty()
    }) + (if !disable_seen {
        seq![diagnostic(origin_range(), "missing required [DISABLE] section"@)]
    } else {
        Seq::empty()
    })
}

// ---------------------------------------------------------------- commands

pub open spec fn comma_count(s: Seq<char>) -> nat
    decreases s.len(),
{
    if s.len() == 0 {
        0
    } else {
        comma_count(s.drop_last()) + if s.last() == ',' {
            1nat
        } else {
            0nat
        }
    }
}

pub open spec fn has_content(s: Seq<char>) -> bool {
    exists|j: int| 0 <= j < s.len() && !is_whitespace_char(#[trigger] s[j])
}

/// Arguments of a command as written: one when the argument text is not
/// blank, plus one per comma.
pub open spec fn argument_count(src: Seq<u8>, n: Seq<SyntaxNode>, i: int) -> nat {
    match argument_list(n, i) {
        None => 0,
        Some(a) => {
            let t = text_or_empty(src, n, a);
            (if has_content(t) {
                1nat
            } else {
                0nat
            }) + comma_count(t)
        },
    }
}

/// The documented arities of the commands that have one.
pub open spec fn arguments_valid(name: Seq<char>, count: nat) -> bool {
    if name == "alloc"@ || name == "allocnx"@ || name == "allocxo"@ || name == "globalalloc"@ {
        2 <= count <= 3
    } else if name == "kalloc"@ {
        count == 2
    } else if name == "define"@ || name == "aobscan"@ || name == "assert"@ {
        count == 2
    } else if name == "aobscanmodule"@ {
        count == 3
    } else if name == "aobscanregion"@ {
        count == 4
    } else if name == "dealloc"@ || name == "createthread"@ || name == "include"@ || name
        == "loadlibrary"@ || name == "reassemble"@ {
        count == 1
    } else if name == "createthreadandwait"@ {
        1 <= count <= 2
    } else if name == "label"@ || name == "registersymbol"@ || name == "unregistersymbol"@ {
        count >= 1
    } else if name == "fullaccess"@ || name == "loadbinary"@ || name == "readmem"@ {
        count == 2
    } else {
        true
    }
}

pub open spec fn command_check(src: Seq<u8>, n: Seq<SyntaxNode>, i: int) -> Seq<DiagnosticView> {
    match field_child(n, i, FieldName::Name) {
        None => Seq::empty(),
        Some(nm) => {
            let count = argument_count(src, n, i);
            let written = text_or_empty(src, n, nm);
            if arguments_valid(lower_chars(written), count) {
                Seq::empty()
            } else {
                seq![
                    diagnostic(
                        node_range(src, n, i),
                        "invalid arguments for `"@ + written + "`: received "@ + dec_text(count),
                    ),
                ]
            }
        },
    }
}

/// The documented arities: a command with a name gets one "invalid
/// arguments" diagnostic, naming the command as written and the count of
/// its written arguments, exactly when that count is not one its name (in
/// any letter case) accepts. `alloc`, `allocnx`, `allocxo` and `globalalloc`
/// take 2 or 3 arguments (the third is the address to allocate near);
/// `kalloc`, `define`, `aobscan`, `assert`, `fullaccess`, `loadbinary` and
/// `readmem` take 2; `aobscanmodule` 3; `aobscanregion` 4; `dealloc`,
/// `createthread`, `include`, `loadlibrary` and `reassemble` 1;
/// `createthreadandwait` 1 or 2; `label`, `registersymbol` and
/// `unregistersymbol` at least 1; other commands any number.
pub proof fn law_documented_command_arities(src: Seq<u8>, n: Seq<SyntaxNode>, i: int, nm: int)
    requires
        field_child(n, i, FieldName::Name) == Some(nm),
    ensures
        (lower_chars(text_or_empty(src, n, nm)) == "alloc"@ || lower_chars(text_or_empty(src, n, nm)) == "allocnx"@ || lower_chars(text_or_empty(src, n, nm)) == "allocxo"@ || lower_chars(text_or_empty(src, n, nm)) == "globalalloc"@) ==> (command_check(src, n, i).len() == 0 <==> 2 <= argument_count(src, n, i) <= 3),
        (lower_chars(text_or_empty(src, n, nm)) == "kalloc"@) ==> (command_check(src, n, i).len() == 0 <==> argument_count(src, n, i) == 2),
        (lower_chars(text_or_empty(src, n, nm)) == "define"@ || lower_chars(text_or_empty(src, n, nm)) == "aobscan"@ || lower_chars(text_or_empty(src, n, nm)) == "assert"@) ==> (command_check(src, n, i).len() == 0 <==> argument_count(src, n, i) == 2),
        (lower_chars(text_or_empty(src, n, nm)) == "aobscanmodule"@) ==> (command_check(src, n, i).len() == 0 <==> argument_count(src, n, i) == 3),
        (lower_chars(text_or_empty(src, n, nm)) == "aobscanregion"@) ==> (command_check(src, n, i).len() == 0 <==> argument_count(src, n, i) == 4),
        (lower_chars(text_or_empty(src, n, nm)) == "dealloc"@ || lower_chars(text_or_empty(src, n, nm)) == "createthread"@ || lower_chars(text_or_empty(src, n, nm)) == "include"@ || lower_chars(text_or_empty(src, n, nm)) == "loadlibrary"@ || lower_chars(text_or_empty(src, n, nm)) == "reassemble"@) ==> (command_check(src, n, i).len() == 0 <==> argument_count(src, n, i) == 1),
        (lower_chars(text_or_empty(src, n, nm)) == "createthreadandwait"@) ==> (command_check(src, n, i).len() == 0 <==> 1 <= argument_count(src, n, i) <= 2),
        (lower_chars(text_or_empty(src, n, nm)) == "label"@ || lower_chars(text_or_empty(src, n, nm)) == "registersymbol"@ || lower_chars(text_or_empty(src, n, nm)) == "unregistersymbol"@) ==> (command_check(src, n, i).len() == 0 <==> argument_count(src, n, i) >= 1),
        (lower_chars(text_or_empty(src, n, nm)) == "fullaccess"@ || lower_chars(text_or_empty(src, n, nm)) == "loadbinary"@ || lower_chars(text_or_empty(src, n, nm)) == "readmem"@) ==> (command_check(src, n, i).len() == 0 <==> argument_count(src, n, i) == 2),
        (lower_chars(text_or_empty(src, n, nm)) != "alloc"@ && lower_chars(text_or_empty(src, n, nm)) != "allocnx"@ && lower_chars(text_or_empty(src, n, nm)) != "allocxo"@ && lower_chars(text_or_empty(src, n, nm)) != "globalalloc"@ && lower_chars(text_or_empty(src, n, nm)) != "kalloc"@ && lower_chars(text_or_empty(src, n, nm)) != "define"@ && lower_chars(text_or_empty(src, n, nm)) != "aobscan"@ && lower_chars(text_or_empty(src, n, nm)) != "assert"@ && lower_chars(text_or_empty(src, n, nm)) != "aobscanmodule"@ && lower_chars(text_or_empty(src, n, nm)) != "aobscanregion"@ && lower_chars(text_or_empty(src, n, nm)) != "dealloc"@ && lower_chars(text_or_empty(src, n, nm)) != "createthread"@ && lower_chars(text_or_empty(src, n, nm)) != "include"@ && lower_chars(text_or_empty(src, n, nm)) != "loadlibrary"@ && lower_chars(text_or_empty(src, n, nm)) != "reassemble"@ && lower_chars(text_or_empty(src, n, nm)) != "createthreadandwait"@ && lower_chars(text_or_empty(src, n, nm)) != "label"@ && lower_chars(text_or_empty(src, n, nm)) != "registersymbol"@ && lower_chars(text_or_empty(src, n, nm)) != "unregistersymbol"@ && lower_chars(text_or_empty(src, n, nm)) != "fullaccess"@ && lower_chars(text_or_empty(src, n, nm)) != "loadbinary"@ && lower_chars(text_or_empty(src, n, nm)) != "readmem"@) ==> command_check(src, n, i).len() == 0,
        !(command_check(src, n, i).len() == 0) ==> command_check(src, n, i) == seq![
            diagnostic(
                node_range(src, n, i),
                "invalid arguments for `"@ + text_or_empty(src, n, nm) + "`: received "@ + dec_text(argument_count(src, n, i)),
            ),
        ],
{
    reveal_strlit("alloc");
    reveal_strlit("allocnx");
    reveal_strlit("allocxo");
    reveal_strlit("globalalloc");
    reveal_strlit("kalloc");
    reveal_strlit("define");
    reveal_strlit("aobscan");
    reveal_strlit("assert");
    reveal_strlit("aobscanmodule");
    reveal_strlit("aobscanregion");
    reveal_strlit("dealloc");
    reveal_strlit("createthread");
    reveal_strlit("include");
    reveal_strlit("loadlibrary");
    reveal_strlit("reassemble");
    reveal_strlit("createthreadandwait");
    reveal_strlit("label");
    reveal_strlit("registersymbol");
    reveal_strlit("unregistersymbol");
    reveal_strlit("fullaccess");
    reveal_strlit("loadbinary");
    reveal_strlit("readmem");
    assert("kalloc"@.len() != "alloc"@.len());
    assert("kalloc"@.len() != "allocnx"@.len());
    assert("kalloc"@.len() != "allocxo"@.len());
    assert("kalloc"@.len() != "globalalloc"@.len());
    assert("define"@.len() != "alloc"@.len());
    assert("define"@.len() != "allocnx"@.len());
    assert("define"@.len() != "allocxo"@.len());
    assert("define"@.len() != "globalalloc"@.len());
    assert("define"@[0] != "kalloc"@[0]);
    assert("aobscan"@.len() != "alloc"@.len());
    assert("aobscan"@[1] != "allocnx"@[1]);
    assert("aobscan"@[1] != "allocxo"@[1]);
    assert("aobscan"@.len() != "globalalloc"@.len());
    assert("aobscan"@.len() != "kalloc"@.len());
    assert("assert"@.len() != "alloc"@.len());
    assert("assert"@.len() != "allocnx"@.len());
    assert("assert"@.len() != "allocxo"@.len());
    assert("assert"@.len() != "globalalloc"@.len());
    assert("assert"@[0] != "kalloc"@[0]);
    assert("aobscanmodule"@.len() != "alloc"@.len());
    assert("aobscanmodule"@.len() != "allocnx"@.len());
    assert("aobscanmodule"@.len() != "allocxo"@.len());
    assert("aobscanmodule"@.len() != "globalalloc"@.len());
    assert("aobscanmodule"@.len() != "kalloc"@.len());
    assert("aobscanmodule"@.len() != "define"@.len());
    assert("aobscanmodule"@.len() != "aobscan"@.len());
    assert("aobscanmodule"@.len() != "assert"@.len());
    assert("aobscanregion"@.len() != "alloc"@.len());
    assert("aobscanregion"@.len() != "allocnx"@.len());
    assert("aobscanregion"@.len() != "allocxo"@.len());
    assert("aobscanregion"@.len() != "globalalloc"@.len());
    assert("aobscanregion"@.len() != "kalloc"@.len());
    assert("aobscanregion"@.len() != "define"@.len());
    assert("aobscanregion"@.len() != "aobscan"@.len());
    assert("aobscanregion"@.len() != "assert"@.len());
    assert("aobscanregion"@[7] != "aobscanmodule"@[7]);
    assert("dealloc"@.len() != "alloc"@.len());
    assert("dealloc"@[0] != "allocnx"@[0]);
    assert("dealloc"@[0] != "allocxo"@[0]);
    assert("dealloc"@.len() != "globalalloc"@.len());
    assert("dealloc"@.len() != "kalloc"@.len());
    assert("dealloc"@.len() != "define"@.len());
    assert("dealloc"@[0] != "aobscan"@[0]);
    assert("dealloc"@.len() != "assert"@.len());
    assert("dealloc"@.len() != "aobscanmodule"@.len());
    assert("dealloc"@.len() != "aobscanregion"@.len());
    assert("createthread"@.len() != "alloc"@.len());
    assert("createthread"@.len() != "allocnx"@.len());
    assert("createthread"@.len() != "allocxo"@.len());
    assert("createthread"@.len() != "globalalloc"@.len());
    assert("createthread"@.len() != "kalloc"@.len());
    assert("createthread"@.len() != "define"@.len());
    assert("createthread"@.len() != "aobscan"@.len());
    assert("createthread"@.len() != "assert"@.len());
    assert("createthread"@.len() != "aobscanmodule"@.len());
    assert("createthread"@.len() != "aobscanregion"@.len());
    assert("include"@.len() != "alloc"@.len());
    assert("include"@[0] != "allocnx"@[0]);
    assert("include"@[0] != "allocxo"@[0]);
    assert("include"@.len() != "globalalloc"@.len());
    assert("include"@.len() != "kalloc"@.len());
    assert("include"@.len() != "define"@.len());
    assert("include"@[0] != "aobscan"@[0]);
    assert("include"@.len() != "assert"@.len());
    assert("include"@.len() != "aobscanmodule"@.len());
    assert("include"@.len() != "aobscanregion"@.len());
    assert("loadlibrary"@.len() != "alloc"@.len());
    assert("loadlibrary"@.len() != "allocnx"@.len());
    assert("loadlibrary"@.len() != "allocxo"@.len());
    assert("loadlibrary"@[0] != "globalalloc"@[0]);
    assert("loadlibrary"@.len() != "kalloc"@.len());
    assert("loadlibrary"@.len() != "define"@.len());
    assert("loadlibrary"@.len() != "aobscan"@.len());
    assert("loadlibrary"@.len() != "assert"@.len());
    assert("loadlibrary"@.len() != "aobscanmodule"@.len());
    assert("loadlibrary"@.len() != "aobscanregion"@.len());
    assert("reassemble"@.len() != "alloc"@.len());
    assert("reassemble"@.len() != "allocnx"@.len());
    assert("reassemble"@.len() != "allocxo"@.len());
    assert("reassemble"@.len() != "globalalloc"@.len());
    assert("reassemble"@.len() != "kalloc"@.len());
    assert("reassemble"@.len() != "define"@.len());
    assert("reassemble"@.len() != "aobscan"@.len());
    assert("reassemble"@.len() != "assert"@.len());
    assert("reassemble"@.len() != "aobscanmodule"@.len());
    assert("reassemble"@.len() != "aobscanregion"@.len());
    assert("createthreadandwait"@.len() != "alloc"@.len());
    assert("createthreadandwait"@.len() != "allocnx"@.len());
    assert("createthreadandwait"@.len() != "allocxo"@.len());
    assert("createthreadandwait"@.len() != "globalalloc"@.len());
    assert("createthreadandwait"@.len() != "kalloc"@.len());
    assert("createthreadandwait"@.len() != "define"@.len());
    assert("createthreadandwait"@.len() != "aobscan"@.len());
    assert("createthreadandwait"@.len() != "assert"@.len());
    assert("createthreadandwait"@.len() != "aobscanmodule"@.len());
    assert("createthreadandwait"@.len() != "aobscanregion"@.len());
    assert("createthreadandwait"@.len() != "dealloc"@.len());
    assert("createthreadandwait"@.len() != "createthread"@.len());
    assert("createthreadandwait"@.len() != "include"@.len());
    assert("createthreadandwait"@.len() != "loadlibrary"@.len());
    assert("createthreadandwait"@.len() != "reassemble"@.len());
    assert("label"@[0] != "alloc"@[0]);
    assert("label"@.len() != "allocnx"@.len());
    assert("label"@.len() != "allocxo"@.len());
    assert("label"@.len() != "globalalloc"@.len());
    assert("label"@.len() != "kalloc"@.len());
    assert("label"@.len() != "define"@.len());
    assert("label"@.len() != "aobscan"@.len());
    assert("label"@.len() != "assert"@.len());
    assert("label"@.len() != "aobscanmodule"@.len());
    assert("label"@.len() != "aobscanregion"@.len());
    assert("label"@.len() != "dealloc"@.len());
    assert("label"@.len() != "createthread"@.len());
    assert("label"@.len() != "include"@.len());
    assert("label"@.len() != "loadlibrary"@.len());
    assert("label"@.len() != "reassemble"@.len());
    assert("label"@.len() != "createthreadandwait"@.len());
    assert("registersymbol"@.len() != "alloc"@.len());
    assert("registersymbol"@.len() != "allocnx"@.len());
    assert("registersymbol"@.len() != "allocxo"@.len());
    assert("registersymbol"@.len() != "globalalloc"@.len());
    assert("registersymbol"@.len() != "kalloc"@.len());
    assert("registersymbol"@.len() != "define"@.len());
    assert("registersymbol"@.len() != "aobscan"@.len());
    assert("registersymbol"@.len() != "assert"@.len());
    assert("registersymbol"@.len() != "aobscanmodule"@.len());
    assert("registersymbol"@.len() != "aobscanregion"@.len());
    assert("registersymbol"@.len() != "dealloc"@.len());
    assert("registersymbol"@.len() != "createthread"@.len());
    assert("registersymbol"@.len() != "include"@.len());
    assert("registersymbol"@.len() != "loadlibrary"@.len());
    assert("registersymbol"@.len() != "reassemble"@.len());
    assert("registersymbol"@.len() != "createthreadandwait"@.len());
    assert("unregistersymbol"@.len() != "alloc"@.len());
    assert("unregistersymbol"@.len() != "allocnx"@.len());
    assert("unregistersymbol"@.len() != "allocxo"@.len());
    assert("unregistersymbol"@.len() != "globalalloc"@.len());
    assert("unregistersymbol"@.len() != "kalloc"@.len());
    assert("unregistersymbol"@.len() != "define"@.len());
    assert("unregistersymbol"@.len() != "aobscan"@.len());
    assert("unregistersymbol"@.len() != "assert"@.len());
    assert("unregistersymbol"@.len() != "aobscanmodule"@.len());
    assert("unregistersymbol"@.len() != "aobscanregion"@.len());
    assert("unregistersymbol"@.len() != "dealloc"@.len());
    assert("unregistersymbol"@.len() != "createthread"@.len());
    assert("unregistersymbol"@.len() != "include"@.len());
    assert("unregistersymbol"@.len() != "loadlibrary"@.len());
    assert("unregistersymbol"@.len() != "reassemble"@.len());
    assert("unregistersymbol"@.len() != "createthreadandwait"@.len());
    assert("fullaccess"@.len() != "alloc"@.len());
    assert("fullaccess"@.len() != "allocnx"@.len());
    assert("fullaccess"@.len() != "allocxo"@.len());
    assert("fullaccess"@.len() != "globalalloc"@.len());
    assert("fullaccess"@.len() != "kalloc"@.len());
    assert("fullaccess"@.len() != "define"@.len());
    assert("fullaccess"@.len() != "aobscan"@.len());
    assert("fullaccess"@.len() != "assert"@.len());
    assert("fullaccess"@.len() != "aobscanmodule"@.len());
    assert("fullaccess"@.len() != "aobscanregion"@.len());
    assert("fullaccess"@.len() != "dealloc"@.len());
    assert("fullaccess"@.len() != "createthread"@.len());
    assert("fullaccess"@.len() != "include"@.len());
    assert("fullaccess"@.len() != "loadlibrary"@.len());
    assert("fullaccess"@[0] != "reassemble"@[0]);
    assert("fullaccess"@.len() != "createthreadandwait"@.len());
    assert("fullaccess"@.len() != "label"@.len());
    assert("fullaccess"@.len() != "registersymbol"@.len());
    assert("fullaccess"@.len() != "unregistersymbol"@.len());
    assert("loadbinary"@.len() != "alloc"@.len());
    assert("loadbinary"@.len() != "allocnx"@.len());
    assert("loadbinary"@.len() != "allocxo"@.len());
    assert("loadbinary"@.len() != "globalalloc"@.len());
    assert("loadbinary"@.len() != "kalloc"@.len());
    assert("loadbinary"@.len() != "define"@.len());
    assert("loadbinary"@.len() != "aobscan"@.len());
    assert("loadbinary"@.len() != "assert"@.len());
    assert("loadbinary"@.len() != "aobscanmodule"@.len());
    assert("loadbinary"@.len() != "aobscanregion"@.len());
    assert("loadbinary"@.len() != "dealloc"@.len());
    assert("loadbinary"@.len() != "createthread"@.len());
    assert("loadbinary"@.len() != "include"@.len());
    assert("loadbinary"@.len() != "loadlibrary"@.len());
    assert("loadbinary"@[0] != "reassemble"@[0]);
    assert("loadbinary"@.len() != "createthreadandwait"@.len());
    assert("loadbinary"@.len() != "label"@.len());
    assert("loadbinary"@.len() != "registersymbol"@.len());
    assert("loadbinary"@.len() != "unregistersymbol"@.len());
    assert("readmem"@.len() != "alloc"@.len());
    assert("readmem"@[0] != "allocnx"@[0]);
    assert("readmem"@[0] != "allocxo"@[0]);
    assert("readmem"@.len() != "globalalloc"@.len());
    assert("readmem"@.len() != "kalloc"@.len());
    assert("readmem"@.len() != "define"@.len());
    assert("readmem"@[0] != "aobscan"@[0]);
    assert("readmem"@.len() != "assert"@.len());
    assert("readmem"@.len() != "aobscanmodule"@.len());
    assert("readmem"@.len() != "aobscanregion"@.len());
    assert("readmem"@[0] != "dealloc"@[0]);
    assert("readmem"@.len() != "createthread"@.len());
    assert("readmem"@[0] != "include"@[0]);
    assert("readmem"@.len() != "loadlibrary"@.len());
    assert("readmem"@.len() != "reassemble"@.len());
    assert("readmem"@.len() != "createthreadandwait"@.len());
    assert("readmem"@.len() != "label"@.len());
    assert("readmem"@.len() != "registersymbol"@.len());
    assert("readmem"@.len() != "unregistersymbol"@.len());
}

pub open spec fn command_diagnostics(src: Seq<u8>, n: Seq<SyntaxNode>, cmds: Seq<int>) -> Seq<
    DiagnosticView,
>
    decreases cmds.len(),
{
    if cmds.len() == 0 {
        Seq::empty()
    } else {
        command_diagnostics(src, n, cmds.drop_last()) + command_check(src, n, cmds.last())
    }
}

// ------------------------------------------------------------ value notation

pub open spec fn is_value_cast(t: Seq<char>) -> bool {
    let l = lower_chars(t);
    l == "(int)"@ || l == "(float)"@ || l == "(double)"@
}

/// A value cast that is not part of a typed number lacks its value.
pub open spec fn notation_own(src: Seq<u8>, n: Seq<SyntaxNode>, i: int) -> Seq<DiagnosticView> {
    if n[i].kind == NodeKind::TypeCast && (match n[i].parent {
        None => true,
        Some(p) => n[p as int].kind != NodeKind::TypedNumber,
    }) {
        match node_text(src, n, i) {
            Some(t) => if is_value_cast(t) {
                seq![
                    diagnostic(
                        node_range(src, n, i),
                        "invalid value notation: `"@ + t + "` must be followed by a decimal value"@,
                    ),
                ]
            } else {
                Seq::empty()
            },
            None => Seq::empty(),
        }
    } else {
        Seq::empty()
    }
}

pub open spec fn notation_diagnostics(src: Seq<u8>, n: Seq<SyntaxNode>, i: int) -> Seq<DiagnosticView>
    decreases n.len() - i, 1int, 0int,
{
    if i < 0 || i >= n.len() {
        Seq::empty()
    } else {
        notation_own(src, n, i) + notation_children(src, n, i, 0)
    }
}

pub open spec fn notation_children(src: Seq<u8>, n: Seq<SyntaxNode>, i: int, k: int) -> Seq<
    DiagnosticView,
>
    decreases n.len() - i, 0int, n[i].children@.len() - k,
{
    if 0 <= i < n.len() && 0 <= k < n[i].children@.len() {
        let c = n[i].children@[k] as int;
        (if i < c < n.len() && n[c].is_named {
            notation_diagnostics(src, n, c)
        } else {
            Seq::empty()
        }) + notation_children(src, n, i, k + 1)
    } else {
        Seq::empty()
    }
}

/// The structural checks of a script: sections, command arities and value notation.
pub open spec fn structure_diagnostics(src: Seq<u8>, n: Seq<SyntaxNode>) -> Seq<DiagnosticView> {
    let secs = kind_nodes(n, 0, NodeKind::SectionHeader);
    let (e, d) = section_state(src, n, secs);
    section_diagnostics(src, n, secs) + missing_section_diagnostics(e, d) + command_diagnostics(
        src,
        n,
        kind_nodes(n, 0, NodeKind::AaCommand),
    ) + notation_diagnostics(src, n, 0)
}

// ------------------------------------------------------------------ exec

fn push_diagnostic(out: &mut Vec<CeaDiagnostic>, range: Range, message: String)
    ensures
        diagnostic_views(final(out)@) == diagnostic_views(old(out)@).push(diagnostic(range, message@)),
{
    out.push(CeaDiagnostic::new(range, message));
    assert(diagnostic_views(out@) =~= diagnostic_views(old(out)@).push(diagnostic(range, message@)));
}

fn text_or_empty_of(tree: &SyntaxTree, src: &[u8], i: usize) -> (r: String)
    requires
        i < tree.nodes_view().len(),
    ensures
        r@ == text_or_empty(src@, tree.nodes_view(), i as int),
{
    match tree.text(src, i) {
        Some(t) => t,
        None => String::new(),
    }
}

fn text_is(s: &String, lit: &str) -> (r: bool)
    ensures
        r == (s@ == lit@),
{
    *s == String::from_str(lit)
}

pub(crate) fn collect_errors(tree: &SyntaxTree, src: &[u8], i: usize, reported: bool, out: &mut Vec<CeaDiagnostic>)
    requires
        i < tree.nodes_view().len(),
    ensures
        diagnostic_views(final(out)@) == diagnostic_views(old(out)@) + error_diagnostics(
            src@,
            tree.nodes_view(),
            i as int,
            reported,
        ),
    decreases tree.nodes_view().len() - i,
{
    let ghost n = tree.nodes_view();
    let node = tree.node(i);
    let report = !reported && (node.is_error || node.is_missing);
    if report {
        let message = if node.is_missing {
            let mut m = String::from_str("expected ");
            m.append(node.kind_name.as_str());
            m
        } else {
            String::from_str("could not parse this CEA syntax")
        };
        assert(message@ == error_message(n[i as int]));
        push_diagnostic(out, tree.range(src, i), message);
    }
    let ghost mid = diagnostic_views(out@);
    assert(mid == diagnostic_views(old(out)@) + (if report {
        seq![diagnostic(node_range(src@, n, i as int), error_message(n[i as int]))]
    } else {
        Seq::empty()
    }));
    let below = reported || report;
    let count = node.children.len();
    let mut k: usize = 0;
    while k < count
        invariant
            i < n.len(),
            n == tree.nodes_view(),
            count == n[i as int].children@.len(),
            k <= count,
            diagnostic_views(out@) + error_children(src@, n, i as int, k as int, below) == mid
                + error_children(src@, n, i as int, 0, below),
        decreases count - k,
    {
        let c = tree.child(i, k);
        collect_errors(tree, src, c, below, out);
        assert(error_children(src@, n, i as int, k as int, below) == error_diagnostics(
            src@,
            n,
            c as int,
            below,
        ) + error_children(src@, n, i as int, k + 1, below));
        k = k + 1;
    }
    assert(error_children(src@, n, i as int, k as int, below) =~= Seq::<DiagnosticView>::empty());
}

fn collect_kind(tree: &SyntaxTree, i: usize, kind: NodeKind, out: &mut Vec<usize>)
    requires
        i < tree.nodes_view().len(),
        forall|j: int| 0 <= j < old(out)@.len() ==> #[trigger] old(out)@[j] < tree.nodes_view().len(),
    ensures
        final(out)@.map_values(|c: usize| c as int) == old(out)@.map_values(|c: usize| c as int)
            + kind_nodes(tree.nodes_view(), i as int, kind),
        forall|j: int| 0 <= j < final(out)@.len() ==> #[trigger] final(out)@[j] < tree.nodes_view().len(),
    decreases tree.nodes_view().len() - i,
{
    let ghost n = tree.nodes_view();
    let node_kind = tree.node(i).kind;
    if node_kind == NodeKind::LuaChunk {
        assert(out@.map_values(|c: usize| c as int) =~= old(out)@.map_values(|c: usize| c as int)
            + kind_nodes(n, i as int, kind));
        return;
    }
    if node_kind == kind {
        out.push(i);
    }
    let ghost mid = out@.map_values(|c: usize| c as int);
    assert(mid =~= old(out)@.map_values(|c: usize| c as int) + (if n[i as int].kind == kind {
        seq![i as int]
    } else {
        Seq::empty()
    }));
    let count = tree.node(i).children.len();
    let mut k: usize = 0;
    while k < count
        invariant
            i < n.len(),
            n == tree.nodes_view(),
            n[i as int].kind != NodeKind::LuaChunk,
            count == n[i as int].children@.len(),
            k <= count,
            forall|j: int| 0 <= j < out@.len() ==> #[trigger] out@[j] < n.len(),
            out@.map_values(|c: usize| c as int) + kind_children(n, i as int, kind, k as int) == mid
                + kind_children(n, i as int, kind, 0),
        decreases count - k,
    {
        let c = tree.child(i, k);
        if tree.node(c).is_named {
            collect_kind(tree, c, kind, out);
        }
        assert(kind_children(n, i as int, kind, k as int) == (if n[c as int].is_named {
            kind_nodes(n, c as int, kind)
        } else {
            Seq::empty()
        }) + kind_children(n, i as int, kind, k + 1));
        k = k + 1;
    }
    assert(kind_children(n, i as int, kind, k as int) =~= Seq::<int>::empty());
}

fn check_sections(tree: &SyntaxTree, src: &[u8], secs: &Vec<usize>, out: &mut Vec<CeaDiagnostic>) -> (r: (
    bool,
    bool,
))
    requires
        forall|j: int| 0 <= j < secs@.len() ==> #[trigger] secs@[j] < tree.nodes_view().len(),
    ensures
        ({
            let s = secs@.map_values(|c: usize| c as int);
            &&& diagnostic_views(final(out)@) == diagnostic_views(old(out)@) + section_diagnostics(
                src@,
                tree.nodes_view(),
                s,
            )
            &&& r == section_state(src@, tree.nodes_view(), s)
        }),
{
    let ghost n = tree.nodes_view();
    let ghost all = secs@.map_values(|c: usize| c as int);
    let mut enable_seen = false;
    let mut disable_seen = false;
    let mut j: usize = 0;
    assert(all.subrange(0, 0) =~= Seq::<int>::empty());
    while j < secs.len()
        invariant
            j <= secs@.len(),
            n == tree.nodes_view(),
            all == secs@.map_values(|c: usize| c as int),
            forall|q: int| 0 <= q < secs@.len() ==> #[trigger] secs@[q] < n.len(),
            (enable_seen, disable_seen) == section_state(src@, n, all.subrange(0, j as int)),
            diagnostic_views(out@) == diagnostic_views(old(out)@) + section_diagnostics(
                src@,
                n,
                all.subrange(0, j as int),
            ),
        decreases secs@.len() - j,
    {
        let i = secs[j];
        assert(all.subrange(0, j + 1).drop_last() =~= all.subrange(0, j as int));
        assert(all.subrange(0, j + 1).last() == i as int);
        let text = text_or_empty_of(tree, src, i);
        let name = ascii_lowercase(text.as_str());
        let is_enable = text_is(&name, "[enable]");
        let is_disable = text_is(&name, "[disable]");
        let invalid = if is_enable {
            enable_seen || disable_seen
        } else if is_disable {
            disable_seen || !enable_seen
        } else {
            false
        };
        if invalid {
            let mut message = String::from_str("invalid section usage: ");
            message.append(name.as_str());
            push_diagnostic(out, tree.range(src, i), message);
        }
        if is_enable {
            enable_seen = true;
        } else if is_disable {
            disable_seen = true;
        }
        j = j + 1;
    }
    assert(all.subrange(0, j as int) =~= all);
    (enable_seen, disable_seen)
}

fn count_commas(s: &str) -> (r: usize)
    ensures
        r == comma_count(s@),
        r <= s@.len(),
{
    let len = s.unicode_len();
    let mut count: usize = 0;
    let mut i: usize = 0;
    while i < len
        invariant
            len == s@.len(),
            i <= len,
            count == comma_count(s@.subrange(0, i as int)),
            count <= i,
        decreases len - i,
    {
        assert(s@.subrange(0, i + 1).drop_last() =~= s@.subrange(0, i as int));
        if s.get_char(i) == ',' {
            count = count + 1;
        }
        i = i + 1;
    }
    assert(s@.subrange(0, i as int) =~= s@);
    count
}

fn count_arguments(tree: &SyntaxTree, src: &[u8], i: usize) -> (r: u128)
    requires
        i < tree.nodes_view().len(),
    ensures
        r == argument_count(src@, tree.nodes_view(), i as int),
{
    match tree.argument_list(i) {
        None => 0,
        Some(a) => {
            let t = text_or_empty_of(tree, src, a);
            let commas = count_commas(t.as_str()) as u128;
            if has_non_whitespace(t.as_str()) {
                commas + 1
            } else {
                commas
            }
        },
    }
}

fn arity_valid(name: &String, count: u128) -> (r: bool)
    ensures
        r == arguments_valid(name@, count as nat),
{
    if text_is(name, "alloc") || text_is(name, "allocnx") || text_is(name, "allocxo") || text_is(
        name,
        "globalalloc",
    ) {
        2 <= count && count <= 3
    } else if text_is(name, "kalloc") {
        count == 2
    } else if text_is(name, "define") || text_is(name, "aobscan") || text_is(name, "assert") {
        count == 2
    } else if text_is(name, "aobscanmodule") {
        count == 3
    } else if text_is(name, "aobscanregion") {
        count == 4
    } else if text_is(name, "dealloc") || text_is(name, "createthread") || text_is(name, "include")
        || text_is(name, "loadlibrary") || text_is(name, "reassemble") {
        count == 1
    } else if text_is(name, "createthreadandwait") {
        1 <= count && count <= 2
    } else if text_is(name, "label") || text_is(name, "registersymbol") || text_is(
        name,
        "unregistersymbol",
    ) {
        count >= 1
    } else if text_is(name, "fullaccess") || text_is(name, "loadbinary") || text_is(name, "readmem") {
        count == 2
    } else {
        true
    }
}

fn check_command(tree: &SyntaxTree, src: &[u8], i: usize, out: &mut Vec<CeaDiagnostic>)
    requires
        i < tree.nodes_view().len(),
    ensures
        diagnostic_views(final(out)@) == diagnostic_views(old(out)@) + command_check(
            src@,
            tree.nodes_view(),
            i as int,
        ),
{
    let name_node = match tree.field_child(i, FieldName::Name) {
        Some(c) => c,
        None => {
            assert(diagnostic_views(out@) =~= diagnostic_views(old(out)@) + command_check(
                src@,
                tree.nodes_view(),
                i as int,
            ));
            return;
        },
    };
    let count = count_arguments(tree, src, i);
    let written = text_or_empty_of(tree, src, name_node);
    let lower = ascii_lowercase(written.as_str());
    if arity_valid(&lower, count) {
        assert(diagnostic_views(out@) =~= diagnostic_views(old(out)@) + command_check(
            src@,
            tree.nodes_view(),
            i as int,
        ));
    } else {
        let mut message = String::from_str("invalid arguments for `");
        message.append(written.as_str());
        message.append("`: received ");
        push_radix(&mut message, count, 10);
        push_diagnostic(out, tree.range(src, i), message);
    }
}

fn check_commands(tree: &SyntaxTree, src: &[u8], cmds: &Vec<usize>, out: &mut Vec<CeaDiagnostic>)
    requires
        forall|j: int| 0 <= j < cmds@.len() ==> #[trigger] cmds@[j] < tree.nodes_view().len(),
    ensures
        diagnostic_views(final(out)@) == diagnostic_views(old(out)@) + command_diagnostics(
            src@,
            tree.nodes_view(),
            cmds@.map_values(|c: usize| c as int),
        ),
{
    let ghost n = tree.nodes_view();
    let ghost all = cmds@.map_values(|c: usize| c as int);
    let mut j: usize = 0;
    assert(all.subrange(0, 0) =~= Seq::<int>::empty());
    assert(diagnostic_views(out@) =~= diagnostic_views(old(out)@) + command_diagnostics(
        src@,
        n,
        all.subrange(0, 0),
    ));
    while j < cmds.len()
        invariant
            j <= cmds@.len(),
            n == tree.nodes_view(),
            all == cmds@.map_values(|c: usize| c as int),
            forall|q: int| 0 <= q < cmds@.len() ==> #[trigger] cmds@[q] < n.len(),
            diagnostic_views(out@) == diagnostic_views(old(out)@) + command_diagnostics(
                src@,
                n,
                all.subrange(0, j as int),
            ),
        decreases cmds@.len() - j,
    {
        assert(all.subrange(0, j + 1).drop_last() =~= all.subrange(0, j as int));
        assert(all.subrange(0, j + 1).last() == cmds@[j as int] as int);
        check_command(tree, src, cmds[j], out);
        j = j + 1;
    }
    assert(all.subrange(0, j as int) =~= all);
}

fn is_value_cast_text(t: &String) -> (r: bool)
    ensures
        r == is_value_cast(t@),
{
    let l = ascii_lowercase(t.as_str());
    text_is(&l, "(int)") || text_is(&l, "(float)") || text_is(&l, "(double)")
}

fn collect_notation(tree: &SyntaxTree, src: &[u8], i: usize, out: &mut Vec<CeaDiagnostic>)
    requires
        i < tree.nodes_view().len(),
    ensures
        diagnostic_views(final(out)@) == diagnostic_views(old(out)@) + notation_diagnostics(
            src@,
            tree.nodes_view(),
            i as int,
        ),
    decreases tree.nodes_view().len() - i,
{
    let ghost n = tree.nodes_view();
    let outside_number = match tree.parent(i) {
        None => true,
        Some(p) => tree.node(p).kind != NodeKind::TypedNumber,
    };
    if tree.node(i).kind == NodeKind::TypeCast && outside_number {
        match tree.text(src, i) {
            Some(t) => {
                if is_value_cast_text(&t) {
                    let mut message = String::from_str("invalid value notation: `");
                    message.append(t.as_str());
                    message.append("` must be followed by a decimal value");
                    push_diagnostic(out, tree.range(src, i), message);
                }
            },
            None => {},
        }
    }
    let ghost mid = diagnostic_views(out@);
    assert(mid =~= diagnostic_views(old(out)@) + notation_own(src@, n, i as int));
    let count = tree.node(i).children.len();
    let mut k: usize = 0;
    while k < count
        invariant
            i < n.len(),
            n == tree.nodes_view(),
            count == n[i as int].children@.len(),
            k <= count,
            diagnostic_views(out@) + notation_children(src@, n, i as int, k as int) == mid
                + notation_children(src@, n, i as int, 0),
        decreases count - k,
    {
        let c = tree.child(i, k);
        if tree.node(c).is_named {
            collect_notation(tree, src, c, out);
        }
        assert(notation_children(src@, n, i as int, k as int) == (if n[c as int].is_named {
            notation_diagnostics(src@, n, c as int)
        } else {
            Seq::empty()
        }) + notation_children(src@, n, i as int, k + 1));
        k = k + 1;
    }
    assert(notation_children(src@, n, i as int, k as int) =~= Seq::<DiagnosticView>::empty());
}

/// Appends the structural diagnostics of a script (see [`structure_diagnostics`]).
pub fn structure_checks(tree: &SyntaxTree, src: &[u8], out: &mut Vec<CeaDiagnostic>)
    ensures
        diagnostic_views(final(out)@) == diagnostic_views(old(out)@) + structure_diagnostics(
            src@,
            tree.nodes_view(),
        ),
{
    let ghost n = tree.nodes_view();
    let _ = tree.len();
    let mut sections: Vec<usize> = Vec::new();
    let mut commands: Vec<usize> = Vec::new();
    collect_kind(tree, 0, NodeKind::SectionHeader, &mut sections);
    collect_kind(tree, 0, NodeKind::AaCommand, &mut commands);
    assert(sections@.map_values(|c: usize| c as int) =~= kind_nodes(n, 0, NodeKind::SectionHeader));
    assert(commands@.map_values(|c: usize| c as int) =~= kind_nodes(n, 0, NodeKind::AaCommand));
    let ghost start = diagnostic_views(out@);
    let (enable_seen, disable_seen) = check_sections(tree, src, &sections, out);
    if !enable_seen {
        push_diagnostic(out, Range::new(Position::new(0, 0), Position::new(0, 0)), String::from_str("missing required [ENABLE] section"));
    }
    if !disable_seen {
        push_diagnostic(out, Range::new(Position::new(0, 0), Position::new(0, 0)), String::from_str("missing required [DISABLE] section"));
    }
    let ghost after_missing = diagnostic_views(out@);
    assert(after_missing =~= start + section_diagnostics(src@, n, kind_nodes(n, 0, NodeKind::SectionHeader))
        + missing_section_diagnostics(enable_seen, disable_seen));
    check_commands(tree, src, &commands, out);
    collect_notation(tree, src, 0, out);
    assert(diagnostic_views(out@) =~= start + structure_diagnostics(src@, n));
}

// ------------------------------------------------------------------ labels

/// The lower-cased names of the label definitions (`name:` lines).
pub open spec fn label_definition_keys(occs: Seq<OccurrenceView>) -> Seq<Seq<char>>
    decreases occs.len(),
{
    if occs.len() == 0 {
        Seq::empty()
    } else {
        let o = occs.last();
        label_definition_keys(occs.drop_last()) + if o.kind == CeaSymbolKind::Label && o.role
            == OccurrenceRole::Definition {
            seq![lower_chars(o.name)]
        } else {
            Seq::empty()
        }
    }
}

/// A diagnostic for each declared label that `defs` does not define.
pub open spec fn undefined_label_diagnostics(occs: Seq<OccurrenceView>, defs: Seq<Seq<char>>) -> Seq<
    DiagnosticView,
>
    decreases occs.len(),
{
    if occs.len() == 0 {
        Seq::empty()
    } else {
        let o = occs.last();
        undefined_label_diagnostics(occs.drop_last(), defs) + if o.kind == CeaSymbolKind::Label
            && o.role == OccurrenceRole::Declaration && !defs.contains(lower_chars(o.name)) {
            seq![
                diagnostic(
                    o.range,
                    "label `"@ + o.name + "` is declared but never defined in this script"@,
                ),
            ]
        } else {
            Seq::empty()
        }
    }
}

/// Index of the first `':'` at or after `k`, or the length.
pub open spec fn first_colon(t: Seq<char>, k: int) -> int
    decreases t.len() - k,
{
    if k >= t.len() {
        t.len() as int
    } else if t[k] == ':' {
        k
    } else {
        first_colon(t, k + 1)
    }
}

/// The text before the first `':'`.
pub open spec fn before_colon(t: Seq<char>) -> Seq<char> {
    t.subrange(0, first_colon(t, 0))
}

/// Label definitions that share their line with code, outside Lua chunks.
pub open spec fn invalid_line_diagnostics(src: Seq<u8>, n: Seq<SyntaxNode>, i: int) -> Seq<
    DiagnosticView,
>
    decreases n.len() - i, 1int, 0int,
{
    if i < 0 || i >= n.len() || n[i].kind == NodeKind::LuaChunk {
        Seq::empty()
    } else if n[i].kind == NodeKind::InvalidLabelDefinitionLine {
        match first_named_child_from(n, i, 0) {
            Some(d) => seq![
                diagnostic(
                    node_range(src, n, d),
                    "label `"@ + before_colon(text_or_empty(src, n, d))
                        + ":` must be on its own line; only a comment may follow it"@,
                ),
            ],
            None => Seq::empty(),
        }
    } else {
        invalid_line_children(src, n, i, 0)
    }
}

pub open spec fn invalid_line_children(src: Seq<u8>, n: Seq<SyntaxNode>, i: int, k: int) -> Seq<
    DiagnosticView,
>
    decreases n.len() - i, 0int, n[i].children@.len() - k,
{
    if 0 <= i < n.len() && 0 <= k < n[i].children@.len() {
        let c = n[i].children@[k] as int;
        (if i < c < n.len() && n[c].is_named {
            invalid_line_diagnostics(src, n, c)
        } else {
            Seq::empty()
        }) + invalid_line_children(src, n, i, k + 1)
    } else {
        Seq::empty()
    }
}

pub open spec fn label_diagnostics(src: Seq<u8>, n: Seq<SyntaxNode>, occs: Seq<OccurrenceView>) -> Seq<
    DiagnosticView,
> {
    undefined_label_diagnostics(occs, label_definition_keys(occs)) + invalid_line_diagnostics(
        src,
        n,
        0,
    )
}

// ------------------------------------------------------------------ strict mode

pub open spec fn upper_byte(b: u8) -> u8 {
    if 97 <= b && b <= 122 {
        (b - 32) as u8
    } else {
        b
    }
}

/// The bytes of `{$STRICT}`.
pub open spec fn strict_directive() -> Seq<u8> {
    seq![123u8, 36u8, 83u8, 84u8, 82u8, 73u8, 67u8, 84u8, 125u8]
}

pub open spec fn strict_at(src: Seq<u8>, i: int) -> bool {
    &&& 0 <= i
    &&& i + 9 <= src.len()
    &&& forall|k: int| 0 <= k < 9 ==> upper_byte(#[trigger] src[i + k]) == strict_directive()[k]
}

/// The script contains `{$STRICT}`, in any letter case.
pub open spec fn strict_mode(src: Seq<u8>) -> bool {
    exists|i: int| strict_at(src, i)
}

/// Where an occurrence starting at `key` goes among `order`: before the
/// first one that starts after it.
pub open spec fn insertion_point(order: Seq<int>, occs: Seq<OccurrenceView>, key: Position, k: int) -> int
    decreases order.len() - k,
{
    if k >= order.len() {
        order.len() as int
    } else if key.lt(occs[order[k]].range.start) {
        k
    } else {
        insertion_point(order, occs, key, k + 1)
    }
}

/// The indices of the first `m` occurrences, stably sorted by start position.
pub open spec fn start_order(occs: Seq<OccurrenceView>, m: int) -> Seq<int>
    decreases m,
{
    if m <= 0 {
        Seq::empty()
    } else {
        let o = start_order(occs, m - 1);
        o.insert(insertion_point(o, occs, occs[m - 1].range.start, 0), m - 1)
    }
}

/// Walks the occurrences in `order`: a label definition whose name no
/// earlier label declaration names is reported. Also yields the declared names.
pub open spec fn strict_run(occs: Seq<OccurrenceView>, order: Seq<int>) -> (Seq<DiagnosticView>, Seq<
    Seq<char>,
>)
    decreases order.len(),
{
    if order.len() == 0 {
        (Seq::empty(), Seq::empty())
    } else {
        let (d, declared) = strict_run(occs, order.drop_last());
        let o = occs[order.last()];
        if o.kind != CeaSymbolKind::Label {
            (d, declared)
        } else if o.role == OccurrenceRole::Declaration {
            (d, declared.push(lower_chars(o.name)))
        } else if o.role == OccurrenceRole::Definition && !declared.contains(lower_chars(o.name)) {
            (
                d.push(
                    diagnostic(
                        o.range,
                        "`{$STRICT}` requires label `"@ + o.name + "` to be declared before use"@,
                    ),
                ),
                declared,
            )
        } else {
            (d, declared)
        }
    }
}

pub open spec fn strict_diagnostics(src: Seq<u8>, occs: Seq<OccurrenceView>) -> Seq<DiagnosticView> {
    if strict_mode(src) {
        strict_run(occs, start_order(occs, occs.len() as int)).0
    } else {
        Seq::empty()
    }
}

pub open spec fn string_views(v: Seq<String>) -> Seq<Seq<char>> {
    v.map_values(|x: String| x@)
}

fn contains_text(v: &Vec<String>, s: &String) -> (r: bool)
    ensures
        r == string_views(v@).contains(s@),
{
    let mut j: usize = 0;
    while j < v.len()
        invariant
            j <= v@.len(),
            forall|q: int| 0 <= q < j ==> v@[q]@ != s@,
        decreases v@.len() - j,
    {
        if v[j] == *s {
            assert(string_views(v@)[j as int] == s@);
            return true;
        }
        j = j + 1;
    }
    assert forall|q: int| 0 <= q < string_views(v@).len() implies string_views(v@)[q] != s@ by {
        assert(v@[q]@ != s@);
    }
    false
}

/// Appends the label diagnostics of a script (see [`label_diagnostics`]).
pub fn label_checks(tree: &SyntaxTree, src: &[u8], index: &DocumentSymbolIndex, out: &mut Vec<CeaDiagnostic>)
    ensures
        diagnostic_views(final(out)@) == diagnostic_views(old(out)@) + label_diagnostics(
            src@,
            tree.nodes_view(),
            index@,
        ),
{
    let ghost occs = index@;
    let count = index.len();
    let mut defs: Vec<String> = Vec::new();
    let mut j: usize = 0;
    while j < count
        invariant
            occs == index@,
            count == occs.len(),
            j <= count,
            string_views(defs@) == label_definition_keys(occs.subrange(0, j as int)),
        decreases count - j,
    {
        assert(occs.subrange(0, j + 1).drop_last() =~= occs.subrange(0, j as int));
        let o = index.get(j);
        if o.kind == CeaSymbolKind::Label && o.role == OccurrenceRole::Definition {
            let key = ascii_lowercase(o.name.as_str());
            defs.push(key);
        }
        assert(string_views(defs@) =~= label_definition_keys(occs.subrange(0, j + 1)));
        j = j + 1;
    }
    assert(occs.subrange(0, j as int) =~= occs);
    let ghost keys = label_definition_keys(occs);
    let mut j: usize = 0;
    assert(diagnostic_views(out@) =~= diagnostic_views(old(out)@) + undefined_label_diagnostics(
        occs.subrange(0, 0),
        keys,
    ));
    while j < count
        invariant
            occs == index@,
            count == occs.len(),
            j <= count,
            string_views(defs@) == keys,
            diagnostic_views(out@) == diagnostic_views(old(out)@) + undefined_label_diagnostics(
                occs.subrange(0, j as int),
                keys,
            ),
        decreases count - j,
    {
        assert(occs.subrange(0, j + 1).drop_last() =~= occs.subrange(0, j as int));
        let o = index.get(j);
        if o.kind == CeaSymbolKind::Label && o.role == OccurrenceRole::Declaration {
            let key = ascii_lowercase(o.name.as_str());
            if !contains_text(&defs, &key) {
                let mut message = String::from_str("label `");
                message.append(o.name.as_str());
                message.append("` is declared but never defined in this script");
                push_diagnostic(out, o.range, message);
            }
        }
        j = j + 1;
    }
    assert(occs.subrange(0, j as int) =~= occs);
    let _ = tree.len();
    collect_invalid_lines(tree, src, 0, out);
}

fn before_colon_of(t: &String) -> (r: String)
    ensures
        r@ == before_colon(t@),
{
    let len = t.as_str().unicode_len();
    let mut k: usize = 0;
    while k < len
        invariant
            len == t@.len(),
            k <= len,
            first_colon(t@, k as int) == first_colon(t@, 0),
        ensures
            k <= len,
            first_colon(t@, 0) == k,
        decreases len - k,
    {
        if t.as_str().get_char(k) == ':' {
            break;
        }
        k = k + 1;
    }
    t.as_str().substring_char(0, k).to_owned()
}

fn collect_invalid_lines(tree: &SyntaxTree, src: &[u8], i: usize, out: &mut Vec<CeaDiagnostic>)
    requires
        i < tree.nodes_view().len(),
    ensures
        diagnostic_views(final(out)@) == diagnostic_views(old(out)@) + invalid_line_diagnostics(
            src@,
            tree.nodes_view(),
            i as int,
        ),
    decreases tree.nodes_view().len() - i,
{
    let ghost n = tree.nodes_view();
    let kind = tree.node(i).kind;
    if kind == NodeKind::LuaChunk {
        assert(diagnostic_views(out@) =~= diagnostic_views(old(out)@) + invalid_line_diagnostics(
            src@,
            n,
            i as int,
        ));
        return;
    }
    if kind == NodeKind::InvalidLabelDefinitionLine {
        match tree.first_named_child(i) {
            Some(d) => {
                let text = text_or_empty_of(tree, src, d);
                let mut message = String::from_str("label `");
                let label = before_colon_of(&text);
                message.append(label.as_str());
                message.append(":` must be on its own line; only a comment may follow it");
                push_diagnostic(out, tree.range(src, d), message);
            },
            None => {
                assert(diagnostic_views(out@) =~= diagnostic_views(old(out)@)
                    + invalid_line_diagnostics(src@, n, i as int));
            },
        }
        return;
    }
    let ghost start = diagnostic_views(out@);
    let count = tree.node(i).children.len();
    let mut k: usize = 0;
    while k < count
        invariant
            i < n.len(),
            n == tree.nodes_view(),
            count == n[i as int].children@.len(),
            k <= count,
            diagnostic_views(out@) + invalid_line_children(src@, n, i as int, k as int) == start
                + invalid_line_children(src@, n, i as int, 0),
        decreases count - k,
    {
        let c = tree.child(i, k);
        if tree.node(c).is_named {
            collect_invalid_lines(tree, src, c, out);
        }
        assert(invalid_line_children(src@, n, i as int, k as int) == (if n[c as int].is_named {
            invalid_line_diagnostics(src@, n, c as int)
        } else {
            Seq::empty()
        }) + invalid_line_children(src@, n, i as int, k + 1));
        k = k + 1;
    }
    assert(invalid_line_children(src@, n, i as int, k as int) =~= Seq::<DiagnosticView>::empty());
}

fn upper(b: u8) -> (r: u8)
    ensures
        r == upper_byte(b),
{
    if 97 <= b && b <= 122 {
        b - 32
    } else {
        b
    }
}

fn strict_mode_of(src: &[u8]) -> (r: bool)
    ensures
        r == strict_mode(src@),
{
    let directive: Vec<u8> = vec![123u8, 36u8, 83u8, 84u8, 82u8, 73u8, 67u8, 84u8, 125u8];
    assert(directive@ =~= strict_directive());
    if src.len() < 9 {
        assert forall|i: int| !strict_at(src@, i) by {}
        return false;
    }
    let len = src.len();
    let last = len - 9;
    let mut i: usize = 0;
    while i <= last
        invariant
            last + 9 == src@.len(),
            last + 9 == len,
            directive@ == strict_directive(),
            forall|q: int| 0 <= q < i ==> !strict_at(src@, q),
        decreases last + 1 - i,
    {
        let mut k: usize = 0;
        while k < 9
            invariant
                i <= last,
                last + 9 == src@.len(),
                last + 9 == len,
                directive@ == strict_directive(),
                k <= 9,
                forall|q: int| 0 <= q < k ==> upper_byte(#[trigger] src@[i + q]) == strict_directive()[q],
            ensures
                k <= 9,
                forall|q: int| 0 <= q < k ==> upper_byte(#[trigger] src@[i + q]) == strict_directive()[q],
                k < 9 ==> upper_byte(src@[i + k]) != strict_directive()[k as int],
            decreases 9 - k,
        {
            if upper(src[i + k]) != directive[k] {
                break;
            }
            k = k + 1;
        }
        if k == 9 {
            assert(strict_at(src@, i as int));
            return true;
        }
        assert(!strict_at(src@, i as int)) by {
            assert(upper_byte(src@[i + k]) != strict_directive()[k as int]);
        }
        i = i + 1;
    }
    assert forall|q: int| !strict_at(src@, q) by {
        if 0 <= q < i {
        } else if q >= i {
            assert(q + 9 > src@.len());
        }
    }
    false
}

fn insertion_point_of(order: &Vec<usize>, index: &DocumentSymbolIndex, key: Position) -> (r: usize)
    requires
        forall|j: int| 0 <= j < order@.len() ==> #[trigger] order@[j] < index@.len(),
    ensures
        r as int == insertion_point(order@.map_values(|c: usize| c as int), index@, key, 0),
        r <= order@.len(),
{
    let ghost om = order@.map_values(|c: usize| c as int);
    let mut k: usize = 0;
    while k < order.len()
        invariant
            om == order@.map_values(|c: usize| c as int),
            forall|j: int| 0 <= j < order@.len() ==> #[trigger] order@[j] < index@.len(),
            k <= order@.len(),
            insertion_point(om, index@, key, k as int) == insertion_point(om, index@, key, 0),
        ensures
            k <= order@.len(),
            insertion_point(om, index@, key, 0) == k,
        decreases order@.len() - k,
    {
        let o = index.get(order[k]);
        if key.before(&o.range.start) {
            break;
        }
        k = k + 1;
    }
    k
}

fn start_order_of(index: &DocumentSymbolIndex) -> (r: Vec<usize>)
    ensures
        r@.map_values(|c: usize| c as int) == start_order(index@, index@.len() as int),
        forall|j: int| 0 <= j < r@.len() ==> #[trigger] r@[j] < index@.len(),
{
    let count = index.len();
    let mut order: Vec<usize> = Vec::new();
    let mut j: usize = 0;
    assert(order@.map_values(|c: usize| c as int) =~= start_order(index@, 0));
    while j < count
        invariant
            count == index@.len(),
            j <= count,
            order@.map_values(|c: usize| c as int) == start_order(index@, j as int),
            forall|q: int| 0 <= q < order@.len() ==> #[trigger] order@[q] < j,
        decreases count - j,
    {
        let ghost before = order@;
        let key = index.get(j).range.start;
        let p = insertion_point_of(&order, index, key);
        order.insert(p, j);
        assert(order@.map_values(|c: usize| c as int) =~= before.map_values(|c: usize| c as int).insert(
            p as int,
            j as int,
        ));
        assert forall|q: int| 0 <= q < order@.len() implies #[trigger] order@[q] < j + 1 by {
            if q < p {
                assert(order@[q] == before[q]);
            } else if q > p {
                assert(order@[q] == before[q - 1]);
            }
        }
        j = j + 1;
    }
    order
}

/// Appends the `{$STRICT}` diagnostics of a script (see [`strict_diagnostics`]).
pub fn strict_checks(src: &[u8], index: &DocumentSymbolIndex, out: &mut Vec<CeaDiagnostic>)
    ensures
        diagnostic_views(final(out)@) == diagnostic_views(old(out)@) + strict_diagnostics(src@, index@),
{
    if !strict_mode_of(src) {
        assert(diagnostic_views(out@) =~= diagnostic_views(old(out)@) + strict_diagnostics(src@, index@));
        return;
    }
    let ghost occs = index@;
    let order = start_order_of(index);
    let ghost om = order@.map_values(|c: usize| c as int);
    let mut declared: Vec<String> = Vec::new();
    let mut t: usize = 0;
    assert(om.subrange(0, 0) =~= Seq::<int>::empty());
    assert(diagnostic_views(out@) =~= diagnostic_views(old(out)@) + strict_run(occs, om.subrange(0, 0)).0);
    while t < order.len()
        invariant
            occs == index@,
            om == order@.map_values(|c: usize| c as int),
            forall|q: int| 0 <= q < order@.len() ==> #[trigger] order@[q] < occs.len(),
            t <= order@.len(),
            diagnostic_views(out@) == diagnostic_views(old(out)@) + strict_run(occs, om.subrange(0, t as int)).0,
            string_views(declared@) == strict_run(occs, om.subrange(0, t as int)).1,
        decreases order@.len() - t,
    {
        assert(om.subrange(0, t + 1).drop_last() =~= om.subrange(0, t as int));
        assert(om.subrange(0, t + 1).last() == order@[t as int] as int);
        let o = index.get(order[t]);
        if o.kind == CeaSymbolKind::Label {
            let key = ascii_lowercase(o.name.as_str());
            if o.role == OccurrenceRole::Declaration {
                declared.push(key);
                assert(string_views(declared@) =~= strict_run(occs, om.subrange(0, t + 1)).1);
            } else if o.role == OccurrenceRole::Definition && !contains_text(&declared, &key) {
                let mut message = String::from_str("`{$STRICT}` requires label `");
                message.append(o.name.as_str());
                message.append("` to be declared before use");
                push_diagnostic(out, o.range, message);
            }
        }
        t = t + 1;
    }
    assert(om.subrange(0, t as int) =~= om);
}

} // verus!
