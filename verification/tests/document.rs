use cea_language_server::document::{Document, OutlineKind};
use cea_language_server::syntax::{FieldName, NodeKind, Point, SyntaxNode, SyntaxTree};
use cea_language_server::text::{lsp_position, Position, Range};

/// Builds the syntax tree of a script node by node, as the parser would.
struct Builder {
    source: String,
    nodes: Vec<SyntaxNode>,
    scan: Vec<usize>,
}

impl Builder {
    fn new(source: &str) -> Self {
        let mut builder = Builder { source: source.to_owned(), nodes: Vec::new(), scan: Vec::new() };
        builder.push(None, NodeKind::Other, "source_file", 0, source.len(), true, None);
        builder
    }

    fn point(&self, offset: usize) -> Point {
        let before = &self.source.as_bytes()[..offset];
        let row = before.iter().filter(|b| **b == b'\n').count();
        let line_start = before.iter().rposition(|b| *b == b'\n').map_or(0, |i| i + 1);
        Point { row, column: offset - line_start }
    }

    fn push(
        &mut self,
        parent: Option<usize>,
        kind: NodeKind,
        kind_name: &str,
        start: usize,
        end: usize,
        named: bool,
        field: Option<FieldName>,
    ) -> usize {
        let index = self.nodes.len();
        let start_point = self.point(start);
        let end_point = self.point(end);
        self.nodes.push(SyntaxNode {
            kind,
            kind_name: kind_name.to_owned(),
            is_named: named,
            is_error: kind_name == "ERROR",
            is_missing: false,
            start_byte: start,
            end_byte: end,
            start_point,
            end_point,
            field,
            parent,
            children: Vec::new(),
        });
        self.scan.push(start);
        if let Some(p) = parent {
            self.nodes[p].children.push(index);
            self.scan[p] = end;
        }
        index
    }

    /// A child of `parent` over the next occurrence of `text` inside it.
    fn child(&mut self, parent: usize, kind: NodeKind, kind_name: &str, text: &str, field: Option<FieldName>) -> usize {
        let from = self.scan[parent];
        let limit = self.nodes[parent].end_byte;
        let start = from + self.source[from..limit].find(text).expect("text inside parent");
        self.push(Some(parent), kind, kind_name, start, start + text.len(), true, field)
    }

    fn identifier(&mut self, parent: usize, text: &str, field: Option<FieldName>) -> usize {
        self.child(parent, NodeKind::Identifier, "identifier", text, field)
    }

    /// `name(arg, ...)` with each argument an identifier or a number.
    fn command(&mut self, parent: usize, text: &str, name: &str, arguments: &[&str]) -> usize {
        let command = self.child(parent, NodeKind::AaCommand, "aa_command", text, None);
        self.identifier(command, name, Some(FieldName::Name));
        let open = text.find('(').unwrap();
        let list = self.child(command, NodeKind::ArgumentList, "argument_list", &text[open..], Some(FieldName::Arguments));
        for argument in arguments {
            let first = argument.chars().next().unwrap();
            if argument.contains('+') && !argument.starts_with('(') {
                self.child(list, NodeKind::Other, "expression", argument, None);
            } else if first.is_ascii_alphabetic() || first == '_' || !first.is_ascii() {
                self.identifier(list, argument, None);
            } else if argument.starts_with('(') {
                let cast_end = argument.find(')').unwrap() + 1;
                let typed = self.child(list, NodeKind::TypedNumber, "typed_number", argument, None);
                self.child(typed, NodeKind::TypeCast, "type_cast", &argument[..cast_end], None);
                self.child(typed, NodeKind::Other, "decimal", &argument[cast_end..], None);
            } else if first.is_ascii_digit() || first == '#' || first == '$' {
                self.child(list, NodeKind::Number, "number", argument, None);
            } else {
                self.child(list, NodeKind::Other, "expression", argument, None);
            }
        }
        command
    }

    /// A line holding only `name:`.
    fn label_line(&mut self, parent: usize, text: &str, name: &str) -> usize {
        let line = self.child(parent, NodeKind::LabelDefinitionLine, "label_definition_line", text, None);
        let definition = self.child(line, NodeKind::LabelDefinition, "label_definition", &format!("{name}:"), None);
        self.identifier(definition, name, Some(FieldName::Name));
        line
    }

    /// An instruction: its mnemonic then its operands.
    fn operation(&mut self, parent: usize, text: &str, mnemonic: &str, operands: &[(&str, NodeKind, &str)]) -> usize {
        let operation = self.child(parent, NodeKind::Operation, "operation", text, None);
        self.identifier(operation, mnemonic, Some(FieldName::Name));
        for (operand, kind, kind_name) in operands {
            self.child(operation, *kind, kind_name, operand, None);
        }
        operation
    }

    fn section(&mut self, parent: usize, text: &str) -> usize {
        self.child(parent, NodeKind::SectionHeader, "section_header", text, None)
    }

    fn lua_block(&mut self, parent: usize, open: &str, chunk: &str, close: &str) -> usize {
        let from = self.scan[parent];
        let start = from + self.source[from..].find(open).unwrap();
        let end = start + self.source[start..].find(close).unwrap() + close.len();
        let block = self.push(Some(parent), NodeKind::Other, "lua_block", start, end, true, None);
        self.child(block, NodeKind::Other, "lua_directive", open, None);
        self.child(block, NodeKind::LuaChunk, "lua_chunk", chunk, None);
        self.child(block, NodeKind::Other, "asm_directive", close, None);
        block
    }

    fn build(self) -> Document {
        let tree = SyntaxTree::new(self.nodes).expect("well-formed tree");
        Document::new(self.source, tree)
    }
}

fn messages(document: &Document) -> Vec<String> {
    document.diagnostics().into_iter().map(|diagnostic| diagnostic.message).collect()
}

#[test]
fn reports_sections_labels_allocations_and_definitions() {
    let source = "\
[ENABLE]
define(value, 10)
alloc(storage, 100)
entry:
  mov eax,value
[DISABLE]
dealloc(storage)
";
    let mut b = Builder::new(source);
    b.section(0, "[ENABLE]");
    b.command(0, "define(value, 10)", "define", &["value", "10"]);
    b.command(0, "alloc(storage, 100)", "alloc", &["storage", "100"]);
    b.label_line(0, "entry:", "entry");
    b.operation(0, "mov eax,value", "mov", &[("eax", NodeKind::Other, "register"), ("value", NodeKind::Identifier, "identifier")]);
    b.section(0, "[DISABLE]");
    b.command(0, "dealloc(storage)", "dealloc", &["storage"]);
    let document = b.build();

    let symbols = document.symbols();
    let names: Vec<_> = symbols.iter().map(|symbol| symbol.name.as_str()).collect();

    assert_eq!(
        names,
        [
            "[ENABLE]",
            "define(value)",
            "alloc(storage)",
            "entry",
            "[DISABLE]"
        ]
    );
    assert_eq!(symbols[1].kind, OutlineKind::Constant);
    assert_eq!(symbols[2].kind, OutlineKind::Variable);
    assert_eq!(symbols[0].kind, OutlineKind::Namespace);
    assert_eq!(symbols[3].selection_range, Range::new(Position::new(3, 0), Position::new(3, 5)));
}

#[test]
fn reports_malformed_lua_transition() {
    let mut b = Builder::new("{$lua}");
    b.child(0, NodeKind::Other, "ERROR", "{$lua}", None);
    let document = b.build();

    let diagnostics = document.diagnostics();

    assert!(!diagnostics.is_empty());
    assert!(diagnostics.iter().all(|diagnostic| diagnostic.source() == "cea"));
    assert!(diagnostics.iter().any(|diagnostic| diagnostic.message == "could not parse this CEA syntax"));
}

#[test]
fn reports_missing_nodes_by_kind_once_per_error() {
    let mut b = Builder::new("alloc(");
    let error = b.child(0, NodeKind::Other, "ERROR", "alloc(", None);
    let missing = b.push(Some(error), NodeKind::Other, ")", 6, 6, false, None);
    b.nodes[missing].is_missing = true;
    let mut b2 = Builder::new("alloc(");
    let command = b2.child(0, NodeKind::AaCommand, "aa_command", "alloc(", None);
    let missing = b2.push(Some(command), NodeKind::Other, ")", 6, 6, false, None);
    b2.nodes[missing].is_missing = true;

    let nested = messages(&b.build());
    let alone = messages(&b2.build());

    assert_eq!(nested.iter().filter(|m| m.starts_with("expected") || m.starts_with("could not")).count(), 1);
    assert!(alone.contains(&"expected )".to_owned()));
}

#[test]
fn accepts_valid_mixed_document_without_diagnostics() {
    let source = "[ENABLE]\r\n{$lua}\r\nprint('ok')\r\n{$asm}\r\nlabel:\r\n[DISABLE]\r\n";
    let mut b = Builder::new(source);
    b.section(0, "[ENABLE]");
    b.lua_block(0, "{$lua}", "print('ok')\r\n", "{$asm}");
    b.label_line(0, "label:", "label");
    b.section(0, "[DISABLE]");
    let document = b.build();

    assert!(document.diagnostics().is_empty());
}

#[test]
fn converts_byte_columns_to_utf16_columns() {
    let position = lsp_position("é😀label:\n".as_bytes(), 0, 6);

    assert_eq!(position, Position::new(0, 3));
}

#[test]
fn constructs_position_preserving_virtual_lua_document() {
    let source = "[ENABLE]\r\n{$lua}\r\nlocal café = '😀'\r\n{$asm}\r\nlabel:\r\n";
    let mut b = Builder::new(source);
    b.section(0, "[ENABLE]");
    b.lua_block(0, "{$lua}", "local café = '😀'\r\n", "{$asm}");
    b.label_line(0, "label:", "label");
    let document = b.build();

    let virtual_document = document.lua_virtual_document();

    assert_eq!(
        virtual_document.source,
        "        \r\n      \r\nlocal café = '😀'\r\n      \r\n      \r\n"
    );
    assert_eq!(
        virtual_document.ranges,
        vec![Range::new(Position::new(2, 0), Position::new(3, 0))]
    );
    for (source_line, virtual_line) in source.lines().zip(virtual_document.source.lines()) {
        assert_eq!(
            source_line.encode_utf16().count(),
            virtual_line.encode_utf16().count()
        );
    }
}

#[test]
fn keeps_multiple_lua_regions_in_one_virtual_document() {
    let source = "\
{$lua}
first()
{$asm}
nop
{$lua}
second()
{$asm}
";
    let mut b = Builder::new(source);
    b.lua_block(0, "{$lua}", "first()\n", "{$asm}");
    b.operation(0, "nop", "nop", &[]);
    b.lua_block(0, "{$lua}", "second()\n", "{$asm}");
    let document = b.build();

    let virtual_document = document.lua_virtual_document();

    assert!(virtual_document.source.contains("first()"));
    assert!(virtual_document.source.contains("second()"));
    assert!(!virtual_document.source.contains("nop"));
    assert_eq!(virtual_document.ranges.len(), 2);
}

#[test]
fn diagnoses_invalid_section_order_and_known_command_arguments() {
    let source = "\
[DISABLE]
alloc(storage)
[ENABLE]
define(value)
[ENABLE]
";
    let mut b = Builder::new(source);
    b.section(0, "[DISABLE]");
    b.command(0, "alloc(storage)", "alloc", &["storage"]);
    b.section(0, "[ENABLE]");
    b.command(0, "define(value)", "define", &["value"]);
    b.section(0, "[ENABLE]");
    let document = b.build();

    let messages = messages(&document);
    let messages: Vec<_> = messages.iter().map(String::as_str).collect();

    assert!(messages.contains(&"invalid section usage: [disable]"));
    assert!(messages.contains(&"invalid section usage: [enable]"));
    assert!(messages.contains(&"invalid arguments for `alloc`: received 1"));
    assert!(messages.contains(&"invalid arguments for `define`: received 1"));
    assert!(!messages.contains(&"missing required [ENABLE] section"));
    assert!(!messages.contains(&"missing required [DISABLE] section"));
}

#[test]
fn validates_documented_command_argument_counts() {
    let source = "\
[ENABLE]
aobscanregion(result,start,stop)
globalalloc(storage)
kalloc(kernelstorage)
fullaccess(storage)
createthreadandwait(worker,1000,extra)
loadbinary(storage)
readmem(storage)
[DISABLE]
";
    let mut b = Builder::new(source);
    b.section(0, "[ENABLE]");
    b.command(0, "aobscanregion(result,start,stop)", "aobscanregion", &["result", "start", "stop"]);
    b.command(0, "globalalloc(storage)", "globalalloc", &["storage"]);
    b.command(0, "kalloc(kernelstorage)", "kalloc", &["kernelstorage"]);
    b.command(0, "fullaccess(storage)", "fullaccess", &["storage"]);
    b.command(0, "createthreadandwait(worker,1000,extra)", "createthreadandwait", &["worker", "1000", "extra"]);
    b.command(0, "loadbinary(storage)", "loadbinary", &["storage"]);
    b.command(0, "readmem(storage)", "readmem", &["storage"]);
    b.section(0, "[DISABLE]");
    let document = b.build();
    let messages = messages(&document);

    for command in [
        "aobscanregion",
        "globalalloc",
        "kalloc",
        "fullaccess",
        "createthreadandwait",
        "loadbinary",
        "readmem",
    ] {
        assert!(
            messages
                .iter()
                .any(|message| message.contains(&format!("`{command}`"))),
            "missing diagnostic for {command}: {messages:?}"
        );
    }
}

#[test]
fn accepts_documented_arities() {
    let source = "[ENABLE]\nalloc(a,1)\ndefine(b,2)\naobscanmodule(c,d,e)\nnewcommand()\n[DISABLE]\n";
    let mut b = Builder::new(source);
    b.section(0, "[ENABLE]");
    b.command(0, "alloc(a,1)", "alloc", &["a", "1"]);
    b.command(0, "define(b,2)", "define", &["b", "2"]);
    b.command(0, "aobscanmodule(c,d,e)", "aobscanmodule", &["c", "d", "e"]);
    b.command(0, "newcommand()", "newcommand", &[]);
    b.section(0, "[DISABLE]");
    let messages = messages(&b.build());

    assert!(messages.is_empty(), "{messages:?}");
}

#[test]
fn accepts_documented_value_notation_and_rejects_missing_values() {
    let source = "\
[ENABLE]
define(decimal,#100)
define(whole,(int)-100)
define(single,(float)100.1)
define(scientific,(double)-1.25e+2)
dd (float)
[DISABLE]
";
    let mut b = Builder::new(source);
    b.section(0, "[ENABLE]");
    b.command(0, "define(decimal,#100)", "define", &["decimal", "#100"]);
    b.command(0, "define(whole,(int)-100)", "define", &["whole", "(int)-100"]);
    b.command(0, "define(single,(float)100.1)", "define", &["single", "(float)100.1"]);
    b.command(0, "define(scientific,(double)-1.25e+2)", "define", &["scientific", "(double)-1.25e+2"]);
    b.operation(0, "dd (float)", "dd", &[("(float)", NodeKind::TypeCast, "type_cast")]);
    b.section(0, "[DISABLE]");
    let document = b.build();
    let diagnostics = document.diagnostics();

    assert_eq!(
        diagnostics
            .iter()
            .filter(|diagnostic| diagnostic.message.contains("invalid value notation"))
            .count(),
        1
    );
    assert!(diagnostics.iter().any(|diagnostic| diagnostic
        .message
        .contains("`(float)` must be followed by a decimal value")));
}

fn hover_document() -> Document {
    let source = "\
[ENABLE]
dd $FFFFFFFF
dd #4294967295
dd 10
dd (int)-1
dd (float)1.0
[DISABLE]
";
    let mut b = Builder::new(source);
    b.section(0, "[ENABLE]");
    b.operation(0, "dd $FFFFFFFF", "dd", &[("$FFFFFFFF", NodeKind::Number, "number")]);
    b.operation(0, "dd #4294967295", "dd", &[("#4294967295", NodeKind::Number, "number")]);
    b.operation(0, "dd 10", "dd", &[("10", NodeKind::Number, "number")]);
    let int_line = b.operation(0, "dd (int)-1", "dd", &[]);
    let typed = b.child(int_line, NodeKind::TypedNumber, "typed_number", "(int)-1", None);
    b.child(typed, NodeKind::TypeCast, "type_cast", "(int)", None);
    b.child(typed, NodeKind::Other, "decimal", "-1", None);
    let float_line = b.operation(0, "dd (float)1.0", "dd", &[]);
    let typed = b.child(float_line, NodeKind::TypedNumber, "typed_number", "(float)1.0", None);
    b.child(typed, NodeKind::TypeCast, "type_cast", "(float)", None);
    b.child(typed, NodeKind::Other, "decimal", "1.0", None);
    b.section(0, "[DISABLE]");
    b.build()
}

#[test]
fn converts_integer_literals_for_hover() {
    let document = hover_document();

    assert_eq!(
        document.integer_hover(Position::new(1, 5)).unwrap().0,
        "0xFFFFFFFF\n0d4294967295\n-1"
    );
    assert_eq!(
        document.integer_hover(Position::new(2, 5)).unwrap().0,
        "0xFFFFFFFF\n0d4294967295\n-1"
    );
    assert_eq!(
        document.integer_hover(Position::new(3, 4)).unwrap().0,
        "0x10\n0d16"
    );
    assert_eq!(
        document.integer_hover(Position::new(4, 9)).unwrap().0,
        "-0x1\n-0d1"
    );
    assert!(document.integer_hover(Position::new(5, 11)).is_none());
}

#[test]
fn hover_gives_the_literal_range_and_nothing_off_literals() {
    let document = hover_document();

    assert_eq!(
        document.integer_hover(Position::new(3, 3)).unwrap().1,
        Range::new(Position::new(3, 3), Position::new(3, 5))
    );
    assert!(document.integer_hover(Position::new(3, 1)).is_none());
    assert!(document.integer_hover(Position::new(0, 40)).is_none());
    assert!(document.integer_hover(Position::new(30, 0)).is_none());
}

#[test]
fn requires_enable_and_disable_sections() {
    let mut b = Builder::new("nop\n");
    b.operation(0, "nop", "nop", &[]);
    let messages = messages(&b.build());

    assert!(messages.contains(&"missing required [ENABLE] section".into()));
    assert!(messages.contains(&"missing required [DISABLE] section".into()));
}

#[test]
fn strict_requires_label_commands_above_label_definitions() {
    let source = "\
{$STRICT}
[ENABLE]
missing:
label(ready)
ready:
too_late:
label(too_late)
jmp not_a_label_definition
00400500:
[ptr]:
[DISABLE]
";
    let mut b = Builder::new(source);
    b.child(0, NodeKind::Other, "directive", "{$STRICT}", None);
    b.section(0, "[ENABLE]");
    b.label_line(0, "missing:", "missing");
    b.command(0, "label(ready)", "label", &["ready"]);
    b.label_line(0, "ready:", "ready");
    b.label_line(0, "too_late:", "too_late");
    b.command(0, "label(too_late)", "label", &["too_late"]);
    b.operation(0, "jmp not_a_label_definition", "jmp", &[("not_a_label_definition", NodeKind::Identifier, "identifier")]);
    b.child(0, NodeKind::Other, "address_definition", "00400500:", None);
    b.child(0, NodeKind::Other, "address_definition", "[ptr]:", None);
    b.section(0, "[DISABLE]");
    let document = b.build();
    let diagnostics = document.diagnostics();

    assert!(diagnostics.iter().any(|diagnostic| diagnostic
        .message
        .contains("label `missing` to be declared before use")));
    assert!(diagnostics.iter().any(|diagnostic| diagnostic
        .message
        .contains("label `too_late` to be declared before use")));
    assert!(!diagnostics
        .iter()
        .any(|diagnostic| diagnostic.message.contains("label `ready`")));
    assert!(!diagnostics.iter().any(|diagnostic| diagnostic
        .message
        .contains("label `not_a_label_definition`")));
    assert!(!diagnostics
        .iter()
        .any(|diagnostic| diagnostic.message.contains("00400500")));
}

#[test]
fn strict_mode_ignores_letter_case_and_orders_by_position() {
    let source = "{$strict}\n[ENABLE]\nb:\na:\n[DISABLE]\n";
    let mut b = Builder::new(source);
    b.child(0, NodeKind::Other, "directive", "{$strict}", None);
    b.section(0, "[ENABLE]");
    b.label_line(0, "b:", "b");
    b.label_line(0, "a:", "a");
    b.section(0, "[DISABLE]");
    let messages = messages(&b.build());

    assert_eq!(
        messages,
        [
            "`{$STRICT}` requires label `b` to be declared before use",
            "`{$STRICT}` requires label `a` to be declared before use"
        ]
    );
}

#[test]
fn diagnoses_labels_that_are_missing_definitions_or_share_code_lines() {
    let source = "\
[ENABLE]
label(missing)
label(valid)
valid: // comment
label(block_comment)
block_comment: { comment }
label(invalid)
invalid: nop
[DISABLE]
";
    let mut b = Builder::new(source);
    b.section(0, "[ENABLE]");
    b.command(0, "label(missing)", "label", &["missing"]);
    b.command(0, "label(valid)", "label", &["valid"]);
    let line = b.label_line(0, "valid: // comment", "valid");
    b.child(line, NodeKind::Other, "comment", "// comment", None);
    b.command(0, "label(block_comment)", "label", &["block_comment"]);
    let line = b.label_line(0, "block_comment: { comment }", "block_comment");
    b.child(line, NodeKind::Other, "comment", "{ comment }", None);
    b.command(0, "label(invalid)", "label", &["invalid"]);
    let line = b.child(0, NodeKind::InvalidLabelDefinitionLine, "invalid_label_definition_line", "invalid: nop", None);
    let definition = b.child(line, NodeKind::LabelDefinition, "label_definition", "invalid:", None);
    b.identifier(definition, "invalid", Some(FieldName::Name));
    b.operation(line, "nop", "nop", &[]);
    b.section(0, "[DISABLE]");
    let document = b.build();
    let diagnostics = document.diagnostics();

    assert!(diagnostics.iter().any(|diagnostic| diagnostic
        .message
        .contains("label `missing` is declared but never defined")));
    assert!(diagnostics.iter().any(|diagnostic| diagnostic
        .message
        .contains("label `invalid:` must be on its own line")));
    assert!(!diagnostics.iter().any(|diagnostic| diagnostic
        .message
        .contains("label `valid` is declared but never defined")));
    assert!(!diagnostics.iter().any(|diagnostic| diagnostic
        .message
        .contains("label `block_comment` is declared but never defined")));
}

fn completion_document() -> Document {
    let source = "[ENABLE]\nmov eax,\n// shared\n{$lua}\nshared\n{$asm}\n[DISABLE]\n";
    let mut b = Builder::new(source);
    b.section(0, "[ENABLE]");
    b.operation(0, "mov eax,", "mov", &[("eax", NodeKind::Other, "register")]);
    b.child(0, NodeKind::Other, "comment", "// shared", None);
    b.lua_block(0, "{$lua}", "shared\n", "{$asm}");
    b.section(0, "[DISABLE]");
    b.build()
}

#[test]
fn limits_native_completion_to_assembly_code() {
    let document = completion_document();

    assert!(document.native_completion_allowed(Position::new(1, 8)));
    assert!(!document.native_completion_allowed(Position::new(2, 5)));
    assert!(!document.native_completion_allowed(Position::new(4, 3)));
}

#[test]
fn native_completion_needs_an_existing_line_and_skips_lua_openers() {
    let document = completion_document();

    assert!(!document.native_completion_allowed(Position::new(40, 0)));
    assert!(!document.native_completion_allowed(Position::new(3, 6)));
    assert!(document.native_completion_allowed(Position::new(3, 0)));
    assert!(document.native_completion_allowed(Position::new(2, 1)));
}
