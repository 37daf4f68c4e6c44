use cea_language_server::document::Document;
use cea_language_server::navigation::{
    completion_kind, native_completions, native_definitions, native_highlights,
    native_references, native_rename, valid_symbol_name, CompletionKind,
};
use cea_language_server::server_state::WorkspaceState;
use cea_language_server::symbol_index::{CeaSymbolKind, DocumentSymbolIndex, OccurrenceRole};
use cea_language_server::syntax::{FieldName, NodeKind, Point, SyntaxNode, SyntaxTree};
use cea_language_server::text::{Position, Range};
use cea_language_server::workspace_index::WorkspaceSymbolIndex;

/// Builds the syntax tree of a script node by node, as the parser would.
struct Builder {
    source: String,
    nodes: Vec<SyntaxNode>,
    scan: Vec<usize>,
}

impl Builder {
    fn new(source: &str) -> Self {
        let mut builder = Builder { source: source.to_owned(), nodes: Vec::new(), scan: Vec::new() };
        builder.push(None, NodeKind::Other, "source_file", 0, source.len(), true, None);
        builder
    }

    fn point(&self, offset: usize) -> Point {
        let before = &self.source.as_bytes()[..offset];
        let row = before.iter().filter(|b| **b == b'\n').count();
        let line_start = before.iter().rposition(|b| *b == b'\n').map_or(0, |i| i + 1);
        Point { row, column: offset - line_start }
    }

    fn push(
        &mut self,
        parent: Option<usize>,
        kind: NodeKind,
        kind_name: &str,
        start: usize,
        end: usize,
        named: bool,
        field: Option<FieldName>,
    ) -> usize {
        let index = self.nodes.len();
        let start_point = self.point(start);
        let end_point = self.point(end);
        self.nodes.push(SyntaxNode {
            kind,
            kind_name: kind_name.to_owned(),
            is_named: named,
            is_error: kind_name == "ERROR",
            is_missing: false,
            start_byte: start,
            end_byte: end,
            start_point,
            end_point,
            field,
            parent,
            children: Vec::new(),
        });
        self.scan.push(start);
        if let Some(p) = parent {
            self.nodes[p].children.push(index);
            self.scan[p] = end;
        }
        index
    }

    /// A child of `parent` over the next occurrence of `text` inside it.
    fn child(&mut self, parent: usize, kind: NodeKind, kind_name: &str, text: &str, field: Option<FieldName>) -> usize {
        let from = self.scan[parent];
        let limit = self.nodes[parent].end_byte;
        let start = from + self.source[from..limit].find(text).expect("text inside parent");
        self.push(Some(parent), kind, kind_name, start, start + text.len(), true, field)
    }

    fn identifier(&mut self, parent: usize, text: &str, field: Option<FieldName>) -> usize {
        self.child(parent, NodeKind::Identifier, "identifier", text, field)
    }

    /// `name(arg, ...)` with each argument an identifier or a number.
    fn command(&mut self, parent: usize, text: &str, name: &str, arguments: &[&str]) -> usize {
        let command = self.child(parent, NodeKind::AaCommand, "aa_command", text, None);
        self.identifier(command, name, Some(FieldName::Name));
        let open = text.find('(').unwrap();
        let list = self.child(command, NodeKind::ArgumentList, "argument_list", &text[open..], Some(FieldName::Arguments));
        for argument in arguments {
            let first = argument.chars().next().unwrap();
            if argument.contains('+') && !argument.starts_with('(') {
                self.child(list, NodeKind::Other, "expression", argument, None);
            } else if first.is_ascii_alphabetic() || first == '_' || !first.is_ascii() {
                self.identifier(list, argument, None);
            } else if argument.starts_with('(') {
                let cast_end = argument.find(')').unwrap() + 1;
                let typed = self.child(list, NodeKind::TypedNumber, "typed_number", argument, None);
                self.child(typed, NodeKind::TypeCast, "type_cast", &argument[..cast_end], None);
                self.child(typed, NodeKind::Other, "decimal", &argument[cast_end..], None);
            } else if first.is_ascii_digit() || first == '#' || first == '$' {
                self.child(list, NodeKind::Number, "number", argument, None);
            } else {
                self.child(list, NodeKind::Other, "expression", argument, None);
            }
        }
        command
    }

    /// A line holding only `name:`.
    fn label_line(&mut self, parent: usize, text: &str, name: &str) -> usize {
        let line = self.child(parent, NodeKind::LabelDefinitionLine, "label_definition_line", text, None);
        let definition = self.child(line, NodeKind::LabelDefinition, "label_definition", &format!("{name}:"), None);
        self.identifier(definition, name, Some(FieldName::Name));
        line
    }

    /// An instruction: its mnemonic then its operands.
    fn operation(&mut self, parent: usize, text: &str, mnemonic: &str, operands: &[(&str, NodeKind, &str)]) -> usize {
        let operation = self.child(parent, NodeKind::Operation, "operation", text, None);
        self.identifier(operation, mnemonic, Some(FieldName::Name));
        for (operand, kind, kind_name) in operands {
            self.child(operation, *kind, kind_name, operand, None);
        }
        operation
    }

    fn section(&mut self, parent: usize, text: &str) -> usize {
        self.child(parent, NodeKind::SectionHeader, "section_header", text, None)
    }

    fn lua_block(&mut self, parent: usize, open: &str, chunk: &str, close: &str) -> usize {
        let from = self.scan[parent];
        let start = from + self.source[from..].find(open).unwrap();
        let end = start + self.source[start..].find(close).unwrap() + close.len();
        let block = self.push(Some(parent), NodeKind::Other, "lua_block", start, end, true, None);
        self.child(block, NodeKind::Other, "lua_directive", open, None);
        self.child(block, NodeKind::LuaChunk, "lua_chunk", chunk, None);
        self.child(block, NodeKind::Other, "asm_directive", close, None);
        block
    }

    fn build(self) -> Document {
        let tree = SyntaxTree::new(self.nodes).expect("well-formed tree");
        Document::new(self.source, tree)
    }
}


fn index(document: &Document) -> DocumentSymbolIndex {
    document.symbol_index()
}

fn summary(index: &DocumentSymbolIndex) -> Vec<(String, CeaSymbolKind, OccurrenceRole, bool)> {
    index
        .occurrences()
        .iter()
        .map(|o| (o.name.clone(), o.kind, o.role, o.strict_reference))
        .collect()
}

/// `alloc(name,size)` and nothing else.
fn alloc_document(source: &str, name: &str, size: &str) -> Document {
    let mut b = Builder::new(source);
    b.command(0, &format!("alloc({name},{size})"), "alloc", &[name, size]);
    b.build()
}

#[test]
fn indexes_declarations_definitions_registrations_and_references() {
    let source = "\
[ENABLE]
define(target,game.exe+10)
alloc(storage,100,target)
label(return)
registersymbol(storage)
return:
  mov rax,storage
[DISABLE]
unregistersymbol(storage)
dealloc(storage)
";
    let mut b = Builder::new(source);
    b.section(0, "[ENABLE]");
    b.command(0, "define(target,game.exe+10)", "define", &["target", "game.exe+10"]);
    b.command(0, "alloc(storage,100,target)", "alloc", &["storage", "100", "target"]);
    b.command(0, "label(return)", "label", &["return"]);
    b.command(0, "registersymbol(storage)", "registersymbol", &["storage"]);
    b.label_line(0, "return:", "return");
    b.operation(0, "mov rax,storage", "mov", &[("rax", NodeKind::Other, "register"), ("storage", NodeKind::Identifier, "identifier")]);
    b.section(0, "[DISABLE]");
    b.command(0, "unregistersymbol(storage)", "unregistersymbol", &["storage"]);
    b.command(0, "dealloc(storage)", "dealloc", &["storage"]);
    let summarized = summary(&index(&b.build()));
    let has = |name: &str, kind, role, strict| {
        summarized.contains(&(name.to_owned(), kind, role, strict))
    };

    assert!(has("target", CeaSymbolKind::Definition, OccurrenceRole::Declaration, false));
    assert!(has("storage", CeaSymbolKind::Allocation, OccurrenceRole::Declaration, false));
    assert!(has("return", CeaSymbolKind::Label, OccurrenceRole::Definition, false));
    assert!(has("storage", CeaSymbolKind::Registered, OccurrenceRole::Registration, true));
    assert!(has("storage", CeaSymbolKind::Label, OccurrenceRole::Reference, true));
    assert!(has("target", CeaSymbolKind::Label, OccurrenceRole::Reference, false));
    assert!(has("storage", CeaSymbolKind::Label, OccurrenceRole::Reference, false));
    assert!(!summarized.iter().any(|o| o.0 == "game.exe+10"));
}

fn lua_document(source: &str, chunk: &str) -> Document {
    let mut b = Builder::new(source);
    b.lua_block(0, "{$lua}", chunk, "{$asm}");
    b.build()
}

#[test]
fn links_lua_address_apis_to_cea_symbols_with_utf16_ranges() {
    let source = "\
[ENABLE]
alloc(café,100)
{$lua}
local address = getAddress(\"café\")
local safe = getAddressSafe ( 'missing' )
{$asm}
";
    let mut b = Builder::new(source);
    b.section(0, "[ENABLE]");
    b.command(0, "alloc(café,100)", "alloc", &["café", "100"]);
    b.lua_block(
        0,
        "{$lua}",
        "local address = getAddress(\"café\")\nlocal safe = getAddressSafe ( 'missing' )\n",
        "{$asm}",
    );
    let index = index(&b.build());
    let lua_references: Vec<_> = index
        .occurrences()
        .iter()
        .filter(|occurrence| {
            occurrence.role == OccurrenceRole::Reference && occurrence.strict_reference
        })
        .collect();

    assert_eq!(
        lua_references
            .iter()
            .map(|occurrence| occurrence.name.as_str())
            .collect::<Vec<_>>(),
        ["café", "missing"]
    );
    assert_eq!(
        lua_references[0].range,
        Range::new(Position::new(3, 28), Position::new(3, 32))
    );
}

#[test]
fn ignores_address_api_text_that_is_not_a_direct_lua_call() {
    let source = "\
{$lua}
-- getAddress(\"comment\")
local text = \"getAddress('string')\"
object.getAddress(\"method\")
getAddress(dynamic)
getAddress(\"direct\")
{$asm}
";
    let chunk = &source[7..source.len() - 7];
    let index = index(&lua_document(source, chunk));
    let references: Vec<_> = index
        .occurrences()
        .iter()
        .filter(|occurrence| occurrence.strict_reference)
        .map(|occurrence| occurrence.name.as_str())
        .collect();

    assert_eq!(references, ["direct"]);
}

#[test]
fn workspace_index_matches_symbols_case_insensitively() {
    let mut workspace = WorkspaceSymbolIndex::new();
    workspace.update(
        "file:///player.cea".to_owned(),
        index(&alloc_document("alloc(PlayerHealth,100)\n", "PlayerHealth", "100")),
    );

    assert_eq!(workspace.declarations_named("playerhealth").len(), 1);
    assert_eq!(workspace.symbol_names(), ["PlayerHealth"]);
}

fn semantic_for<'a>(
    diagnostics: &'a [(String, Vec<cea_language_server::diagnostics::CeaDiagnostic>)],
    uri: &str,
) -> &'a [cea_language_server::diagnostics::CeaDiagnostic] {
    &diagnostics.iter().find(|(u, _)| u == uri).unwrap().1
}

#[test]
fn diagnoses_duplicate_declarations_and_strict_unresolved_references() {
    let first_uri = "file:///one.cea";
    let second_uri = "file:///two.cea";
    let first = {
        let source = "alloc(storage,100)\nregistersymbol(missing)\n";
        let mut b = Builder::new(source);
        b.command(0, "alloc(storage,100)", "alloc", &["storage", "100"]);
        b.command(0, "registersymbol(missing)", "registersymbol", &["missing"]);
        b.build()
    };
    let second = {
        let source = "alloc(STORAGE,200)\ndealloc(unknown)\n";
        let mut b = Builder::new(source);
        b.command(0, "alloc(STORAGE,200)", "alloc", &["STORAGE", "200"]);
        b.command(0, "dealloc(unknown)", "dealloc", &["unknown"]);
        b.build()
    };
    let mut workspace = WorkspaceSymbolIndex::new();
    workspace.update(first_uri.to_owned(), index(&first));
    workspace.update(second_uri.to_owned(), index(&second));

    let diagnostics = workspace.semantic_diagnostics();

    assert_eq!(semantic_for(&diagnostics, first_uri).len(), 1);
    assert!(semantic_for(&diagnostics, first_uri)[0]
        .message
        .contains("unresolved CEA symbol `missing`"));
    assert_eq!(semantic_for(&diagnostics, second_uri).len(), 2);
    assert!(semantic_for(&diagnostics, second_uri)
        .iter()
        .any(|diagnostic| diagnostic.message.contains("duplicate CEA allocation")));
    assert!(semantic_for(&diagnostics, second_uri).iter().any(|diagnostic| diagnostic
        .message
        .contains("unresolved CEA symbol `unknown`")));
}

#[test]
fn allows_a_label_declaration_and_its_definition() {
    let source = "label(return)\nreturn:\n";
    let mut b = Builder::new(source);
    b.command(0, "label(return)", "label", &["return"]);
    b.label_line(0, "return:", "return");
    let mut workspace = WorkspaceSymbolIndex::new();
    workspace.update("file:///labels.cea".to_owned(), index(&b.build()));

    assert!(semantic_for(&workspace.semantic_diagnostics(), "file:///labels.cea").is_empty());
}

#[test]
fn replaces_and_removes_documents_in_the_workspace_index() {
    let mut workspace = WorkspaceSymbolIndex::new();
    workspace.update("file:///a.cea".to_owned(), index(&alloc_document("alloc(one,1)\n", "one", "1")));
    workspace.update("file:///a.cea".to_owned(), index(&alloc_document("alloc(two,1)\n", "two", "1")));

    assert!(workspace.declarations_named("one").is_empty());
    assert_eq!(workspace.declarations_named("TWO").len(), 1);
    workspace.remove("file:///a.cea");
    assert!(workspace.declarations_named("two").is_empty());
    assert!(workspace.symbol_names().is_empty());
}

fn navigation_workspace() -> WorkspaceSymbolIndex {
    let source = "alloc(buffer,10)\nmov eax,buffer\n";
    let mut b = Builder::new(source);
    b.command(0, "alloc(buffer,10)", "alloc", &["buffer", "10"]);
    b.operation(0, "mov eax,buffer", "mov", &[("eax", NodeKind::Other, "register"), ("buffer", NodeKind::Identifier, "identifier")]);
    let first = b.build();
    let other = {
        let source = "dealloc(Buffer)\n";
        let mut b = Builder::new(source);
        b.command(0, "dealloc(Buffer)", "dealloc", &["Buffer"]);
        b.build()
    };
    let mut workspace = WorkspaceSymbolIndex::new();
    workspace.update("file:///main.cea".to_owned(), index(&first));
    workspace.update("file:///other.cea".to_owned(), index(&other));
    workspace
}

#[test]
fn navigates_to_definitions_references_and_highlights() {
    let workspace = navigation_workspace();
    let at_reference = Position::new(1, 10);

    let definitions = native_definitions(&workspace, "file:///main.cea", at_reference).unwrap();
    assert_eq!(
        definitions,
        vec![(
            "file:///main.cea".to_owned(),
            Range::new(Position::new(0, 6), Position::new(0, 12))
        )]
    );

    let all = native_references(&workspace, "file:///main.cea", at_reference, true).unwrap();
    assert_eq!(all.len(), 3);
    let without = native_references(&workspace, "file:///main.cea", at_reference, false).unwrap();
    assert_eq!(without.len(), 2);
    assert!(without.iter().any(|(uri, _)| uri == "file:///other.cea"));

    let highlights = native_highlights(&workspace, "file:///main.cea", at_reference).unwrap();
    assert_eq!(highlights.len(), 2);

    assert!(native_definitions(&workspace, "file:///main.cea", Position::new(1, 1)).is_none());
    assert!(native_definitions(&workspace, "file:///missing.cea", at_reference).is_none());
}

#[test]
fn renames_every_occurrence_with_a_valid_name() {
    let workspace = navigation_workspace();

    let edits = native_rename(&workspace, "file:///main.cea", Position::new(0, 7), "newBuffer").unwrap();
    assert_eq!(edits.len(), 3);
    assert!(native_rename(&workspace, "file:///main.cea", Position::new(0, 7), "9lives").is_none());
    assert!(native_rename(&workspace, "file:///main.cea", Position::new(0, 7), "").is_none());
}

#[test]
fn validates_symbol_names() {
    assert!(valid_symbol_name("_start"));
    assert!(valid_symbol_name("$ptr.x?"));
    assert!(valid_symbol_name("a1"));
    assert!(!valid_symbol_name("1a"));
    assert!(!valid_symbol_name("a b"));
    assert!(!valid_symbol_name("é"));
}

#[test]
fn completes_declared_symbols_with_their_kind() {
    let workspace = navigation_workspace();
    let entries = native_completions(&workspace);

    assert_eq!(entries.len(), 1);
    assert_eq!(entries[0].label, "buffer");
    assert_eq!(entries[0].kind, Some(CompletionKind::Variable));
    assert_eq!(entries[0].sort_text, "0_buffer");
    assert_eq!(entries[0].detail, "CEA symbol");
    assert_eq!(completion_kind(CeaSymbolKind::Definition), CompletionKind::Constant);
    assert_eq!(completion_kind(CeaSymbolKind::Label), CompletionKind::Reference);
    assert_eq!(completion_kind(CeaSymbolKind::Registered), CompletionKind::Variable);
}

#[test]
fn keeps_the_index_with_open_and_disk_documents() {
    let mut state = WorkspaceState::new();
    state.initialize(vec![(
        "file:///disk.cea".to_owned(),
        alloc_document("alloc(ondisk,1)\n", "ondisk", "1"),
    )]);
    assert_eq!(state.symbols().declarations_named("ondisk").len(), 1);

    state.update_document(
        "file:///disk.cea".to_owned(),
        alloc_document("alloc(edited,1)\n", "edited", "1"),
        2,
    );
    assert!(state.symbols().declarations_named("ondisk").is_empty());
    assert_eq!(state.symbols().declarations_named("edited").len(), 1);
    assert!(state.is_open("file:///disk.cea"));

    state.file_changed(
        "file:///disk.cea".to_owned(),
        alloc_document("alloc(ignored,1)\n", "ignored", "1"),
    );
    assert!(state.symbols().declarations_named("ignored").is_empty());

    state.close_document(
        "file:///disk.cea".to_owned(),
        Some(alloc_document("alloc(saved,1)\n", "saved", "1")),
    );
    assert!(!state.is_open("file:///disk.cea"));
    assert_eq!(state.symbols().declarations_named("saved").len(), 1);

    state.file_deleted("file:///disk.cea");
    assert!(state.symbols().symbol_names().is_empty());
    assert!(state.disk_uris().is_empty());
}

#[test]
fn publishes_diagnostics_for_open_documents_then_closed_ones() {
    let mut state = WorkspaceState::new();
    state.initialize(vec![
        ("file:///a.cea".to_owned(), alloc_document("alloc(a,1)\n", "a", "1")),
        ("file:///b.cea".to_owned(), alloc_document("alloc(b,1)\n", "b", "1")),
    ]);
    state.update_document("file:///b.cea".to_owned(), alloc_document("alloc(a,1)\n", "a", "1"), 1);

    let published = state.cea_diagnostics();
    let uris: Vec<_> = published.iter().map(|(uri, _)| uri.as_str()).collect();

    assert_eq!(uris, ["file:///b.cea", "file:///a.cea"]);
    assert!(published[0].1.iter().any(|d| d.message == "duplicate CEA allocation `a`"));
    assert!(published[0].1.iter().any(|d| d.message == "missing required [ENABLE] section"));
}

#[test]
fn forgets_disk_documents_outside_the_folders_unless_open() {
    let mut state = WorkspaceState::new();
    state.add_disk_document("file:///x.cea".to_owned(), alloc_document("alloc(x,1)\n", "x", "1"));
    state.update_document("file:///y.cea".to_owned(), alloc_document("alloc(y,1)\n", "y", "1"), 1);
    state.add_disk_document("file:///y.cea".to_owned(), alloc_document("alloc(z,1)\n", "z", "1"));
    assert!(state.symbols().declarations_named("z").is_empty());

    state.forget_disk_document("file:///x.cea");
    state.forget_disk_document("file:///y.cea");
    assert!(state.symbols().declarations_named("x").is_empty());
    assert_eq!(state.symbols().declarations_named("y").len(), 1);
    assert_eq!(state.open_uris(), ["file:///y.cea"]);
}

#[test]
fn lists_definitions_before_declarations_among_the_matches() {
    let source = "label(return)\nreturn:\njmp return\n";
    let mut b = Builder::new(source);
    b.command(0, "label(return)", "label", &["return"]);
    b.label_line(0, "return:", "return");
    b.operation(0, "jmp return", "jmp", &[("return", NodeKind::Identifier, "identifier")]);
    let mut workspace = WorkspaceSymbolIndex::new();
    workspace.update("file:///labels.cea".to_owned(), index(&b.build()));

    let declarations = workspace.declarations_named("RETURN");
    let roles: Vec<OccurrenceRole> = declarations.iter().map(|d| d.occurrence.role).collect();
    assert_eq!(roles, [OccurrenceRole::Definition, OccurrenceRole::Declaration]);
    let matches = workspace.occurrences_named("return");
    assert_eq!(matches.len(), 3);
    let declaring = matches
        .iter()
        .filter(|m| matches!(m.occurrence.role, OccurrenceRole::Declaration | OccurrenceRole::Definition))
        .count();
    assert_eq!(declaring, declarations.len());
    assert!(workspace.declarations_named("missing").is_empty());
}
