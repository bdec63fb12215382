use lsp_client::builder::{
    Action, BuildError, Builder, Event, Interests, Phase, ServerCapabilities,
};
use lsp_client::refgraph::{Connection, ReferenceGraph};
use lsp_client::symbols::{
    flatten_symbols, DocumentSymbol, DocumentSymbolResponse, Position, Range, Site,
    SymbolInformation, SymbolKind, FUNCTION, METHOD,
};
use lsp_client::uri::path_to_uri;

fn at(line: u32, character: u32) -> Position {
    Position { line, character }
}

fn span(line: u32, from: u32, to: u32) -> Range {
    Range { start: at(line, from), end: at(line, to) }
}

fn symbol(name: &str, kind: i32, line: u32, children: Vec<DocumentSymbol>) -> DocumentSymbol {
    DocumentSymbol {
        name: name.to_string(),
        kind: SymbolKind(kind),
        range: span(line, 0, 20),
        selection_range: span(line, 3, 3 + name.len() as u32),
        children,
    }
}

fn capable() -> Event {
    Event::Capabilities(ServerCapabilities {
        document_symbol_provider: true,
        references_provider: true,
    })
}

fn connection(src: &str, dst: &str) -> Connection {
    Connection { src: src.to_string(), dst: dst.to_string() }
}

fn sorted(mut list: Vec<String>) -> Vec<String> {
    list.sort();
    list
}

/// Runs the builder over the worked example: `a.txt` declares `f`, `b.txt`
/// declares `g`, and `g` calls `f`.
fn worked_example() -> (Vec<String>, Vec<Connection>, Vec<Action>) {
    let root = "file:///project/".to_string();
    let a = "file:///project/a.txt".to_string();
    let b = "file:///project/b.txt".to_string();
    let mut run = Builder::new(root, vec![a.clone(), b.clone()]);
    let mut actions = Vec::new();
    actions.push(run.step(capable()));
    actions.push(run.step(Event::Sent));
    actions.push(run.step(Event::Sent));
    actions.push(run.step(Event::Symbols(Some(DocumentSymbolResponse::Nested(vec![symbol(
        "f",
        FUNCTION,
        0,
        vec![],
    )])))));
    // `f` is referred to at its declaration in a.txt and at the call in b.txt.
    actions.push(run.step(Event::References(Some(vec![a.clone(), b.clone()]))));
    actions.push(run.step(Event::Sent));
    actions.push(run.step(Event::Symbols(Some(DocumentSymbolResponse::Nested(vec![symbol(
        "g",
        FUNCTION,
        0,
        vec![],
    )])))));
    // `g` is referred to at its declaration only.
    actions.push(run.step(Event::References(Some(vec![b.clone()]))));
    let (nodes, edges) = run.finish().unwrap();
    (nodes, edges, actions)
}

#[test]
fn worked_scenario_reference_graph() {
    let (nodes, edges, actions) = worked_example();
    assert_eq!(sorted(nodes), vec!["a.txt".to_string(), "b.txt".to_string()]);
    assert_eq!(edges, vec![connection("b.txt", "a.txt")]);
    assert_eq!(
        actions,
        vec![
            Action::Initialized,
            Action::Open { file: 0 },
            Action::Symbols { file: 0 },
            Action::References { file: 0, position: at(0, 3) },
            Action::Open { file: 1 },
            Action::Symbols { file: 1 },
            Action::References { file: 1, position: at(0, 3) },
            Action::Finish,
        ]
    );
}

#[test]
fn two_file_project_has_exactly_one_edge() {
    // File A refers to a symbol that file B declares; B does not refer to A.
    let a = "file:///w/A".to_string();
    let b = "file:///w/B".to_string();
    let mut run = Builder::new("file:///w/".to_string(), vec![a.clone(), b.clone()]);
    run.step(capable());
    run.step(Event::Sent);
    run.step(Event::Sent);
    run.step(Event::Symbols(Some(DocumentSymbolResponse::Nested(vec![symbol(
        "user",
        FUNCTION,
        4,
        vec![],
    )]))));
    run.step(Event::References(Some(vec![a.clone()])));
    run.step(Event::Sent);
    run.step(Event::Symbols(Some(DocumentSymbolResponse::Nested(vec![symbol(
        "used",
        FUNCTION,
        1,
        vec![],
    )]))));
    assert_eq!(run.step(Event::References(Some(vec![b.clone(), a.clone(), a.clone()]))), Action::Finish);
    let (nodes, edges) = run.finish().unwrap();
    assert_eq!(sorted(nodes), vec!["A".to_string(), "B".to_string()]);
    assert_eq!(edges, vec![connection("A", "B")]);
}

#[test]
fn running_again_gives_the_same_sets() {
    let (nodes, edges, _) = worked_example();
    let (nodes_again, edges_again, _) = worked_example();
    assert_eq!(sorted(nodes), sorted(nodes_again));
    assert_eq!(edges, edges_again);
}

#[test]
fn recording_the_same_reference_twice_changes_nothing() {
    let mut graph = ReferenceGraph::new();
    graph.add_reference("file:///r/b", "file:///r/a");
    graph.add_reference("file:///r/c", "file:///r/a");
    graph.add_reference("file:///r/b", "file:///r/a");
    graph.add_reference("file:///r/c", "file:///r/a");
    let (nodes, edges) = graph.finish("file:///r/");
    assert_eq!(nodes, vec!["b".to_string(), "c".to_string()]);
    assert_eq!(edges, vec![connection("b", "a"), connection("c", "a")]);
}

#[test]
fn a_reference_within_one_document_makes_no_edge() {
    let mut graph = ReferenceGraph::new();
    graph.add_node("file:///r/a");
    graph.add_reference("file:///r/a", "file:///r/a");
    let (nodes, edges) = graph.finish("file:///r/");
    assert_eq!(nodes, vec!["a".to_string()]);
    assert_eq!(edges, Vec::<Connection>::new());
}

#[test]
fn finish_drops_what_is_not_under_the_root() {
    let mut graph = ReferenceGraph::new();
    graph.add_reference("file:///elsewhere/x", "file:///r/a");
    graph.add_reference("file:///r/b", "file:///elsewhere/y");
    graph.add_reference("file:///r/b", "file:///r/a");
    graph.add_node("file:///r/a");
    let (nodes, edges) = graph.finish("file:///r/");
    assert_eq!(nodes, vec!["b".to_string(), "a".to_string()]);
    assert_eq!(edges, vec![connection("b", "a")]);
}

#[test]
fn capability_gate_without_references() {
    let mut run = Builder::new("file:///r/".to_string(), vec!["file:///r/a".to_string()]);
    let action = run.step(Event::Capabilities(ServerCapabilities {
        document_symbol_provider: true,
        references_provider: false,
    }));
    assert_eq!(action, Action::Abort(BuildError::NoReferences));
    assert_eq!(run.phase(), Phase::Failed);
    // Nothing that follows brings the run to a file.
    assert_eq!(run.step(Event::Sent), Action::Abort(BuildError::Unexpected));
    assert_eq!(run.step(capable()), Action::Abort(BuildError::Unexpected));
    assert_eq!(run.step(Event::Symbols(None)), Action::Abort(BuildError::Unexpected));
    assert!(run.finish().is_none());
}

#[test]
fn capability_gate_without_document_symbols() {
    let mut run = Builder::new("file:///r/".to_string(), vec!["file:///r/a".to_string()]);
    let action = run.step(Event::Capabilities(ServerCapabilities {
        document_symbol_provider: false,
        references_provider: false,
    }));
    assert_eq!(action, Action::Abort(BuildError::NoDocumentSymbols));
    assert_eq!(run.phase(), Phase::Failed);
}

#[test]
fn an_event_out_of_turn_ends_the_run() {
    let mut run = Builder::new("file:///r/".to_string(), vec!["file:///r/a".to_string()]);
    assert_eq!(run.phase(), Phase::AwaitCapabilities);
    assert_eq!(run.step(Event::Sent), Action::Abort(BuildError::Unexpected));
    let mut run = Builder::new("file:///r/".to_string(), vec!["file:///r/a".to_string()]);
    run.step(capable());
    run.step(Event::Sent);
    assert_eq!(run.step(Event::References(None)), Action::Abort(BuildError::Unexpected));
}

#[test]
fn a_run_without_files_is_complete_after_the_handshake() {
    let mut run = Builder::new("file:///r/".to_string(), Vec::new());
    assert_eq!(run.step(capable()), Action::Initialized);
    assert_eq!(run.step(Event::Sent), Action::Finish);
    assert_eq!(run.phase(), Phase::Finished);
    let (nodes, edges) = run.finish().unwrap();
    assert!(nodes.is_empty());
    assert!(edges.is_empty());
}

#[test]
fn files_and_symbols_without_an_answer_are_passed_over() {
    let a = "file:///r/a".to_string();
    let b = "file:///r/b".to_string();
    let mut run = Builder::new("file:///r/".to_string(), vec![a.clone(), b.clone()]);
    run.step(capable());
    assert_eq!(run.step(Event::Sent), Action::Open { file: 0 });
    assert_eq!(run.step(Event::Sent), Action::Symbols { file: 0 });
    // No symbols for the first file: on to the second.
    assert_eq!(run.step(Event::Symbols(None)), Action::Open { file: 1 });
    assert_eq!(run.step(Event::Sent), Action::Symbols { file: 1 });
    let answer = DocumentSymbolResponse::Nested(vec![
        symbol("one", FUNCTION, 1, vec![]),
        symbol("two", 13, 2, vec![]),
    ]);
    assert_eq!(
        run.step(Event::Symbols(Some(answer))),
        Action::References { file: 1, position: at(1, 3) }
    );
    // No references for the first symbol: on to the second.
    assert_eq!(
        run.step(Event::References(None)),
        Action::References { file: 1, position: at(2, 3) }
    );
    assert_eq!(run.step(Event::References(Some(vec![a.clone()]))), Action::Finish);
    let (nodes, edges) = run.finish().unwrap();
    // A file is a node from its first symbol on, referred to or not.
    assert_eq!(nodes, vec!["b".to_string(), "a".to_string()]);
    assert_eq!(edges, vec![connection("a", "b")]);
}

#[test]
fn a_file_without_symbols_is_no_node() {
    let mut run = Builder::new("file:///r/".to_string(), vec!["file:///r/a".to_string()]);
    run.step(capable());
    run.step(Event::Sent);
    run.step(Event::Sent);
    assert_eq!(run.step(Event::Symbols(Some(DocumentSymbolResponse::Nested(vec![])))), Action::Finish);
    let (nodes, _) = run.finish().unwrap();
    assert!(nodes.is_empty());
}

#[test]
fn nested_symbols_of_every_kind_are_asked_for() {
    let tree = DocumentSymbolResponse::Nested(vec![
        symbol(
            "Class",
            5,
            0,
            vec![
                symbol("method", METHOD, 1, vec![symbol("inner", 13, 2, vec![])]),
                symbol("field", 8, 3, vec![]),
            ],
        ),
        symbol("free", FUNCTION, 4, vec![]),
    ]);
    let mut run = Builder::new("file:///r/".to_string(), vec!["file:///r/a".to_string()]);
    run.step(capable());
    run.step(Event::Sent);
    run.step(Event::Sent);
    let mut asked = Vec::new();
    let mut action = run.step(Event::Symbols(Some(tree)));
    while let Action::References { file, position } = action {
        assert_eq!(file, 0);
        asked.push(position.line);
        action = run.step(Event::References(Some(vec![])));
    }
    assert_eq!(action, Action::Finish);
    assert_eq!(asked, vec![0, 1, 2, 3, 4]);
}

#[test]
fn flatten_reads_trees_first_to_last_and_lists_as_they_are() {
    let tree = DocumentSymbolResponse::Nested(vec![
        symbol("a", 5, 0, vec![symbol("b", METHOD, 1, vec![]), symbol("c", 8, 2, vec![])]),
        symbol("d", FUNCTION, 3, vec![]),
    ]);
    assert_eq!(
        flatten_symbols(&tree),
        vec![
            Site { kind: SymbolKind(5), position: at(0, 3) },
            Site { kind: SymbolKind(METHOD), position: at(1, 3) },
            Site { kind: SymbolKind(8), position: at(2, 3) },
            Site { kind: SymbolKind(FUNCTION), position: at(3, 3) },
        ]
    );
    let list = DocumentSymbolResponse::Flat(vec![
        SymbolInformation { name: "x".to_string(), kind: SymbolKind(FUNCTION), range: span(7, 1, 9) },
        SymbolInformation { name: "y".to_string(), kind: SymbolKind(13), range: span(8, 2, 9) },
    ]);
    assert_eq!(
        flatten_symbols(&list),
        vec![
            Site { kind: SymbolKind(FUNCTION), position: at(7, 1) },
            Site { kind: SymbolKind(13), position: at(8, 2) },
        ]
    );
}

#[test]
fn only_functions_and_methods_can_be_called() {
    assert!(SymbolKind(FUNCTION).callable());
    assert!(SymbolKind(METHOD).callable());
    assert!(SymbolKind(12).callable());
    assert!(SymbolKind(6).callable());
    for other in [0, 1, 5, 7, 11, 13, 26, -1] {
        assert!(!SymbolKind(other).callable());
    }
}

#[test]
fn the_run_declares_its_interests_and_names_its_files() {
    let run = Builder::new("file:///r/".to_string(), vec!["file:///r/a".to_string()]);
    assert_eq!(
        run.interests(),
        Interests {
            document_symbols: true,
            references: true,
            call_hierarchy: true,
            workspace_symbols: true,
        }
    );
    assert_eq!(run.file_name(0), Some("file:///r/a"));
    assert_eq!(run.file_name(1), None);
}

#[test]
fn path_to_uri_prefixes_the_scheme() {
    assert_eq!(path_to_uri("/home/user/project").unwrap(), "file:///home/user/project");
    assert_eq!(path_to_uri("/a/b.txt").unwrap(), "file:///a/b.txt");
}

#[test]
fn path_to_uri_refuses_what_is_no_uri() {
    let error = path_to_uri("/with space/and<angle>").unwrap_err();
    assert_eq!(error.text, "file:///with space/and<angle>");
}

/// Runs the builder over the worked example with the root named as
/// `path_to_uri` names it.
#[test]
fn worked_scenario_with_the_root_as_a_path_names_it() {
    let root = path_to_uri("/p").unwrap();
    let a = path_to_uri("/p/a.txt").unwrap();
    let b = path_to_uri("/p/b.txt").unwrap();
    assert_eq!(root, "file:///p");
    let mut run = Builder::new(root, vec![a.clone(), b.clone()]);
    run.step(capable());
    run.step(Event::Sent);
    run.step(Event::Sent);
    run.step(Event::Symbols(Some(DocumentSymbolResponse::Nested(vec![symbol(
        "f",
        FUNCTION,
        0,
        vec![],
    )]))));
    run.step(Event::References(Some(vec![a.clone(), b.clone()])));
    run.step(Event::Sent);
    run.step(Event::Symbols(Some(DocumentSymbolResponse::Nested(vec![symbol(
        "g",
        FUNCTION,
        0,
        vec![],
    )]))));
    assert_eq!(run.step(Event::References(Some(vec![b.clone()]))), Action::Finish);
    let (nodes, edges) = run.finish().unwrap();
    assert_eq!(sorted(nodes), vec!["a.txt".to_string(), "b.txt".to_string()]);
    assert_eq!(edges, vec![connection("b.txt", "a.txt")]);
}

#[test]
fn a_neighbour_of_the_root_is_not_under_it() {
    let mut graph = ReferenceGraph::new();
    graph.add_reference("file:///pX/y", "file:///p/a");
    graph.add_reference("file:///p/b", "file:///pX/y");
    graph.add_reference("file:///p/b", "file:///p/a");
    let (nodes, edges) = graph.finish("file:///p");
    assert_eq!(nodes, vec!["b".to_string()]);
    assert_eq!(edges, vec![connection("b", "a")]);
}

#[test]
fn two_file_project_with_the_root_as_a_path_names_it() {
    let mut graph = ReferenceGraph::new();
    graph.add_node("file:///p/b");
    graph.add_reference("file:///p/a", "file:///p/b");
    graph.add_reference("file:///p/b", "file:///p/b");
    let (nodes, edges) = graph.finish("file:///p");
    assert_eq!(sorted(nodes), vec!["a".to_string(), "b".to_string()]);
    assert_eq!(edges, vec![connection("a", "b")]);
}
