use lsp_client::symbols::{
    DocumentSymbol, DocumentSymbolResponse, Position, Range, SymbolInformation, SymbolKind,
    FUNCTION, METHOD,
};
use lsp_client::text::{
    directory_of, is_under, same_text, starts_with, strip_front, strip_root,
};
use lsp_client::usage::{
    calc_fn_usage, find_node, get_function_calls, get_project_functions, CallHierarchyItem, Usage,
    UsageError,
};

fn at(line: u32, character: u32) -> Position {
    Position { line, character }
}

fn span(line: u32) -> Range {
    Range { start: at(line, 3), end: at(line, 9) }
}

fn item(name: &str, document: &str, line: u32) -> CallHierarchyItem {
    CallHierarchyItem {
        name: name.to_string(),
        kind: SymbolKind(FUNCTION),
        document: document.to_string(),
        range: Range { start: at(line, 0), end: at(line + 3, 1) },
        selection_range: span(line),
    }
}

fn of_kind(mut it: CallHierarchyItem, kind: i32) -> CallHierarchyItem {
    it.kind = SymbolKind(kind);
    it
}

fn names(items: &[CallHierarchyItem]) -> Vec<String> {
    items.iter().map(|i| i.name.clone()).collect()
}

fn pairs(calls: &[(CallHierarchyItem, CallHierarchyItem)]) -> Vec<(String, String)> {
    calls.iter().map(|(a, b)| (a.name.clone(), b.name.clone())).collect()
}

fn score(usage: &Usage) -> f32 {
    100. * usage.dependents as f32 / usage.total as f32
}

fn symbol(name: &str, kind: i32, line: u32, children: Vec<DocumentSymbol>) -> DocumentSymbol {
    DocumentSymbol {
        name: name.to_string(),
        kind: SymbolKind(kind),
        range: Range { start: at(line, 0), end: at(line + 1, 0) },
        selection_range: span(line),
        children,
    }
}

#[test]
fn two_functions_one_calling_the_other() {
    let caller = item("caller", "/p/a.rs", 1);
    let called = item("called", "/p/a.rs", 9);
    let items = vec![caller.duplicate(), called.duplicate()];
    let calls = vec![(caller, called)];
    let usages = calc_fn_usage(&items, &calls).unwrap();
    assert_eq!(usages, vec![Usage { dependents: 0, total: 2 }, Usage { dependents: 1, total: 2 }]);
    assert_eq!(usages[1].percent(), 50);
    assert_eq!(usages[0].percent(), 0);
    assert_eq!(score(&usages[1]), 50.0);
    assert_eq!(score(&usages[0]), 0.0);
}

#[test]
fn worked_scenario_usage_scores() {
    // a.txt declares f, b.txt declares g, and g calls f.
    let f = item("f", "/project/a.txt", 0);
    let g = item("g", "/project/b.txt", 0);
    let g_in_b = CallHierarchyItem { selection_range: span(5), ..g.duplicate() };
    let f_in_a = f.duplicate();
    let answers = vec![(f_in_a, Some(vec![g_in_b.duplicate()])), (g_in_b.duplicate(), Some(vec![]))];
    let (items, calls) = get_function_calls(&answers, "/project");
    assert_eq!(names(&items), vec!["f", "g"]);
    assert_eq!(pairs(&calls), vec![("g".to_string(), "f".to_string())]);
    let usages = calc_fn_usage(&items, &calls).unwrap();
    assert_eq!(usages[0].percent(), 50);
    assert_eq!(usages[1].percent(), 0);
    assert_eq!(score(&usages[0]), 50.0);
    assert_eq!(score(&usages[1]), 0.0);
}

#[test]
fn reachability_counts_callers_of_callers() {
    // a -> b -> c, d -> c, e alone
    let a = item("a", "/p/x", 1);
    let b = item("b", "/p/x", 2);
    let c = item("c", "/p/x", 3);
    let d = item("d", "/p/x", 4);
    let e = item("e", "/p/x", 5);
    let items = vec![a.duplicate(), b.duplicate(), c.duplicate(), d.duplicate(), e.duplicate()];
    let calls = vec![
        (a.duplicate(), b.duplicate()),
        (b.duplicate(), c.duplicate()),
        (d.duplicate(), c.duplicate()),
    ];
    let usages = calc_fn_usage(&items, &calls).unwrap();
    let dependents: Vec<usize> = usages.iter().map(|u| u.dependents).collect();
    assert_eq!(dependents, vec![0, 1, 3, 0, 0]);
    assert!(usages.iter().all(|u| u.total == 5));
    let percents: Vec<u64> = usages.iter().map(|u| u.percent()).collect();
    assert_eq!(percents, vec![0, 20, 60, 0, 0]);
}

#[test]
fn a_cycle_reaches_every_member_but_counts_no_function_for_itself() {
    let a = item("a", "/p/x", 1);
    let b = item("b", "/p/x", 2);
    let c = item("c", "/p/x", 3);
    let items = vec![a.duplicate(), b.duplicate(), c.duplicate()];
    let calls = vec![
        (a.duplicate(), b.duplicate()),
        (b.duplicate(), c.duplicate()),
        (c.duplicate(), a.duplicate()),
        (a.duplicate(), a.duplicate()),
    ];
    let usages = calc_fn_usage(&items, &calls).unwrap();
    for usage in &usages {
        assert_eq!(usage.dependents, 2);
        assert_eq!(usage.total, 3);
        assert_eq!(usage.percent(), 66);
        assert!(usage.percent() <= 100);
    }
}

#[test]
fn scores_stay_between_nothing_and_a_hundred() {
    // Everything calls the last function.
    let items: Vec<CallHierarchyItem> = (0..10).map(|i| item("f", "/p/x", i)).collect();
    let calls: Vec<(CallHierarchyItem, CallHierarchyItem)> =
        (0..9).map(|i| (items[i].duplicate(), items[9].duplicate())).collect();
    let usages = calc_fn_usage(&items, &calls).unwrap();
    assert_eq!(usages[9], Usage { dependents: 9, total: 10 });
    assert_eq!(usages[9].percent(), 90);
    for usage in &usages {
        assert!(usage.dependents < usage.total);
        assert!(usage.percent() <= 100);
        assert!(score(usage) >= 0.0 && score(usage) <= 100.0);
    }
    assert_eq!(Usage { dependents: 0, total: 0 }.percent(), 0);
    assert_eq!(Usage { dependents: 7, total: 3 }.percent(), 100);
    assert_eq!(Usage { dependents: 1, total: 3 }.percent(), 33);
}

#[test]
fn no_items_give_no_scores() {
    assert_eq!(calc_fn_usage(&Vec::new(), &Vec::new()), Ok(Vec::new()));
}

#[test]
fn a_call_is_found_by_document_range_and_kind() {
    // The caller comes back from the server under another name.
    let f = item("f", "/p/a", 1);
    let g = item("g", "/p/b", 2);
    let g_again = CallHierarchyItem { name: "g (again)".to_string(), ..item("g", "/p/b", 2) };
    let usages = calc_fn_usage(&vec![f.duplicate(), g], &vec![(g_again, f)]).unwrap();
    assert_eq!(usages[0].dependents, 1);
}

#[test]
fn items_with_one_range_in_two_documents_are_two_nodes() {
    // f in a.rs and h in b.rs stand at the same place of their documents.
    let f = item("f", "/p/a.rs", 0);
    let h = item("h", "/p/b.rs", 0);
    let g = item("g", "/p/a.rs", 5);
    let items = vec![f.duplicate(), h.duplicate(), g.duplicate()];
    assert_eq!(find_node(&items, &h), Some(1));
    let usages = calc_fn_usage(&items, &vec![(g.duplicate(), h.duplicate())]).unwrap();
    assert_eq!(
        usages,
        vec![
            Usage { dependents: 0, total: 3 },
            Usage { dependents: 1, total: 3 },
            Usage { dependents: 0, total: 3 },
        ]
    );
    assert_eq!(score(&usages[1]), 100.0 / 3.0);
    assert_eq!(score(&usages[0]), 0.0);
}

#[test]
fn an_item_of_another_kind_or_document_is_another_node() {
    let f = item("f", "/p/a.rs", 1);
    let items = vec![f.duplicate()];
    assert_eq!(find_node(&items, &f), Some(0));
    assert_eq!(find_node(&items, &of_kind(f.duplicate(), METHOD)), None);
    assert_eq!(find_node(&items, &item("f", "/p/b.rs", 1)), None);
    assert_eq!(find_node(&items, &item("f", "/p/a.rs", 2)), None);
    let stranger = item("f", "/elsewhere/a.rs", 1);
    assert_eq!(
        calc_fn_usage(&items, &vec![(stranger, f.duplicate())]),
        Err(UsageError::UnknownItem(0))
    );
}

#[test]
fn an_item_listed_twice_is_two_nodes_and_calls_go_to_the_first() {
    let f = item("f", "/p/a", 1);
    let g = item("g", "/p/a", 2);
    let items = vec![f.duplicate(), g.duplicate(), f.duplicate()];
    assert_eq!(find_node(&items, &f), Some(0));
    assert_eq!(find_node(&items, &g), Some(1));
    assert_eq!(find_node(&items, &item("f", "/p/a", 77)), None);
    let usages = calc_fn_usage(&items, &vec![(g, f)]).unwrap();
    assert_eq!(
        usages,
        vec![
            Usage { dependents: 1, total: 3 },
            Usage { dependents: 0, total: 3 },
            Usage { dependents: 0, total: 3 },
        ]
    );
}

#[test]
fn a_call_with_an_unknown_end_is_refused() {
    let f = item("f", "/p/a", 1);
    let g = item("g", "/p/a", 2);
    let stranger = item("h", "/p/a", 3);
    let items = vec![f.duplicate(), g.duplicate()];
    let calls = vec![(g.duplicate(), f.duplicate()), (stranger.duplicate(), f.duplicate())];
    assert_eq!(calc_fn_usage(&items, &calls), Err(UsageError::UnknownItem(1)));
    let calls = vec![(f.duplicate(), stranger)];
    assert_eq!(calc_fn_usage(&items, &calls), Err(UsageError::UnknownItem(0)));
}

#[test]
fn calls_from_outside_the_root_are_left_out() {
    let f = item("f", "/project/src/a.rs", 1);
    let inside = item("inside", "/project/src/b.rs", 2);
    let outside = item("outside", "/home/.cargo/registry/dep.rs", 3);
    let sibling = item("sibling", "/projects/other.rs", 4);
    let answers = vec![(
        f.duplicate(),
        Some(vec![outside.duplicate(), inside.duplicate(), sibling.duplicate()]),
    )];
    let (items, calls) = get_function_calls(&answers, "/project/");
    assert_eq!(names(&items), vec!["f"]);
    assert_eq!(pairs(&calls), vec![("inside".to_string(), "f".to_string())]);
    // The root is a directory, named with or without the separator behind
    // it: a neighbour whose name starts alike does not lie under it.
    let (_, calls) = get_function_calls(&answers, "/project");
    assert_eq!(pairs(&calls), vec![("inside".to_string(), "f".to_string())]);
    let (_, calls) = get_function_calls(&answers, "/");
    assert_eq!(calls.len(), 3);
    let (_, calls) = get_function_calls(&answers, "/project/src/b.rs");
    assert_eq!(calls.len(), 0);
}

#[test]
fn items_that_cannot_be_called_are_left_out_with_their_calls() {
    let f = item("f", "/p/a", 1);
    let m = of_kind(item("m", "/p/a", 2), METHOD);
    let class = of_kind(item("Class", "/p/a", 3), 5);
    let caller = item("caller", "/p/b", 4);
    let answers = vec![
        (f.duplicate(), None),
        (class.duplicate(), Some(vec![caller.duplicate()])),
        (m.duplicate(), Some(vec![caller.duplicate(), f.duplicate()])),
    ];
    let (items, calls) = get_function_calls(&answers, "/p");
    assert_eq!(names(&items), vec!["f", "m"]);
    assert_eq!(
        pairs(&calls),
        vec![("caller".to_string(), "m".to_string()), ("f".to_string(), "m".to_string())]
    );
}

#[test]
fn project_functions_are_the_callables_of_every_document() {
    let nested = DocumentSymbolResponse::Nested(vec![
        symbol(
            "Class",
            5,
            0,
            vec![symbol("method", METHOD, 1, vec![symbol("closure", FUNCTION, 2, vec![])])],
        ),
        symbol("CONSTANT", 14, 5, vec![]),
        symbol("free", FUNCTION, 6, vec![]),
    ]);
    let flat = DocumentSymbolResponse::Flat(vec![
        SymbolInformation {
            name: "x".to_string(),
            kind: SymbolKind(13),
            range: Range { start: at(1, 1), end: at(1, 2) },
        },
        SymbolInformation {
            name: "y".to_string(),
            kind: SymbolKind(FUNCTION),
            range: Range { start: at(8, 4), end: at(9, 0) },
        },
    ]);
    let documents = vec![
        ("file:///p/a".to_string(), Some(nested)),
        ("file:///p/b".to_string(), None),
        ("file:///p/c".to_string(), Some(flat)),
    ];
    assert_eq!(
        get_project_functions(&documents),
        vec![
            ("file:///p/a".to_string(), at(1, 3)),
            ("file:///p/a".to_string(), at(2, 3)),
            ("file:///p/a".to_string(), at(6, 3)),
            ("file:///p/c".to_string(), at(8, 4)),
        ]
    );
    assert_eq!(get_project_functions(&Vec::new()), Vec::new());
}

#[test]
fn prefixes_of_texts() {
    assert!(starts_with("/project/a", "/project"));
    assert!(starts_with("abc", ""));
    assert!(starts_with("abc", "abc"));
    assert!(!starts_with("ab", "abc"));
    assert!(!starts_with("xabc", "abc"));
    assert_eq!(strip_front("file:///r/a.txt", "file:///r"), Some("/a.txt".to_string()));
    assert_eq!(strip_front("\u{00e9}t\u{00e9}", "\u{00e9}"), Some("t\u{00e9}".to_string()));
    assert_eq!(strip_front("abc", "abd"), None);
    assert!(same_text("abc", "abc"));
    assert!(same_text("", ""));
    assert!(!same_text("abc", "ab"));
    assert!(!same_text("ab", "abc"));
    assert!(!same_text("abc", "abd"));
}

#[test]
fn names_relative_to_a_root() {
    // With and without the separator behind the root.
    assert_eq!(strip_root("file:///r/a.txt", "file:///r/"), Some("a.txt".to_string()));
    assert_eq!(strip_root("file:///r/a.txt", "file:///r"), Some("a.txt".to_string()));
    assert_eq!(strip_root("file:///r/d/a.txt", "file:///r"), Some("d/a.txt".to_string()));
    assert_eq!(strip_root("file:///r/", "file:///r"), Some(String::new()));
    // The root itself, named without the separator, is not under the root.
    assert_eq!(strip_root("file:///r", "file:///r"), None);
    // A neighbour whose name starts with the root's text is not under it.
    assert_eq!(strip_root("file:///rX/y", "file:///r"), None);
    assert_eq!(strip_root("file:///other/a.txt", "file:///r/"), None);
    assert_eq!(strip_root("/a", ""), Some("a".to_string()));
    assert_eq!(strip_root("\u{00e9}/t\u{00e9}", "\u{00e9}"), Some("t\u{00e9}".to_string()));
    assert_eq!(directory_of("/p"), "/p/");
    assert_eq!(directory_of("/p/"), "/p/");
    assert_eq!(directory_of(""), "/");
    assert_eq!(directory_of("\u{00e9}"), "\u{00e9}/");
    assert!(is_under("/p/a", "/p"));
    assert!(is_under("/p/a", "/p/"));
    assert!(!is_under("/pa", "/p"));
    assert!(!is_under("/p", "/p"));
}
