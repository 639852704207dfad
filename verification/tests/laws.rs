use std::sync::mpsc;

use prolyxena::commands::prolyxena_parse;
use prolyxena::flattening::Flattening;
use prolyxena::format::Format;
use prolyxena::generate::{Generate, Remove};
use prolyxena::lexer::Lexer;
use prolyxena::output::timeline_message;
use prolyxena::parsing::parse_source;
use prolyxena::query::Query;
use prolyxena::sort::Sort;
use prolyxena::tui::{ParseTask, TaskStatus, Tui};
use prolyxena::value::{clone_nix, AttrMap, LambdaTypes, NixValue, Operator, ParseEvent};
use prolyxena::vfs::{Delete, DirMap, FsData, FsNodes, Modify, ReOderMode, Search};
use prolyxena::write::WriteStep;

fn parse(text: &str) -> NixValue {
    parse_source(text, "law.nix".to_string()).unwrap()
}

fn attrs(entries: Vec<(&str, NixValue)>) -> NixValue {
    NixValue::AttrSet(AttrMap { entries: entries.into_iter().map(|(k, v)| (k.to_string(), v)).collect() })
}

// Sorting and flattening a second time change nothing.

#[test]
fn law_sort_is_idempotent() {
    let mut once = parse("{ b = 1; a = { d = [ { z = 1; y = 2; } ]; c = 3; }; }");
    once.sort_ast();
    let mut twice = parse("{ b = 1; a = { d = [ { z = 1; y = 2; } ]; c = 3; }; }");
    twice.sort_ast();
    twice.sort_ast();
    assert_eq!(once, twice);
    assert_eq!(once.format_nix(0), parse("{ a = { c = 3; d = [ { y = 2; z = 1; } ]; }; b = 1; }").format_nix(0));
}

#[test]
fn law_sort_orders_keys() {
    let mut v = attrs(vec![("b", NixValue::Int(1)), ("a", NixValue::Int(2)), ("C", NixValue::Int(3))]);
    v.sort_ast();
    if let NixValue::AttrSet(m) = v {
        let keys: Vec<&str> = m.entries.iter().map(|(k, _)| k.as_str()).collect();
        assert_eq!(keys, vec!["C", "a", "b"]);
    } else {
        panic!("attribute set expected");
    }
}

#[test]
fn law_sort_orders_keys_throughout() {
    let mut v = parse("{ z = { d = 1; c = [ { y = 1; x = 2; } ]; }; a = { pkgs, lib, ... }: { n = 1; m = 2; }; }");
    v.sort_ast();
    assert_eq!(v, parse("{ a = { ..., lib, pkgs }: { m = 2; n = 1; }; z = { c = [ { x = 2; y = 1; } ]; d = 1; }; }"));
}

#[test]
fn law_expand_undoes_flatten() {
    let v = parse("{ a = { b = 1; c = { d = 2; }; }; e = [ { f = { g = 3; }; } ]; h = let i = { j = 4; }; in i; }");
    let mut w = clone_nix(&v);
    w.flatten();
    assert_ne!(w, v);
    w.expand();
    assert_eq!(w, v);
}

#[test]
fn law_flatten_undoes_expand() {
    let v = parse("{ a.b.c = 1; a.b.d = 2; a.e = 3; f = [ { g.h = 4; } ]; i = 5; }");
    let mut w = clone_nix(&v);
    w.expand();
    assert_ne!(w, v);
    w.flatten();
    assert_eq!(w, v);
}

#[test]
fn interleaved_keys_come_back_grouped() {
    let v = parse("{ a.b = 1; c = 2; a.d = 3; }");
    let mut w = clone_nix(&v);
    w.expand();
    w.flatten();
    assert_eq!(w, parse("{ a.b = 1; a.d = 3; c = 2; }"));
}

#[test]
fn empty_set_value_is_lost_by_flattening() {
    let v = parse("{ a = { }; b = 1; }");
    let mut w = clone_nix(&v);
    w.flatten();
    w.expand();
    assert_eq!(w, parse("{ b = 1; }"));
}

#[test]
fn law_flatten_is_idempotent() {
    let mut once = parse("{ a = { b = { c = 1; }; d = 2; }; e = { }; f = [ { g = { h = 1; }; } ]; }");
    once.flatten();
    let mut twice = clone_nix(&once);
    twice.flatten();
    assert_eq!(once, twice);
    assert_eq!(
        once,
        attrs(vec![
            ("a.b.c", NixValue::Int(1)),
            ("a.d", NixValue::Int(2)),
            ("f", NixValue::List(vec![attrs(vec![("g.h", NixValue::Int(1))])])),
        ])
    );
}

#[test]
fn law_reorder_tree_is_idempotent() {
    let file = FsNodes::File { name: "a.nix".to_string(), ast: parse("{ b = 1; a = { c = 2; }; }") };
    let mut tree = FsNodes::Dir(DirMap { entries: vec![("a.nix".to_string(), file)] });
    tree.reorder_tree(&ReOderMode::Flatten);
    tree.reorder_tree(&ReOderMode::Sort);
    let mut again = FsNodes::Dir(DirMap { entries: vec![] });
    if let FsNodes::Dir(d) = &tree {
        if let FsNodes::File { name, ast } = &d.entries[0].1 {
            again = FsNodes::Dir(DirMap {
                entries: vec![(name.clone(), FsNodes::File { name: name.clone(), ast: clone_nix(ast) })],
            });
        }
    }
    again.reorder_tree(&ReOderMode::Sort);
    again.reorder_tree(&ReOderMode::Flatten);
    assert_eq!(tree, again);
}

// The progress log: opening and closing a step.

#[test]
fn law_open_close_restores_log() {
    let mut tui = Tui::new();
    tui.logs.push(ParseTask { name: "Getting Files".to_string(), indent: 0, status: TaskStatus::Running });
    let mut indent = 1;
    tui.apply_event(ParseEvent::StartList, &mut indent);
    assert_eq!(tui.logs.len(), 2);
    assert_eq!(indent, 2);
    tui.apply_event(ParseEvent::EndList, &mut indent);
    assert_eq!(tui.logs.len(), 1);
    assert_eq!(tui.logs[0].name, "Getting Files");
    assert_eq!(indent, 1);
    assert_eq!(tui.num_of_pars, 1);
}

#[test]
fn law_open_keep_leaves_finished_line() {
    let mut tui = Tui::new();
    let mut indent = 0;
    tui.apply_event(ParseEvent::StartParsingFile("a.nix".to_string()), &mut indent);
    tui.apply_event(ParseEvent::EndParsingFile("a.nix".to_string()), &mut indent);
    assert_eq!(tui.logs, vec![ParseTask {
        name: "Generating AST: a.nix".to_string(),
        indent: 0,
        status: TaskStatus::Finished,
    }]);
    assert_eq!(indent, 0);
}

#[test]
fn law_debug_close_adds_finished_line() {
    let mut tui = Tui::new();
    tui.set_debug(true);
    let mut indent = 0;
    tui.apply_event(ParseEvent::StartWith, &mut indent);
    tui.apply_event(ParseEvent::EndWith, &mut indent);
    assert_eq!(tui.logs.len(), 2);
    assert_eq!(tui.logs[1].status, TaskStatus::Finished);
    assert_eq!(tui.logs[1].indent, 0);
    assert_eq!(indent, 0);
}

#[test]
fn law_finished_keeps_log() {
    let mut tui = Tui::new();
    let mut indent = 0;
    tui.apply_event(ParseEvent::StartGen, &mut indent);
    tui.apply_event(ParseEvent::Finished("0.052s".to_string()), &mut indent);
    assert_eq!(tui.logs.len(), 1);
    assert_eq!(indent, 1);
    assert_eq!(tui.time, Some("0.052s".to_string()));
}

#[test]
fn take_time_stores_what_arrived() {
    let mut tui = Tui::new();
    tui.take_time(None);
    assert_eq!(tui.time, None);
    tui.take_time(Some("0.052s".to_string()));
    assert_eq!(tui.time, Some("0.052s".to_string()));
    tui.take_time(None);
    assert_eq!(tui.time, Some("0.052s".to_string()));
}

#[test]
fn parse_events_stores_received_time() {
    let mut tui = Tui::new();
    let mut indent = 0;
    let (tx, rx) = mpsc::channel();
    tui.time_rx = Some(rx);
    tx.send("0.052s".to_string()).unwrap();
    tui.parse_events(&mut indent);
    assert_eq!(tui.time, Some("0.052s".to_string()));
    assert!(tui.logs.is_empty());
    assert_eq!(indent, 0);
}

#[test]
fn reader_errors_are_syntax_errors() {
    for text in ["", ";", "(test", "${test", "18446744073709551616", "{ a = 1 }", "{ a, b }", "[ 1"] {
        let err = parse_source(text, "path.nix".to_string()).unwrap_err();
        assert!(err.starts_with("Syntax-Fehler: "), "{}", err);
    }
    let mut v = parse("{ }");
    assert!(v.insert("a", "{ kaputt").unwrap_err().starts_with("Syntax-Fehler: "));
}

#[test]
fn remove_error_texts() {
    let mut a = parse("{ a = 1; }");
    assert_eq!(a.remove("b", None).unwrap_err(), "Remove-Fehler: Option ist nicht in Datei enthalten");
    let mut l = parse("[ 1 ]");
    assert_eq!(
        l.remove("", None).unwrap_err(),
        "Remove-Fehler: Kann kein Element aus einer Liste entfernen, ohne Wert"
    );
    assert!(l.remove("", "[ 1").unwrap_err().starts_with("Syntax-Fehler: "));
    let mut w = parse("let a = 1; in 2");
    assert_eq!(
        w.remove("a", None).unwrap_err(),
        "Fehler: Der Zeil-Knoten muss ein Attribute Set oder Let In Statment sein"
    );
}

#[test]
fn take_event_opens_closes_and_drops() {
    let mut tui = Tui::new();
    let mut indent = 0;
    tui.take_event(ParseEvent::EndParsingFile("a.nix".to_string()), &mut indent);
    assert!(tui.logs.is_empty());
    assert_eq!(indent, 0);
    tui.take_event(ParseEvent::StartList, &mut indent);
    assert_eq!(tui.logs.len(), 1);
    assert_eq!(tui.logs[0].status, TaskStatus::Running);
    assert_eq!(indent, 1);
    tui.take_event(ParseEvent::EndList, &mut indent);
    assert!(tui.logs.is_empty());
    assert_eq!(indent, 0);
}

#[test]
fn parse_events_without_channels_changes_nothing() {
    let mut tui = Tui::new();
    let mut indent = 3;
    tui.parse_events(&mut indent);
    assert!(tui.logs.is_empty());
    assert_eq!(indent, 3);
    assert_eq!(tui.time, None);
}

#[test]
fn from_pairs_replaces_in_place() {
    let m = AttrMap::from_pairs(vec![
        ("a".to_string(), NixValue::Int(1)),
        ("b".to_string(), NixValue::Int(2)),
        ("a".to_string(), NixValue::Int(3)),
    ]);
    assert_eq!(m.entries, vec![("a".to_string(), NixValue::Int(3)), ("b".to_string(), NixValue::Int(2))]);
}

#[test]
fn keep_at_depth_zero_is_dropped() {
    let mut tui = Tui::new();
    let mut indent = 0;
    let (tx, rx) = mpsc::channel();
    tui.trans = Some(rx);
    tx.send(ParseEvent::EndGen).unwrap();
    tui.last_update = std::time::Instant::now() - std::time::Duration::from_millis(10);
    tui.parse_events(&mut indent);
    assert!(tui.logs.is_empty());
    assert_eq!(indent, 0);
}

#[test]
fn display_lines_and_sidebar() {
    let mut tui = Tui::new();
    let mut indent = 0;
    tui.apply_event(ParseEvent::StartGen, &mut indent);
    tui.apply_event(ParseEvent::StartAttrSet, &mut indent);
    assert_eq!(
        tui.log_lines(),
        vec![" [ ] Start Generating Tree".to_string(), "   [ ] Start Parsing Attribut Set".to_string()]
    );
    let _ = tui.load("/etc/nixos");
    assert_eq!(tui.sidebar_text(), " Path: /etc/nixos \n Time: running... \n Number of Actions: 2 / 2");
}

// Files stored by `generate_file` are found by `search_tree` and can be deleted.

#[test]
fn law_generate_then_search_and_delete() {
    let mut fs = FsData::new("/home/cato");
    fs.generate_file("hosts/web.nix", NixValue::Int(7)).unwrap();
    fs.generate_file("/hosts/db.nix", None).unwrap();
    assert_eq!(*fs.search_tree("/home/cato/hosts/web.nix").unwrap(), NixValue::Int(7));
    assert_eq!(*fs.search_tree("home/cato/hosts/db.nix").unwrap(), attrs(vec![]));
    assert!(fs.delete_file("/home/cato/hosts/web.nix").is_ok());
    assert_eq!(fs.search_tree("/home/cato/hosts/web.nix").unwrap_err(), "Query-Fehler: Ordner enthält die Datei nicht");
}

#[test]
fn generate_through_a_file_is_refused() {
    let mut fs = FsData::new("");
    fs.generate_file("a.nix", NixValue::Int(1)).unwrap();
    let r = fs.generate_file("a.nix/b/c.nix", NixValue::Int(2));
    assert_eq!(r.unwrap_err(), "Fehler: Versucht einen Ordner in einer Datei zu erstellen");
    // Where the last folder is a file, nothing is stored.
    assert!(fs.generate_file("a.nix/c.nix", NixValue::Int(2)).is_ok());
    assert_eq!(*fs.search_tree("a.nix").unwrap(), NixValue::Int(1));
}

#[test]
fn found_values_change_in_place() {
    let mut fs = FsData::new("");
    fs.generate_file("d/a.nix", NixValue::Int(1)).unwrap();
    *fs.search_tree("d/a.nix").unwrap() = NixValue::Int(5);
    assert_eq!(*fs.search_tree("/d/a.nix").unwrap(), NixValue::Int(5));

    let mut v = parse("{ a = { b = 1; }; c = [ { b = 2; } ]; }");
    for x in v.query_exact_mut(&["c", "b"]) {
        *x = NixValue::Int(8);
    }
    assert_eq!(v, parse("{ a = { b = 1; }; c = [ { b = 8; } ]; }"));
    for x in v.query_fuzzy_mut("B") {
        *x = NixValue::Int(9);
    }
    assert_eq!(v, parse("{ a = { b = 9; }; c = [ { b = 9; } ]; }"));
}

#[test]
fn search_and_delete_errors() {
    let mut fs = FsData::new("");
    fs.generate_file("d/a.nix", NixValue::Int(1)).unwrap();
    assert_eq!(fs.search_tree("d").unwrap_err(), "Query-Fehler: Gesuchte Datei stellt sich als Ordner heraus");
    assert_eq!(fs.search_tree("d/a.nix/x").unwrap_err(), "Query-Fehler: Letzter Ordner nicht vorhanden");
    assert_eq!(
        fs.search_tree("d/a.nix/x/y").unwrap_err(),
        "Query-Fehler: Versucht einen Ordner in einer Datei zu finden"
    );
    assert_eq!(fs.delete_file("d/b.nix").unwrap_err(), "Remove-Fehler: Ordner enthält die Datei nicht");
    assert_eq!(fs.delete_file("e/b.nix").unwrap_err(), "Query-Fehler: Ordner 'e' nicht gefunden");
}

// Inserting and removing values.

#[test]
fn insert_then_query_finds_value() {
    let mut v = parse("{ services.nginx.enable = true; }");
    v.insert("services.nginx.port", NixValue::Int(80)).unwrap();
    let found = v.query_exact_mut(&["services", "nginx", "port"]);
    assert_eq!(found.len(), 1);
    assert_eq!(*found[0], NixValue::Int(80));
}

#[test]
fn law_insert_then_query_single_key() {
    let mut v = parse("{ a.b = 1; c = 2; }");
    v.insert("d", "{ x.y = 3; }").unwrap();
    let found = v.query_exact_mut(&["d"]);
    assert_eq!(found.len(), 1);
    assert_eq!(*found[0], parse("{ x = { y = 3; }; }"));
}

#[test]
fn insert_under_key_that_later_key_extends() {
    let mut v = parse("{ a = 5; a.b = 1; }");
    v.insert("a", NixValue::Int(2)).unwrap();
    let found = v.query_exact_mut(&["a"]);
    assert_eq!(found.len(), 1);
    assert_eq!(*found[0], parse("{ b = 1; }"));
}

#[test]
fn insert_errors() {
    let mut v = parse("{ }");
    assert_eq!(v.insert("a", None).unwrap_err(), "Fehler: Leerer Wert kann nicht eingefügt werden");
    let mut w = NixValue::Int(1);
    assert_eq!(
        w.insert("a", NixValue::Int(2)).unwrap_err(),
        "Fehler: Der Zeil-Knoten muss ein Attribute Set oder Let In Statment sein"
    );
    let mut x = parse("{ }");
    assert!(x.insert("a", "{ b = ").is_err());
}

#[test]
fn remove_from_list_and_attrs() {
    let mut l = NixValue::List(vec![NixValue::Int(1), NixValue::Int(2), NixValue::Int(1), NixValue::Int(3)]);
    l.remove("", NixValue::Int(1)).unwrap();
    assert_eq!(l, NixValue::List(vec![NixValue::Int(2), NixValue::Int(3)]));
    let mut a = parse("{ a.b = 1; a.c = 2; }");
    a.remove("a.b", None).unwrap();
    assert_eq!(a, attrs(vec![("a", attrs(vec![("c", NixValue::Int(2))]))]));
}

#[test]
fn law_remove_then_query_finds_nothing() {
    let mut v = parse("{ a = 1; b.c = 2; }");
    v.remove("a", None).unwrap();
    assert!(v.query_exact_mut(&["a"]).is_empty());
    assert_eq!(v.query_exact_mut(&["b", "c"]).len(), 1);
    let mut w = parse("{ a = 1; b = { c = [ 2 ]; d = 3; }; }");
    w.remove("b.c", None).unwrap();
    assert!(w.query_exact_mut(&["b", "c"]).is_empty());
    assert_eq!(*w.query_exact_mut(&["b", "d"])[0], NixValue::Int(3));
}

// Formulas of the formatter and of the time.

#[test]
fn float_text_is_normalised() {
    assert_eq!(NixValue::Float("3.14".to_string()).format_nix(0), "3.14");
    assert_eq!(NixValue::Float("3.0".to_string()).format_nix(0), "3");
    assert_eq!(NixValue::Float("00.50".to_string()).format_nix(0), "0.5");
    assert_eq!(NixValue::Float(".5".to_string()).format_nix(0), "0.5");
}

#[test]
fn get_time_gives_the_shown_time() {
    let mut fs = FsData::new("x");
    assert_eq!(fs.get_time(), "0.000s");
    fs.finish_load(1_000_500_000, "1.000s".to_string());
    assert_eq!(fs.get_time(), "1.000s");
    assert_eq!(fs.time, 1_000_500_000);
}

#[test]
fn finish_load_keeps_time_and_reports() {
    let (tx, rx) = mpsc::channel();
    let mut fs = FsData::new_trans("x.nix", tx);
    fs.finish_load(3_000_000, "0.003s".to_string());
    assert_eq!(fs.time, 3_000_000);
    assert_eq!(fs.get_time(), "0.003s");
    assert_eq!(rx.try_recv().unwrap(), ParseEvent::Finished("0.003s".to_string()));
}

// Writing back.

#[test]
fn walk_tree_single_file() {
    let mut fs = FsData::new("/etc/nixos/configuration.nix");
    fs.get_files(Vec::new());
    fs.gen_tree(&vec!["{ b = 1; a = 2; }".to_string()]).unwrap();
    let plan = fs.walk_tree().unwrap();
    assert_eq!(
        plan.steps,
        vec![WriteStep::WriteFile("/etc/nixos/configuration.nix".to_string(), "{\n  b = 1;\n  a = 2;\n}".to_string())]
    );
    assert!(plan.stale.is_empty());
    let empty = FsData::new("/x.nix");
    assert_eq!(empty.walk_tree().unwrap_err(), "Konnte die einzelne Datei nicht im AST finden");
}

#[test]
fn law_format_single_file_writes_sorted_text() {
    let mut fs = FsData::new("/etc/nixos/configuration.nix");
    fs.set_sort(true);
    fs.get_files(Vec::new());
    fs.gen_tree(&vec!["{ b = 1; a = { d = 2; c = 3; }; }".to_string()]).unwrap();
    let plan = fs.walk_tree().unwrap();
    assert_eq!(
        plan.steps,
        vec![WriteStep::WriteFile(
            "/etc/nixos/configuration.nix".to_string(),
            "{\n  a = {\n    c = 3;\n    d = 2;\n  };\n  b = 1;\n}".to_string()
        )]
    );
    let mut bad = FsData::new("/x.nix");
    bad.set_sort(true);
    bad.get_files(Vec::new());
    assert!(bad.gen_tree(&vec!["{ a = ".to_string()]).is_err());
}

#[test]
fn walk_tree_folder_and_stale_files() {
    let mut fs = FsData::new("/cfg");
    fs.get_files(vec!["/cfg/a.nix".to_string(), "/cfg/sub/b.nix".to_string(), "/cfg/notes.txt".to_string()]);
    assert_eq!(fs.files, vec!["/cfg/a.nix".to_string(), "/cfg/sub/b.nix".to_string()]);
    fs.gen_tree(&vec!["1".to_string(), "true".to_string()]).unwrap();
    fs.files.push("/cfg/gone.nix".to_string());
    let plan = fs.walk_tree().unwrap();
    assert_eq!(
        plan.steps,
        vec![
            WriteStep::MakeDir("/cfg".to_string()),
            WriteStep::WriteFile("/cfg/a.nix".to_string(), "1".to_string()),
            WriteStep::MakeDir("/cfg/sub".to_string()),
            WriteStep::WriteFile("/cfg/sub/b.nix".to_string(), "true".to_string()),
        ]
    );
    assert_eq!(plan.stale, vec!["/cfg/gone.nix".to_string()]);
}

#[test]
fn gen_tree_reports_parse_errors_and_file_as_folder() {
    let mut fs = FsData::new("/cfg");
    fs.get_files(vec!["/cfg/a.nix".to_string()]);
    assert!(fs.gen_tree(&vec!["{ a = ".to_string()]).is_err());
    // A file below a file is passed over.
    let mut fs2 = FsData::new("/cfg");
    fs2.get_files(vec!["/cfg/a.nix".to_string(), "/cfg/a.nix/b.nix".to_string()]);
    assert!(fs2.gen_tree(&vec!["1".to_string(), "2".to_string()]).is_ok());
    assert_eq!(*fs2.search_tree("a.nix").unwrap(), NixValue::Int(1));
    // A file below a file below a file is refused.
    let mut fs3 = FsData::new("/cfg");
    fs3.get_files(vec!["/cfg/a.nix".to_string(), "/cfg/a.nix/b/c.nix".to_string()]);
    assert_eq!(
        fs3.gen_tree(&vec!["1".to_string(), "2".to_string()]).unwrap_err(),
        "Fehler: Versucht einen Ordner in einer Datei zu erstellen"
    );
}

// Wrappers of std and of the channels.

#[test]
fn fuzzy_query_ignores_case() {
    let mut v = parse("{ services = [ my-Custom-service other ]; }");
    let found = v.query_fuzzy_mut("CUSTOM");
    assert_eq!(found.len(), 1);
    assert_eq!(*found[0], NixValue::Identifier("my-Custom-service".to_string()));
}

#[test]
fn unicode_letters_start_names() {
    let l = Lexer::new("größe: größe", "u.nix".to_string());
    assert!(l.is_lambda_ahead());
    assert_eq!(parse("{ größe = 1; }"), attrs(vec![("größe", NixValue::Int(1))]));
}

#[test]
fn lexer_reports_events() {
    let (tx, rx) = mpsc::channel();
    let mut l = Lexer::new_trans("[ 1 ]", "e.nix".to_string(), tx);
    l.parse_value().unwrap();
    let events: Vec<ParseEvent> = rx.try_iter().collect();
    assert!(events.contains(&ParseEvent::StartList));
    assert!(events.contains(&ParseEvent::EndList));
    assert_eq!(events[0], ParseEvent::StartValue);
}

#[test]
fn timeline_messages() {
    assert_eq!(timeline_message(&ParseEvent::StartList), Some("Öffne Liste".to_string()));
    assert_eq!(timeline_message(&ParseEvent::EndValue), Some("Schließe Value".to_string()));
    assert_eq!(timeline_message(&ParseEvent::StartGen), None);
}

#[test]
fn parse_source_results() {
    assert_eq!(parse("{ a = 1; }"), attrs(vec![("a", NixValue::Int(1))]));
    assert!(parse_source(";", "x.nix".to_string()).is_err());
    assert!(parse_source("", "x.nix".to_string()).is_err());
}

#[test]
fn open_argument_lists() {
    let mut l = Lexer::new("a, b ? 1, ... }: a", "f.nix".to_string());
    assert!(l.is_lambda_ahead());
    let v = l.parse_lambda().unwrap();
    let names: Vec<String> = vec!["a", "b", "?", "1", "..."].into_iter().map(String::from).collect();
    assert_eq!(v, NixValue::Lambda(LambdaTypes::Nofix(names, Box::new(NixValue::Identifier("a".to_string())))));
    let string_with_port = parse("{ url = ''${host}:${port}''; }");
    assert_eq!(string_with_port.format_nix(0), "{\n  url = ''${host}:${port}'';\n}");
}

#[test]
fn show_output_prints_the_given_tree() {
    let text = prolyxena_parse(&FsData::new("a.nix"), "Dir({\"a.nix\": File})", true, false);
    assert_eq!(text, "Dir({\"a.nix\": File})\n");
}

// Expanding a second time changes nothing, where no key has an empty part.

#[test]
fn law_expand_is_idempotent() {
    let mut once = parse("{ a.b.c = 1; a.d = 2; \"x.y\".z = 3; e = { f.g = 4; }; }");
    once.expand();
    let mut twice = clone_nix(&once);
    twice.expand();
    assert_eq!(once, twice);
    assert_eq!(
        once,
        attrs(vec![
            ("a", attrs(vec![("b", attrs(vec![("c", NixValue::Int(1))])), ("d", NixValue::Int(2))])),
            ("\"x.y\"", attrs(vec![("z", NixValue::Int(3))])),
            ("e", attrs(vec![("f", attrs(vec![("g", NixValue::Int(4))]))])),
        ])
    );
}

#[test]
fn expand_with_empty_key_part_changes_again() {
    let mut once = parse("{ a..b = 1; }");
    once.expand();
    assert_eq!(once, attrs(vec![("a", attrs(vec![("", attrs(vec![("b", NixValue::Int(1))]))]))]));
    let mut twice = clone_nix(&once);
    twice.expand();
    assert_eq!(twice, attrs(vec![("a", attrs(vec![]))]));
}

// Reading back what the formatter wrote.

fn expand_sort_format(text: &str) -> String {
    let mut v = parse(text);
    v.expand();
    v.sort_ast();
    v.format_nix(0)
}

#[test]
fn law_format_then_read_gives_value() {
    let v = attrs(vec![
        ("imports", NixValue::List(vec![NixValue::Path("./hardware-configuration.nix".to_string())])),
        ("networking", attrs(vec![("hostName", NixValue::Str("nixos".to_string()))])),
        ("port", NixValue::Int(8080)),
        ("enable", NixValue::Bool(true)),
        ("user", NixValue::Identifier("alice".to_string())),
        ("empty", attrs(vec![])),
        ("none", NixValue::List(vec![])),
    ]);
    let text = v.format_nix(0);
    assert_eq!(parse(&text), v);
    let names: Vec<String> = vec!["config", "pkgs", "..."].into_iter().map(String::from).collect();
    let f = NixValue::Lambda(LambdaTypes::Nofix(names, Box::new(clone_nix(&v))));
    assert_eq!(parse(&f.format_nix(0)), f);
}

#[test]
fn law_format_then_read_groups_with_and_decimals() {
    let v = attrs(vec![
        ("pi", NixValue::Float("3.14".to_string())),
        ("g", NixValue::Group(Box::new(NixValue::Identifier("x".to_string())))),
        (
            "w",
            NixValue::With(
                Box::new(NixValue::Identifier("pkgs".to_string())),
                Box::new(NixValue::List(vec![NixValue::Identifier("git".to_string())])),
            ),
        ),
    ]);
    let text = v.format_nix(0);
    assert_eq!(parse(&text), v);
}

#[test]
fn law_format_then_read_strings_with_interpolations() {
    let v = attrs(vec![
        ("bin", NixValue::Str("${pkgs.hello}/bin".to_string())),
        ("set", NixValue::Str("{ a = { }; }".to_string())),
        (
            "f",
            NixValue::Lambda(LambdaTypes::Nofix(
                vec!["x".to_string(), "...".to_string()],
                Box::new(attrs(vec![("s", NixValue::Str("${x}".to_string()))])),
            )),
        ),
    ]);
    let text = v.format_nix(0);
    assert_eq!(parse(&text), v);
}

#[test]
fn law_format_then_read_one_argument_functions() {
    let id = |x: &str| NixValue::Identifier(x.to_string());
    let single = |n: &str, b: NixValue| NixValue::Lambda(LambdaTypes::Single(n.to_string(), Box::new(b)));
    let v = attrs(vec![
        ("f", single("x", id("x"))),
        (
            "g",
            NixValue::Apply(
                Box::new(id("map")),
                Box::new(NixValue::Group(Box::new(single("y", NixValue::Apply(Box::new(id("f")), Box::new(id("y"))))))),
            ),
        ),
        ("h", single("self", single("super", attrs(vec![("a", NixValue::Int(1))])))),
    ]);
    let text = v.format_nix(0);
    assert_eq!(text, "{\n  f = x: x;\n  g = map (y: f y);\n  h = self: super: {\n    a = 1;\n  };\n}");
    assert_eq!(parse(&text), v);
}

#[test]
fn law_format_then_read_quoted_keys() {
    let v = attrs(vec![
        ("fileSystems.\"/\".device", NixValue::Str("/dev/sda1".to_string())),
        ("services.nginx.virtualHosts.\"example.com\".root", NixValue::Path("./www".to_string())),
        ("\"x-y\"", NixValue::Bool(true)),
    ]);
    let text = v.format_nix(0);
    assert_eq!(parse(&text), v);
}

#[test]
fn law_format_then_read_named_function_heads() {
    let v = NixValue::Lambda(LambdaTypes::Prefix(
        vec!["config".to_string(), "pkgs".to_string(), "...".to_string()],
        "args".to_string(),
        Box::new(attrs(vec![("imports", NixValue::List(vec![NixValue::Path("./hardware.nix".to_string())]))])),
    ));
    let text = v.format_nix(0);
    assert_eq!(text, "args @ {\n  config,\n  pkgs,\n  ...\n}: {\n  imports = [\n    ./hardware.nix\n  ];\n}");
    assert_eq!(parse(&text), v);

    let w = NixValue::Lambda(LambdaTypes::Suffix(
        vec!["lib".to_string(), "...".to_string()],
        "inputs".to_string(),
        Box::new(NixValue::Identifier("lib.id".to_string())),
    ));
    let text = w.format_nix(0);
    assert_eq!(text, "{\n  lib,\n  ...\n} @ inputs : lib.id");
    assert_eq!(parse(&text), w);
}

#[test]
fn law_format_then_read_applications_and_operators() {
    let id = |x: &str| NixValue::Identifier(x.to_string());
    let v = attrs(vec![
        ("a", NixValue::Apply(Box::new(NixValue::Apply(Box::new(id("f")), Box::new(id("x")))), Box::new(NixValue::Int(2)))),
        (
            "b",
            NixValue::BinaryOp {
                left: Box::new(NixValue::BinaryOp {
                    left: Box::new(NixValue::Int(1)),
                    operator: Operator::Add,
                    right: Box::new(id("y")),
                }),
                operator: Operator::Concat,
                right: Box::new(NixValue::Apply(Box::new(id("g")), Box::new(NixValue::Str("s".to_string())))),
            },
        ),
        ("c", NixValue::Group(Box::new(NixValue::BinaryOp {
            left: Box::new(id("p")),
            operator: Operator::Merge,
            right: Box::new(attrs(vec![("q", NixValue::Bool(true))])),
        }))),
    ]);
    let text = v.format_nix(0);
    assert_eq!(parse(&text), v);
}

#[test]
fn law_format_then_read_let_blocks() {
    let v = NixValue::LetIn(
        AttrMap { entries: vec![("a".to_string(), NixValue::Int(1)), ("b".to_string(), attrs(vec![("c", NixValue::Bool(false))]))] },
        Box::new(attrs(vec![("x", NixValue::Identifier("a".to_string()))])),
    );
    let text = v.format_nix(0);
    assert_eq!(parse(&text), v);
    let module = "let pkgs = import ./nixpkgs { }; in { environment = with pkgs; [ git ]; x = 1 + 2; }";
    let once = expand_sort_format(module);
    assert_eq!(expand_sort_format(&once), once);
}

#[test]
fn list_of_two_reads_back_otherwise() {
    let v = NixValue::List(vec![NixValue::Int(1), NixValue::Int(2)]);
    let text = v.format_nix(0);
    assert_ne!(parse_source(&text, "law.nix".to_string()), Ok(v));
}

#[test]
fn law_expand_sort_format_is_idempotent() {
    let module = "{ networking.hostName = \"web\"; services.nginx.enable = true; boot.loader.grub.device = \"/dev/sda\"; services.nginx.port = 80; }";
    let once = expand_sort_format(module);
    let twice = expand_sort_format(&once);
    assert_eq!(once, twice);
    assert_eq!(
        once,
        "{\n  boot = {\n    loader = {\n      grub = {\n        device = \"/dev/sda\";\n      };\n    };\n  };\n  networking = {\n    hostName = \"web\";\n  };\n  services = {\n    nginx = {\n      enable = true;\n      port = 80;\n    };\n  };\n}"
    );
}

#[test]
fn sorted_function_heads_reformat_the_same() {
    let module = "{ pkgs, config, ... }: { b = 1; a = 2; }";
    let once = expand_sort_format(module);
    let twice = expand_sort_format(&once);
    assert_eq!(once, twice);
}
