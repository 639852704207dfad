#![allow(unused_imports, unused_variables, unused_mut, dead_code)]
use indexmap::IndexMap;
use prolyxena::value::{NixValue, AttrMap, StringFragment, LambdaTypes, Operator, ParseEvent};
use prolyxena::lexer::Lexer;
use prolyxena::grammar::LamType;
use prolyxena::format::Format;
use prolyxena::sort::Sort;
use prolyxena::flattening::Flattening;
use prolyxena::generate::{Generate, Remove, IntoNixValue};
use prolyxena::query::Query;
use prolyxena::vfs::{FsData, FsNodes, DirMap, ReOderMode, Modify, Search, Delete};

trait IntoMap<T> {
    fn into_map(self) -> T;
}

impl IntoMap<AttrMap> for IndexMap<String, NixValue> {
    fn into_map(self) -> AttrMap {
        AttrMap { entries: self.into_iter().collect() }
    }
}

impl IntoMap<DirMap> for IndexMap<String, FsNodes> {
    fn into_map(self) -> DirMap {
        DirMap { entries: self.into_iter().collect() }
    }
}

fn m<I: IntoMap<T>, T>(x: I) -> T {
    x.into_map()
}

// engine/generator/remove.rs



#[test]
fn test_remove_attrset_success() {
    let mut ast = NixValue::AttrSet(m(IndexMap::from([("remove_me".to_string(), NixValue::Bool(true))])));

    let result = ast.remove("remove_me", None);

    assert!(result.is_ok());
    if let NixValue::AttrSet(map) = ast {
        assert!(map.is_empty());
    } else {
        panic!("Erwartet AttrSet");
    }
}

#[test]
fn test_remove_attrset_not_found() {
    let mut ast = NixValue::AttrSet(m(IndexMap::new()));
    let result = ast.remove("missing_key", None);

    assert!(result.is_err());
    assert_eq!(result.unwrap_err(), "Remove-Fehler: Option ist nicht in Datei enthalten");
}

#[test]
fn test_remove_list_success() {
    let mut ast =
        NixValue::List(vec![NixValue::Identifier("keep".to_string()), NixValue::Identifier("drop".to_string())]);
    let result = ast.remove("", "drop");

    assert!(result.is_ok());
    if let NixValue::List(vec) = ast {
        assert_eq!(vec.len(), 1);
        assert_eq!(vec[0], NixValue::Identifier("keep".to_string()));
    } else {
        panic!("Erwartet List");
    }
}

#[test]
fn test_remove_list_empty_value_error() {
    let mut ast = NixValue::List(vec![NixValue::Identifier("keep".to_string())]);
    let result = ast.remove("", None);

    assert!(result.is_err());
    assert_eq!(result.unwrap_err(), "Remove-Fehler: Kann kein Element aus einer Liste entfernen, ohne Wert");
}

#[test]
fn test_remove_letin_success() {
    let map = m(IndexMap::from([("target".to_string(), NixValue::Int(1))]));
    let body = NixValue::AttrSet(m(IndexMap::from([("target".to_string(), NixValue::Int(2))])));
    let mut ast = NixValue::LetIn(map, Box::new(body));

    let result = ast.remove("target", None);
    assert!(result.is_ok());
}

#[test]
fn test_delete_file_success() {
    let mut fs_data = FsData::new("/fake/root");

    let file_map = m(IndexMap::from([(
        "config.nix".to_string(),
        FsNodes::File { name: "config.nix".to_string(), ast: NixValue::Bool(true) },
    )]));

    let folder_map = m(IndexMap::from([("node1".to_string(), FsNodes::Dir(file_map))]));

    fs_data.fsnodes = FsNodes::Dir(folder_map);

    let result = fs_data.delete_file("node1/config.nix");
    assert!(result.is_ok());
    if let FsNodes::Dir(root_map) = &fs_data.fsnodes {
        if let FsNodes::Dir(node1_map) = root_map.get("node1").unwrap() {
            assert!(node1_map.is_empty());
        } else {
            panic!("node1 sollte ein Ordner sein");
        }
    } else {
        panic!("Root sollte ein Ordner sein");
    }
}

#[test]
fn test_delete_file_not_found() {
    let mut fs_data = FsData::new("/fake/root");
    fs_data.fsnodes = FsNodes::Dir(m(IndexMap::from([("node1".to_string(), FsNodes::Dir(m(IndexMap::new())))])));

    let result = fs_data.delete_file("node1/missing.nix");
    assert!(result.is_err());
    assert_eq!(result.unwrap_err(), "Remove-Fehler: Ordner enthält die Datei nicht");
}

#[test]
fn test_delete_file_invalid_path() {
    let mut fs_data = FsData::new("/fake/root");
    fs_data.fsnodes = FsNodes::Dir(m(IndexMap::from([(
        "file_as_dir.nix".to_string(),
        FsNodes::File { name: "file_as_dir.nix".to_string(), ast: NixValue::Bool(true) },
    )])));

    let result = fs_data.delete_file("file_as_dir.nix/config.nix");
    assert!(result.is_err());
    assert_eq!(result.unwrap_err(), "Query-Fehler: Letzter Ordner nicht vorhanden");
}

#[test]
fn test_remove_letin_body_list_success() {
    let map = m(IndexMap::from([("target_key".to_string(), NixValue::Int(1))]));
    let body = NixValue::List(vec![
        NixValue::Identifier("keep_me".to_string()),
        NixValue::Identifier("drop_me".to_string()),
    ]);
    let mut ast = NixValue::LetIn(map, Box::new(body));

    let result = ast.remove("target_key", "drop_me");

    assert!(result.is_ok());
    if let NixValue::LetIn(new_map, new_body) = ast {
        assert!(new_map.is_empty());
        if let NixValue::List(vec) = *new_body {
            assert_eq!(vec.len(), 1);
            assert_eq!(vec[0], NixValue::Identifier("keep_me".to_string()));
        } else {
            panic!("Erwartet List im Body");
        }
    } else {
        panic!("Erwartet LetIn");
    }
}

#[test]
fn test_remove_letin_body_list_empty_value_error() {
    let map = m(IndexMap::from([("target_key".to_string(), NixValue::Int(1))]));
    let body = NixValue::List(vec![NixValue::Identifier("keep_me".to_string())]);
    let mut ast = NixValue::LetIn(map, Box::new(body));
    let result = ast.remove("target_key", None);

    assert!(result.is_err());
    assert_eq!(result.unwrap_err(), "Remove-Fehler: Kann kein Element aus einer Liste entfernen, ohne Wert");
}

#[test]
fn test_remove_letin_body_invalid_type() {
    let map = m(IndexMap::from([("target_key".to_string(), NixValue::Int(1))]));
    let body = NixValue::Int(42); // Weder AttrSet noch List
    let mut ast = NixValue::LetIn(map, Box::new(body));

    let result = ast.remove("target_key", None);

    assert!(result.is_err());
    assert_eq!(result.unwrap_err(), "Fehler: Der Zeil-Knoten muss ein Attribute Set oder Let In Statment sein");
}

#[test]
fn test_remove_letin_body_attrset_success() {
    let map = m(IndexMap::from([("target_key".to_string(), NixValue::Int(1))]));
    let body = NixValue::AttrSet(m(IndexMap::from([("target_key".to_string(), NixValue::Int(2))])));
    let mut ast = NixValue::LetIn(map, Box::new(body));

    let result = ast.remove("target_key", None);

    assert!(result.is_ok());
    if let NixValue::LetIn(new_map, new_body) = ast {
        assert!(new_map.is_empty());
        if let NixValue::AttrSet(body_map) = *new_body {
            assert!(body_map.is_empty());
        } else {
            panic!("Erwartet AttrSet im Body");
        }
    } else {
        panic!("Erwartet LetIn");
    }
}

