#![allow(unused_imports, unused_variables, unused_mut, dead_code)]
use indexmap::IndexMap;
use prolyxena::value::{NixValue, AttrMap, StringFragment, LambdaTypes, Operator, ParseEvent};
use prolyxena::lexer::Lexer;
use prolyxena::grammar::LamType;
use prolyxena::format::Format;
use prolyxena::sort::Sort;
use prolyxena::flattening::Flattening;
use prolyxena::generate::{Generate, Remove, IntoNixValue};
use prolyxena::query::Query;
use prolyxena::vfs::{FsData, FsNodes, DirMap, ReOderMode, Modify, Search, Delete};

trait IntoMap<T> {
    fn into_map(self) -> T;
}

impl IntoMap<AttrMap> for IndexMap<String, NixValue> {
    fn into_map(self) -> AttrMap {
        AttrMap { entries: self.into_iter().collect() }
    }
}

impl IntoMap<DirMap> for IndexMap<String, FsNodes> {
    fn into_map(self) -> DirMap {
        DirMap { entries: self.into_iter().collect() }
    }
}

fn m<I: IntoMap<T>, T>(x: I) -> T {
    x.into_map()
}

// engine/generator/query.rs


#[test]
fn test_engine_generator_query_query_exact_attrset() {
    let mut ast = NixValue::AttrSet(m(IndexMap::from([(
        "server".to_string(),
        NixValue::AttrSet(m(IndexMap::from([("port".to_string(), NixValue::Int(8080))]))),
    )])));

    let result = ast.query_exact_mut(&["server", "port"]);
    assert_eq!(result.len(), 1);
    assert_eq!(*result[0], NixValue::Int(8080));
}

#[test]
fn test_engine_generator_query_query_exact_let_in() {
    let mut ast = NixValue::LetIn(m(IndexMap::new()), Box::from(NixValue::AttrSet(m(IndexMap::from([(
        "server".to_string(),
        NixValue::AttrSet(m(IndexMap::from([("port".to_string(), NixValue::Int(8080))]))),
    )])))));

    let result = ast.query_exact_mut(&["server", "port"]);
    assert_eq!(result.len(), 1);
    assert_eq!(*result[0], NixValue::Int(8080));
}

#[test]
fn test_engine_generator_query_query_exact_not_found() {
    let mut ast = NixValue::AttrSet(m(IndexMap::from([(
        "server".to_string(),
        NixValue::Int(8080),
    )])));

    let result = ast.query_exact_mut(&["server", "ip"]);
    assert!(result.is_empty());
}

#[test]
fn test_engine_generator_query_query_fuzzy_identifier() {
    let mut ast = NixValue::AttrSet(m(IndexMap::from([(
        "services".to_string(),
        NixValue::List(vec![
            NixValue::Identifier("my-custom-service".to_string()),
            NixValue::Identifier("other-service".to_string()),
        ]),
    )])));

    let result = ast.query_fuzzy_mut("custom");
    assert_eq!(result.len(), 1);
    assert_eq!(*result[0], NixValue::Identifier("my-custom-service".to_string()));
}

#[test]
fn test_engine_generator_query_search_tree_success() {
    let mut fs_data = FsData::new("/fake/root");
    let ast = NixValue::Bool(true);

    let file_map = m(IndexMap::from([(
        "config.nix".to_string(),
        FsNodes::File { name: "config.nix".to_string(), ast },
    )]));
    
    let folder_map = m(IndexMap::from([(
        "node1".to_string(),
        FsNodes::Dir(file_map),
    )]));

    fs_data.fsnodes = FsNodes::Dir(folder_map);

    let result = fs_data.search_tree("node1/config.nix");
    assert!(result.is_ok());
    assert_eq!(*result.unwrap(), NixValue::Bool(true));
}

#[test]
fn test_engine_generator_query_search_tree_folder_not_found() {
    let mut fs_data = FsData::new("/fake/root");
    
    let result = fs_data.search_tree("node1/config.nix");
    assert!(result.is_err());
    assert_eq!(result.unwrap_err(), "Query-Fehler: Ordner 'node1' nicht gefunden");
}

#[test]
fn test_engine_generator_query_search_tree_file_not_found() {
    let mut fs_data = FsData::new("/fake/root");
    
    let folder_map = m(IndexMap::from([(
        "node1".to_string(),
        FsNodes::Dir(m(IndexMap::new())),
    )]));

    fs_data.fsnodes = FsNodes::Dir(folder_map);

    let result = fs_data.search_tree("node1/config.nix");
    assert!(result.is_err());
    assert_eq!(result.unwrap_err(), "Query-Fehler: Ordner enthält die Datei nicht");
}

#[test]
fn test_engine_generator_query_query_exact_letin_map() {
    let mut ast = NixValue::LetIn(
        m(IndexMap::from([("target_key".to_string(), NixValue::Int(42))])),
        Box::new(NixValue::Identifier("body".to_string())),
    );
    let result = ast.query_exact_mut(&["target_key"]);
    assert_eq!(result.len(), 1);
    assert_eq!(*result[0], NixValue::Int(42));
}

#[test]
fn test_query_exact_list() {
    let mut ast = NixValue::List(vec![
        NixValue::AttrSet(m(IndexMap::from([("key".to_string(), NixValue::Int(1))]))),
        NixValue::AttrSet(m(IndexMap::from([("key".to_string(), NixValue::Int(2))]))),
    ]);
    let result = ast.query_exact_mut(&["key"]);
    assert_eq!(result.len(), 2);
}

#[test]
fn test_engine_generator_query_query_exact_apply_and_group() {
    let mut ast = NixValue::Group(Box::new(NixValue::Apply(
        Box::new(NixValue::Identifier("func".to_string())),
        Box::new(NixValue::AttrSet(m(IndexMap::from([(
            "target".to_string(),
            NixValue::Int(99),
        )])))),
    )));
    let result = ast.query_exact_mut(&["target"]);
    assert_eq!(result.len(), 1);
    assert_eq!(*result[0], NixValue::Int(99));
}

#[test]
fn test_engine_generator_query_query_exact_catch_all() {
    let mut ast = NixValue::Int(42);
    let result = ast.query_exact_mut(&["missing"]);
    assert!(result.is_empty());
}

#[test]
fn test_engine_generator_query_query_fuzzy_attrset_key_match() {
    let mut ast = NixValue::AttrSet(m(IndexMap::from([(
        "my-target-key".to_string(),
        NixValue::Int(100),
    )])));
    let result = ast.query_fuzzy_mut("target");
    assert_eq!(result.len(), 1);
    assert_eq!(*result[0], NixValue::Int(100));
}

#[test]
fn test_engine_generator_query_query_fuzzy_letin() {
    let mut ast = NixValue::LetIn(
        m(IndexMap::from([("let-target-key".to_string(), NixValue::Int(1))])),
        Box::new(NixValue::Identifier("target-body".to_string())),
    );
    let result = ast.query_fuzzy_mut("target");
    assert_eq!(result.len(), 2);
}

#[test]
fn test_engine_generator_query_query_fuzzy_group_and_antiquotation() {
    let mut ast = NixValue::Group(Box::new(NixValue::Antiquotation(Box::new(
        NixValue::Identifier("fuzzy-target".to_string()),
    ))));
    let result = ast.query_fuzzy_mut("fuzzy");
    assert_eq!(result.len(), 1);
}

#[test]
fn test_engine_generator_query_query_fuzzy_binary_op_and_with() {
    let mut ast = NixValue::BinaryOp {
        left: Box::new(NixValue::Identifier("left-target".to_string())),
        operator: Operator::Add,
        right: Box::new(NixValue::With(
            Box::new(NixValue::Identifier("namespace".to_string())),
            Box::new(NixValue::Identifier("right-target".to_string())),
        )),
    };
    let result = ast.query_fuzzy_mut("target");
    assert_eq!(result.len(), 2);
}

#[test]
fn test_engine_generator_query_query_fuzzy_catch_all() {
    let mut ast = NixValue::Bool(true);
    let result = ast.query_fuzzy_mut("target");
    assert!(result.is_empty());
}

