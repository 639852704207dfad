#![allow(unused_imports, unused_variables, unused_mut, dead_code)]
use indexmap::IndexMap;
use prolyxena::value::{NixValue, AttrMap, StringFragment, LambdaTypes, Operator, ParseEvent};
use prolyxena::lexer::Lexer;
use prolyxena::grammar::LamType;
use prolyxena::format::Format;
use prolyxena::sort::Sort;
use prolyxena::flattening::Flattening;
use prolyxena::generate::{Generate, Remove, IntoNixValue};
use prolyxena::query::Query;
use prolyxena::vfs::{FsData, FsNodes, DirMap, ReOderMode, Modify, Search, Delete};

trait IntoMap<T> {
    fn into_map(self) -> T;
}

impl IntoMap<AttrMap> for IndexMap<String, NixValue> {
    fn into_map(self) -> AttrMap {
        AttrMap { entries: self.into_iter().collect() }
    }
}

impl IntoMap<DirMap> for IndexMap<String, FsNodes> {
    fn into_map(self) -> DirMap {
        DirMap { entries: self.into_iter().collect() }
    }
}

fn m<I: IntoMap<T>, T>(x: I) -> T {
    x.into_map()
}

// engine/generator/generate.rs


#[test]
fn test_engine_generator_insert_attrset_with_nixvalue() {
    let mut ast = NixValue::AttrSet(m(IndexMap::new()));
    let result = ast.insert("enable", NixValue::Bool(true));
    
    assert!(result.is_ok());
    assert_eq!(
        ast,
        NixValue::AttrSet(m(IndexMap::from([("enable".to_string(), NixValue::Bool(true))])))
    );
}

#[test]
fn test_engine_generator_insert_attrset_with_string() {
    let mut ast = NixValue::AttrSet(m(IndexMap::new()));
    let result = ast.insert("port", "8080");
    
    assert!(result.is_ok());
    assert_eq!(
        ast,
        NixValue::AttrSet(m(IndexMap::from([("port".to_string(), NixValue::Int(8080))])))
    );
}

#[test]
fn test_engine_generator_insert_nested_key_triggers_flatten_expand() {
    let mut ast = NixValue::AttrSet(m(IndexMap::new()));
    let result = ast.insert("services.caddy.enable", "true");
    
    assert!(result.is_ok());
    
    let expected_ast = NixValue::AttrSet(m(IndexMap::from([(
        "services".to_string(),
        NixValue::AttrSet(m(IndexMap::from([(
            "caddy".to_string(),
            NixValue::AttrSet(m(IndexMap::from([(
                "enable".to_string(),
                NixValue::Bool(true),
            )]))),
        )]))),
    )])));
    
    assert_eq!(ast, expected_ast);
}

#[test]
fn test_engine_generator_insert_into_list() {
    let mut ast = NixValue::List(vec![NixValue::Identifier("git".to_string())]);
    let result = ast.insert("", "\"nodejs\"");
    
    assert!(result.is_ok());
    assert_eq!(
        ast,
        NixValue::List(vec![
            NixValue::Identifier("git".to_string()),
            NixValue::Str("nodejs".to_string()),
        ])
    );
}

#[test]
fn test_engine_generator_insert_into_let_in() {
    let mut ast = NixValue::LetIn(
        m(IndexMap::new()),
        Box::new(NixValue::Identifier("body".to_string()))
    );
    let result = ast.insert("var", "42");
    
    assert!(result.is_ok());
    assert_eq!(
        ast,
        NixValue::LetIn(
            m(IndexMap::from([("var".to_string(), NixValue::Int(42))])),
            Box::new(NixValue::Identifier("body".to_string()))
        )
    );
}

#[test]
fn test_engine_generator_insert_invalid_target_node() {
    // Ein String ist kein valider Ziel-Knoten für ein Insert
    let mut ast = NixValue::Str("hello".to_string());
    let result = ast.insert("key", "true");
    
    assert!(result.is_err());
    assert_eq!(
        result.unwrap_err(),
        "Fehler: Der Zeil-Knoten muss ein Attribute Set oder Let In Statment sein"
    );
}

#[test]
fn test_engine_generator_insert_invalid_string_syntax() {
    let mut ast = NixValue::AttrSet(m(IndexMap::new()));
    let result = ast.insert("key", "{ kaputt");
    
    assert!(result.is_err());
    assert!(result.unwrap_err().contains("Syntax-Fehler"));
}

#[test]
fn test_engine_generator_insert_empty_string() {
    let mut ast = NixValue::AttrSet(m(IndexMap::new()));
    let result = ast.insert("key", "   ");
    
    assert!(result.is_err());
    assert_eq!(
        result.unwrap_err(),
        "Fehler: Leerer Wert kann nicht eingefügt werden"
    );
}

#[test]
fn test_engine_generator_generate_generate_file_empty_tree() {
    let mut fsdata = FsData::new("/home/cato");
    fsdata.generate_file("file.nix", None).unwrap();

    assert_eq!(fsdata.fsnodes, FsNodes::Dir(
            m(IndexMap::from([(String::from("home"), FsNodes::Dir(
                    m(IndexMap::from([(String::from("cato"), FsNodes::Dir(
                        m(IndexMap::from([("file.nix".to_string(), FsNodes::File { name: "file.nix".to_string(), ast: NixValue::AttrSet(m(IndexMap::new())) })]))
    ))]))))]))));
}

#[test]
fn test_engine_generator_generate_generate_file_handle_input() {
    let mut fsdata = FsData::new("/home/cato");
    fsdata.generate_file("/file.nix", None).unwrap();

    assert_eq!(fsdata.fsnodes, FsNodes::Dir(
            m(IndexMap::from([(String::from("home"), FsNodes::Dir(
                    m(IndexMap::from([(String::from("cato"), FsNodes::Dir(
                        m(IndexMap::from([("file.nix".to_string(), FsNodes::File { name: "file.nix".to_string(), ast: NixValue::AttrSet(m(IndexMap::new())) })]))
    ))]))))]))));
}

#[test]
fn test_engine_generator_generate_generate_file_polymorphisim_none() {
    let mut fsdata = FsData::new("/home/cato");
    fsdata.generate_file("file.nix", None).unwrap();

    assert_eq!(fsdata.fsnodes, FsNodes::Dir(
            m(IndexMap::from([(String::from("home"), FsNodes::Dir(
                    m(IndexMap::from([(String::from("cato"), FsNodes::Dir(
                        m(IndexMap::from([("file.nix".to_string(), FsNodes::File { name: "file.nix".to_string(), ast: NixValue::AttrSet(m(IndexMap::new())) })]))
    ))]))))]))));
}

#[test]
fn test_engine_generator_generate_generate_file_polymorphisim_option_nixvalue() {
    let mut fsdata = FsData::new("/home/cato");
    let nixvalue = NixValue::AttrSet(m(IndexMap::from([(String::from("a"), NixValue::Identifier(String::from("b")))])));
    fsdata.generate_file("file.nix", Some(nixvalue.clone())).unwrap();

    assert_eq!(fsdata.fsnodes, FsNodes::Dir(
            m(IndexMap::from([(String::from("home"), FsNodes::Dir(
                    m(IndexMap::from([(String::from("cato"), FsNodes::Dir(
                        m(IndexMap::from([("file.nix".to_string(), FsNodes::File { name: "file.nix".to_string(), ast: nixvalue})]))
    ))]))))]))));
}

#[test]
fn test_engine_generator_generate_generate_file_polymorphisim_nixvalue() {
    let mut fsdata = FsData::new("/home/cato");
    let nixvalue = NixValue::AttrSet(m(IndexMap::from([(String::from("a"), NixValue::Identifier(String::from("b")))])));
    fsdata.generate_file("file.nix", nixvalue.clone()).unwrap();

    assert_eq!(fsdata.fsnodes, FsNodes::Dir(
            m(IndexMap::from([(String::from("home"), FsNodes::Dir(
                    m(IndexMap::from([(String::from("cato"), FsNodes::Dir(
                        m(IndexMap::from([("file.nix".to_string(), FsNodes::File { name: "file.nix".to_string(), ast: nixvalue})]))
    ))]))))]))));
}

#[test]
fn test_engine_generator_generate_generate_file_polymorphisim_string() {
    let mut fsdata = FsData::new("/home/cato");
    let nixvalue = NixValue::AttrSet(m(IndexMap::from([(String::from("a"), NixValue::Identifier(String::from("b")))])));
    let nixvalue_as_string = String::from("{ a = b; }");
    fsdata.generate_file("file.nix", nixvalue_as_string).unwrap();

    assert_eq!(fsdata.fsnodes, FsNodes::Dir(
            m(IndexMap::from([(String::from("home"), FsNodes::Dir(
                    m(IndexMap::from([(String::from("cato"), FsNodes::Dir(
                        m(IndexMap::from([("file.nix".to_string(), FsNodes::File { name: "file.nix".to_string(), ast: nixvalue})]))
    ))]))))]))));
}

#[test]
fn test_engine_generator_generate_generate_file_polymorphisim_str() {
    let mut fsdata = FsData::new("/home/cato");
    let nixvalue = NixValue::AttrSet(m(IndexMap::from([(String::from("a"), NixValue::Identifier(String::from("b")))])));
    let nixvalue_as_string = "{ a = b; }";
    fsdata.generate_file("file.nix", nixvalue_as_string).unwrap();

    assert_eq!(fsdata.fsnodes, FsNodes::Dir(
            m(IndexMap::from([(String::from("home"), FsNodes::Dir(
                    m(IndexMap::from([(String::from("cato"), FsNodes::Dir(
                        m(IndexMap::from([("file.nix".to_string(), FsNodes::File { name: "file.nix".to_string(), ast: nixvalue})]))
    ))]))))]))));
}

#[test]
fn test_engine_generator_generate_generate_file_filling_tree_with_operation() {
    let mut fsdata = FsData::new("/home/cato");

    // Step 1
    fsdata.generate_file("file.nix", None).unwrap();

    assert_eq!(fsdata.fsnodes, FsNodes::Dir(
            m(IndexMap::from([(String::from("home"), FsNodes::Dir(
                    m(IndexMap::from([(String::from("cato"), FsNodes::Dir(
                        m(IndexMap::from([(String::from("file.nix"), FsNodes::File { name: String::from("file.nix"), ast: NixValue::AttrSet(m(IndexMap::new())) })]))
    ))]))))]))));
    // Step 2
    fsdata.generate_file("test_file.nix", None).unwrap();

    assert_eq!(fsdata.fsnodes, FsNodes::Dir(
            m(IndexMap::from([(String::from("home"), FsNodes::Dir(
                    m(IndexMap::from([(String::from("cato"), FsNodes::Dir(
                        m(IndexMap::from([
                            (String::from("file.nix"), FsNodes::File { name: String::from("file.nix"), ast: NixValue::AttrSet(m(IndexMap::new())) }),
                            (String::from("test_file.nix"), FsNodes::File { name: String::from("test_file.nix"), ast: NixValue::AttrSet(m(IndexMap::new())) })
                        ]))
    ))]))))]))));
    // Step 3
    fsdata.generate_file("test/file.nix", None).unwrap();

    assert_eq!(fsdata.fsnodes, FsNodes::Dir(
            m(IndexMap::from([(String::from("home"), FsNodes::Dir(
                    m(IndexMap::from([(String::from("cato"), FsNodes::Dir(
                        m(IndexMap::from([
                            (String::from("file.nix"), FsNodes::File { name: String::from("file.nix"), ast: NixValue::AttrSet(m(IndexMap::new())) }),
                            (String::from("test_file.nix"), FsNodes::File { name: String::from("test_file.nix"), ast: NixValue::AttrSet(m(IndexMap::new())) }),
                            (String::from("test"), FsNodes::Dir(
                                    m(IndexMap::from([
                                        (String::from("file.nix"), FsNodes::File { name: String::from("file.nix"), ast: NixValue::AttrSet(m(IndexMap::new())) })
    ]))))]))))]))))]))));
}

