#![allow(unused_imports, unused_variables, unused_mut, dead_code)]
use indexmap::IndexMap;
use prolyxena::value::{NixValue, AttrMap, StringFragment, LambdaTypes, Operator, ParseEvent};
use prolyxena::lexer::Lexer;
use prolyxena::grammar::LamType;
use prolyxena::format::Format;
use prolyxena::sort::Sort;
use prolyxena::flattening::Flattening;
use prolyxena::generate::{Generate, Remove, IntoNixValue};
use prolyxena::query::Query;
use prolyxena::vfs::{FsData, FsNodes, DirMap, ReOderMode, Modify, Search, Delete};

trait IntoMap<T> {
    fn into_map(self) -> T;
}

impl IntoMap<AttrMap> for IndexMap<String, NixValue> {
    fn into_map(self) -> AttrMap {
        AttrMap { entries: self.into_iter().collect() }
    }
}

impl IntoMap<DirMap> for IndexMap<String, FsNodes> {
    fn into_map(self) -> DirMap {
        DirMap { entries: self.into_iter().collect() }
    }
}

fn m<I: IntoMap<T>, T>(x: I) -> T {
    x.into_map()
}

// engine/formater/sort.rs


#[test]
fn sort_test_engine_formater_core_attr_set() {
    let content = "
    { 
    bb = true;
    ab = true;
    };
    ";

    let mut lexer = Lexer::new(content, String::from("path.nix"));
    let result1 = lexer.parse_value();
    let mut result2 = result1.clone();

    assert_eq!(
        result1,
        Ok(NixValue::AttrSet(m(IndexMap::from([
            (String::from("bb"), NixValue::Bool(true)),
            (String::from("ab"), NixValue::Bool(true))
        ]))))
    );

    result2.as_mut().unwrap().sort_ast();

    assert_eq!(
        result2,
        Ok(NixValue::AttrSet(m(IndexMap::from([
            (String::from("ab"), NixValue::Bool(true)),
            (String::from("bb"), NixValue::Bool(true))
        ]))))
    );
}


// engine/formater/sort_test.rs


#[test]
fn sort_test_test_engine_formater_core_attr_set() {
    let content = "
    { 
    bb = true;
    ab = true;
    };
    ";

    let mut lexer = Lexer::new(content, String::from("path.nix"));
    let result1 = lexer.parse_value();
    let mut result2 = result1.clone();

    assert_eq!(result1, Ok(NixValue::AttrSet(m(IndexMap::from([
                    (String::from("bb"), NixValue::Bool(true)), 
                    (String::from("ab"), NixValue::Bool(true))
    ])))));

    result2.as_mut().unwrap().sort_ast();

    assert_eq!(result2, Ok(NixValue::AttrSet(m(IndexMap::from([
                    (String::from("ab"), NixValue::Bool(true)), (String::from("bb"), NixValue::Bool(true))
    ])))));
}

