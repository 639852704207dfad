#![allow(unused_imports, unused_variables, unused_mut, dead_code)]
use indexmap::IndexMap;
use prolyxena::value::{NixValue, AttrMap, StringFragment, LambdaTypes, Operator, ParseEvent};
use prolyxena::lexer::Lexer;
use prolyxena::grammar::LamType;
use prolyxena::format::Format;
use prolyxena::sort::Sort;
use prolyxena::flattening::Flattening;
use prolyxena::generate::{Generate, Remove, IntoNixValue};
use prolyxena::query::Query;
use prolyxena::vfs::{FsData, FsNodes, DirMap, ReOderMode, Modify, Search, Delete};

trait IntoMap<T> {
    fn into_map(self) -> T;
}

impl IntoMap<AttrMap> for IndexMap<String, NixValue> {
    fn into_map(self) -> AttrMap {
        AttrMap { entries: self.into_iter().collect() }
    }
}

impl IntoMap<DirMap> for IndexMap<String, FsNodes> {
    fn into_map(self) -> DirMap {
        DirMap { entries: self.into_iter().collect() }
    }
}

fn m<I: IntoMap<T>, T>(x: I) -> T {
    x.into_map()
}

// engine/lexer/functions.rs

#[test]
fn functions_test_engine_lexer_functions_parse_let_in() {
    let content1 = "in test";
    let content2 = "n test";
    let content3 = " test";
    let content4 = "in test; test";
    let content5 = "test test";

    let mut data1 = Lexer::new(content1, String::from("path.nix"));
    let mut data2 = Lexer::new(content2, String::from("path.nix"));
    let mut data3 = Lexer::new(content3, String::from("path.nix"));
    let mut data4 = Lexer::new(content4, String::from("path.nix"));
    let mut data5 = Lexer::new(content5, String::from("path.nix"));

    let result1 = data1.parse_let_in();
    let result2 = data2.parse_let_in();
    let result3 = data3.parse_let_in();
    let result4 = data4.parse_let_in();
    let result5 = data5.parse_let_in();

    assert!(result1.is_ok());
    assert!(result2.is_err());
    assert!(result3.is_err());
    assert!(result4.is_ok());
    assert!(result5.is_err());

    assert!(matches!(result1, Ok(NixValue::LetIn(..))));
    assert!(matches!(result3, Err(_)));

    assert!(!matches!(result1, Ok(NixValue::AttrSet(_))));
}

#[test]
fn functions_test_engine_lexer_functions_parse_with() {
    let content1 = "test; test";
    let content2 = "test";

    let mut data1 = Lexer::new(content1, String::from("path.nix"));
    let mut data2 = Lexer::new(content2, String::from("path.nix"));

    let result1 = data1.parse_with();
    let result2 = data2.parse_with();

    assert!(result1.is_ok());
    assert!(result2.is_err());

    assert!(matches!(result1, Ok(NixValue::With(..))));

    assert!(!matches!(result1, Ok(NixValue::AttrSet(_))));
}

#[test]
fn test_engine_lexer_functions_is_lambda_ahead_nofix() {
    let content1 = "{test, }:";
    let data1 = Lexer::new(content1, String::from("path.nix"));
    let result1 = data1.is_lambda_ahead();
    assert_eq!(result1, true);
}

#[test]
fn test_engine_lexer_functions_parse_lambda_nofix() {
    let content1 = "{test, }: test";
    let mut data1 = Lexer::new(content1, String::from("path.nix"));
    let result1 = data1.parse_lambda();

    assert!(result1.is_ok());
    assert!(matches!(result1, Ok(NixValue::Lambda(LambdaTypes::Nofix(..)))));
}

#[test]
fn test_engine_lexer_functions_is_lambda_ahead_suffix() {
    let content1 = "{test, } @ inputs:";
    let data1 = Lexer::new(content1, String::from("path.nix"));
    let result1 = data1.is_lambda_ahead();
    assert_eq!(result1, true);
}

#[test]
fn test_engine_lexer_functions_parse_lambda_suffix() {
    let content1 = "{test, } @ inputs: test";
    let mut data1 = Lexer::new(content1, String::from("path.nix"));
    let result1 = data1.parse_lambda();

    assert!(result1.is_ok());
    assert!(matches!(result1, Ok(NixValue::Lambda(LambdaTypes::Suffix(..)))));
}

#[test]
fn test_engine_lexer_functions_is_lambda_ahead_prefix() {
    let content1 = "inputs @ {test, }:";
    let data1 = Lexer::new(content1, String::from("path.nix"));
    let result1 = data1.is_lambda_ahead();
    assert_eq!(result1, true);
}

#[test]
fn test_engine_lexer_functions_parse_lambda_prefix() {
    let content1 = "inputs @ {test, }: test";
    let mut data1 = Lexer::new(content1, String::from("path.nix"));
    let result1 = data1.parse_lambda();

    assert!(result1.is_ok());
    assert!(matches!(result1, Ok(NixValue::Lambda(LambdaTypes::Prefix(..)))));
}

#[test]
fn test_engine_lexer_functions_is_lambda_ahead_single() {
    let content1 = "test:";
    let data1 = Lexer::new(content1, String::from("path.nix"));
    let result1 = data1.is_lambda_ahead();
    assert_eq!(result1, true);
}

#[test]
fn test_engine_lexer_functions_parse_lambda_single() {
    let content1 = "test: test";
    let mut data1 = Lexer::new(content1, String::from("path.nix"));
    let result1 = data1.parse_lambda();

    assert!(result1.is_ok());
    assert!(matches!(result1, Ok(NixValue::Lambda(LambdaTypes::Single(..)))));
}


// engine/lexer/functions_test.rs

#[test]
fn functions_test_test_engine_lexer_functions_parse_let_in() {
    let content1 = "in test";
    let content2 = "n test";

    let mut data1 = Lexer::new(content1, String::from("path.nix"));
    let mut data2 = Lexer::new(content2, String::from("path.nix"));

    let result1 = data1.parse_let_in();
    let result2 = data2.parse_let_in();

    assert!(result1.is_ok());
    assert!(result2.is_err());

    assert!(matches!(result1, Ok(NixValue::LetIn(..))));

    assert!(!matches!(result1, Ok(NixValue::AttrSet(_))));
}

#[test]
fn functions_test_test_engine_lexer_functions_parse_with() {
    let content1 = "test; test";
    let content2 = "test";

    let mut data1 = Lexer::new(content1, String::from("path.nix"));
    let mut data2 = Lexer::new(content2, String::from("path.nix"));

    let result1 = data1.parse_with();
    let result2 = data2.parse_with();

    assert!(result1.is_ok());
    assert!(result2.is_err());

    assert!(matches!(result1, Ok(NixValue::With(..))));

    assert!(!matches!(result1, Ok(NixValue::AttrSet(_))));
}

#[test]
fn test_engine_lexer_functions_is_lambda_ahead() {
    let content1 = "test, }:";
    let content2 = "test, } @ inputs:";
    let content3 = "test, } @ inputs :";
    let content4 = "}";

    let mut data1 = Lexer::new(content1, String::from("path.nix"));
    let mut data2 = Lexer::new(content2, String::from("path.nix"));
    let mut data3 = Lexer::new(content3, String::from("path.nix"));
    let mut data4 = Lexer::new(content4, String::from("path.nix"));

    let result1 = data1.is_lambda_ahead();
    let result2 = data2.is_lambda_ahead();
    let result3 = data3.is_lambda_ahead();
    let result4 = data4.is_lambda_ahead();

    assert_eq!(result1, true);
    assert_eq!(result2, true);
    assert_eq!(result3, true);
    assert_ne!(result1, false);
    assert_ne!(result2, false);
    assert_ne!(result3, false);

    assert_eq!(result4, false);
    assert_ne!(result4, true);
}

#[test]
fn test_engine_lexer_functions_parse_lambda() {
    let content1 = "test, }: test";
    let content2 = "test, } @ test: test";
    let content3 = "test, } @ test test";

    let mut data1 = Lexer::new(content1, String::from("path.nix"));
    let mut data2 = Lexer::new(content2, String::from("path.nix"));
    let mut data3 = Lexer::new(content3, String::from("path.nix"));

    let result1 = data1.parse_lambda();
    let result2 = data2.parse_lambda();
    let result3 = data3.parse_lambda();

    assert!(result1.is_ok());
    assert!(result2.is_ok());
    assert!(result3.is_err());

    assert!(matches!(result1, Ok(NixValue::Lambda(..))));
    assert!(matches!(result2, Ok(NixValue::Lambda(..))));

    assert!(!matches!(result1, Ok(NixValue::AttrSet(..))));
    assert!(!matches!(result2, Ok(NixValue::AttrSet(..))));
}

