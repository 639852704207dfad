#![allow(unused_imports, unused_variables, unused_mut, dead_code)]
use indexmap::IndexMap;
use prolyxena::value::{NixValue, AttrMap, StringFragment, LambdaTypes, Operator, ParseEvent};
use prolyxena::lexer::Lexer;
use prolyxena::grammar::LamType;
use prolyxena::format::Format;
use prolyxena::sort::Sort;
use prolyxena::flattening::Flattening;
use prolyxena::generate::{Generate, Remove, IntoNixValue};
use prolyxena::query::Query;
use prolyxena::vfs::{FsData, FsNodes, DirMap, ReOderMode, Modify, Search, Delete};

trait IntoMap<T> {
    fn into_map(self) -> T;
}

impl IntoMap<AttrMap> for IndexMap<String, NixValue> {
    fn into_map(self) -> AttrMap {
        AttrMap { entries: self.into_iter().collect() }
    }
}

impl IntoMap<DirMap> for IndexMap<String, FsNodes> {
    fn into_map(self) -> DirMap {
        DirMap { entries: self.into_iter().collect() }
    }
}

fn m<I: IntoMap<T>, T>(x: I) -> T {
    x.into_map()
}

// engine/formater/core.rs



#[test]
fn test_engine_formater_core_attr_set_empty() {
    let inital_content = NixValue::AttrSet(m(IndexMap::new()));
    let expected_content = "{ }";

    assert_eq!(inital_content.format_nix(0), expected_content);
}

#[test]
fn test_engine_formater_core_attr_set_normal() {
    let inital_content =
        NixValue::AttrSet(m(IndexMap::from([(String::from("a"), NixValue::Identifier(String::from("a")))])));
    let expected_content = "{\n  a = a;\n}";

    assert_eq!(inital_content.format_nix(0), expected_content);
}

#[test]
fn test_engine_formater_core_list_empty() {
    let inital_content = NixValue::List(Vec::new());
    let expected_content = "[ ]";

    assert_eq!(inital_content.format_nix(0), expected_content);
}

#[test]
fn test_engine_formater_core_list_normal() {
    let inital_content =
        NixValue::List(vec![NixValue::Identifier(String::from("a")), NixValue::Identifier(String::from("b"))]);
    let expected_content = "[\n  a\n  b\n]";

    assert_eq!(inital_content.format_nix(0), expected_content);
}

#[test]
fn test_engine_formater_core_str() {
    let initial_content = NixValue::Str(String::from("hello world"));
    let expected_content = "\"hello world\"";

    assert_eq!(initial_content.format_nix(0), expected_content);
}

#[test]
fn test_engine_formater_core_ind_str_empty() {
    let initial_content = NixValue::IndStr(Vec::new());
    let expected_content = "'' ''";

    assert_eq!(initial_content.format_nix(0), expected_content);
}

#[test]
fn test_engine_formater_core_ind_str_normal() {
    let initial_content = NixValue::IndStr(vec![
        StringFragment::Text(String::from("line 1\n")),
        StringFragment::Text(String::from("line 2\n")),
    ]);
    let expected_content = "''line 1\nline 2\n''";

    assert_eq!(initial_content.format_nix(0), expected_content);
}

#[test]
fn test_engine_formater_core_ind_str_antiquotation() {
    let initial_content = NixValue::IndStr(vec![
        StringFragment::Text(String::from("value is ")),
        StringFragment::Antiquotation(Box::new(NixValue::Identifier(String::from("var")))),
        StringFragment::Text(String::from("\n")),
    ]);
    let expected_content = "''value is ${var}\n''";

    assert_eq!(initial_content.format_nix(0), expected_content);
}

// --- Primitive Tests ---
#[test]
fn test_engine_formater_core_int() {
    let initial_content = NixValue::Int(42);
    let expected_content = "42";

    assert_eq!(initial_content.format_nix(0), expected_content);
}

#[test]
fn test_engine_formater_core_float() {
    let initial_content = NixValue::Float("3.14".to_string());
    let expected_content = "3.14";

    assert_eq!(initial_content.format_nix(0), expected_content);
}

#[test]
fn test_engine_formater_core_bool_true() {
    let initial_content = NixValue::Bool(true);
    let expected_content = "true";

    assert_eq!(initial_content.format_nix(0), expected_content);
}

#[test]
fn test_engine_formater_core_bool_false() {
    let initial_content = NixValue::Bool(false);
    let expected_content = "false";

    assert_eq!(initial_content.format_nix(0), expected_content);
}

#[test]
fn test_engine_formater_core_identifier() {
    let initial_content = NixValue::Identifier(String::from("myVar"));
    let expected_content = "myVar";

    assert_eq!(initial_content.format_nix(0), expected_content);
}

#[test]
fn test_engine_formater_core_path() {
    let initial_content = NixValue::Path(String::from("./config.nix"));
    let expected_content = "./config.nix";

    assert_eq!(initial_content.format_nix(0), expected_content);
}

// --- Struktur-Tests ---
#[test]
fn test_engine_formater_core_group() {
    let initial_content = NixValue::Group(Box::new(NixValue::Identifier(String::from("inner"))));
    let expected_content = "(inner)";

    assert_eq!(initial_content.format_nix(0), expected_content);
}

#[test]
fn test_engine_formater_core_let_in() {
    let initial_content = NixValue::LetIn(
        m(IndexMap::from([(String::from("a"), NixValue::Int(1))])),
        Box::new(NixValue::Identifier(String::from("a"))),
    );
    let expected_content = "let\n  a = 1;\nin a";

    assert_eq!(initial_content.format_nix(0), expected_content);
}

#[test]
fn test_engine_formater_core_with() {
    let initial_content = NixValue::With(
        Box::new(NixValue::Identifier(String::from("pkgs"))),
        Box::new(NixValue::List(vec![NixValue::Identifier(String::from("git"))])),
    );
    let expected_content = "with pkgs; [\n  git\n]";

    assert_eq!(initial_content.format_nix(0), expected_content);
}

#[test]
fn test_engine_formater_core_antiquotation() {
    let initial_content = NixValue::Antiquotation(Box::new(NixValue::Identifier(String::from("var"))));
    let expected_content = "${var}";

    assert_eq!(initial_content.format_nix(0), expected_content);
}

#[test]
fn test_engine_formater_core_apply() {
    let initial_content = NixValue::Apply(
        Box::new(NixValue::Identifier(String::from("lib.mkIf"))),
        Box::new(NixValue::Identifier(String::from("true"))),
    );
    let expected_content = "lib.mkIf true";

    assert_eq!(initial_content.format_nix(0), expected_content);
}

// --- Lambda Tests ---
#[test]
fn test_engine_formater_core_lambda_nofix_empty() {
    let initial_content =
        NixValue::Lambda(LambdaTypes::Nofix(Vec::new(), Box::new(NixValue::AttrSet(m(IndexMap::new())))));
    let expected_content = "{ }:";

    assert_eq!(initial_content.format_nix(0), expected_content);
}

#[test]
fn test_engine_formater_core_lambda_nofix_args() {
    let initial_content = NixValue::Lambda(LambdaTypes::Nofix(
        vec![String::from("pkgs"), String::from("lib")],
        Box::new(NixValue::AttrSet(m(IndexMap::new()))),
    ));
    let expected_content = "{\n  pkgs,\n  lib,\n  ...\n}: { }";

    assert_eq!(initial_content.format_nix(0), expected_content);
}

#[test]
fn test_engine_formater_core_lambda_single() {
    let initial_content =
        NixValue::Lambda(LambdaTypes::Single(String::from("config"), Box::new(NixValue::AttrSet(m(IndexMap::new())))));
    let expected_content = "config: { }";

    assert_eq!(initial_content.format_nix(0), expected_content);
}

#[test]
fn test_engine_formater_core_lambda_suffix() {
    let initial_content = NixValue::Lambda(LambdaTypes::Suffix(
        vec![String::from("pkgs")],
        String::from("inputs"),
        Box::new(NixValue::AttrSet(m(IndexMap::new()))),
    ));
    let expected_content = "{\n  pkgs,\n  ...\n} @ inputs : { }";

    assert_eq!(initial_content.format_nix(0), expected_content);
}

#[test]
fn test_engine_formater_core_lambda_prefix() {
    let initial_content = NixValue::Lambda(LambdaTypes::Prefix(
        vec![String::from("pkgs")],
        String::from("inputs"),
        Box::new(NixValue::AttrSet(m(IndexMap::new()))),
    ));
    let expected_content = "inputs @ {\n  pkgs,\n  ...\n}: { }";

    assert_eq!(initial_content.format_nix(0), expected_content);
}

// --- BinaryOp Tests ---
#[test]
fn test_engine_formater_core_binaryop_concat() {
    let initial_content = NixValue::BinaryOp {
        left: Box::new(NixValue::Identifier(String::from("list1"))),
        operator: Operator::Concat,
        right: Box::new(NixValue::Identifier(String::from("list2"))),
    };
    let expected_content = "list1 ++ list2";

    assert_eq!(initial_content.format_nix(0), expected_content);
}

#[test]
fn test_engine_formater_core_binaryop_merge() {
    let initial_content = NixValue::BinaryOp {
        left: Box::new(NixValue::Identifier(String::from("set1"))),
        operator: Operator::Merge,
        right: Box::new(NixValue::Identifier(String::from("set2"))),
    };
    let expected_content = "set1 // set2";

    assert_eq!(initial_content.format_nix(0), expected_content);
}

