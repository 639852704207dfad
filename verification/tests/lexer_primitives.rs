#![allow(unused_imports, unused_variables, unused_mut, dead_code)]
use indexmap::IndexMap;
use prolyxena::value::{NixValue, AttrMap, StringFragment, LambdaTypes, Operator, ParseEvent};
use prolyxena::lexer::Lexer;
use prolyxena::grammar::LamType;
use prolyxena::format::Format;
use prolyxena::sort::Sort;
use prolyxena::flattening::Flattening;
use prolyxena::generate::{Generate, Remove, IntoNixValue};
use prolyxena::query::Query;
use prolyxena::vfs::{FsData, FsNodes, DirMap, ReOderMode, Modify, Search, Delete};

trait IntoMap<T> {
    fn into_map(self) -> T;
}

impl IntoMap<AttrMap> for IndexMap<String, NixValue> {
    fn into_map(self) -> AttrMap {
        AttrMap { entries: self.into_iter().collect() }
    }
}

impl IntoMap<DirMap> for IndexMap<String, FsNodes> {
    fn into_map(self) -> DirMap {
        DirMap { entries: self.into_iter().collect() }
    }
}

fn m<I: IntoMap<T>, T>(x: I) -> T {
    x.into_map()
}

// engine/lexer/primitives.rs

fn setup_lexer(content: &str) -> Lexer {
    Lexer::new(content, String::from("path.nix"))
}

#[test]
fn primitives_test_engine_lexer_primitives_parse_single_value_empty() {
    let mut data = setup_lexer("");
    let result = data.parse_single_value();

    assert!(result.is_err());
}
#[test]
fn primitives_test_engine_lexer_primitives_parse_single_value_error() {
    let mut data = setup_lexer(";");
    let result = data.parse_single_value();

    assert!(result.is_err());
}
#[test]
fn primitives_test_engine_lexer_primitives_parse_single_value_lambda() {
    let mut data1 = setup_lexer("{}");
    let mut data2 = setup_lexer(",");

    let result1 = data1.parse_single_value();
    let result2 = data2.parse_single_value();

    assert!(result1.is_ok());
    assert!(result2.is_err());
}
#[test]
fn primitives_test_engine_lexer_primitives_parse_single_value_attr_set() {
    let mut data1 = setup_lexer("{}");
    let mut data2 = setup_lexer(",");

    let result1 = data1.parse_single_value();
    let result2 = data2.parse_single_value();

    assert!(result1.is_ok());
    assert!(result2.is_err());
}
#[test]
fn primitives_test_engine_lexer_primitives_parse_single_value_list() {
    let mut data1 = setup_lexer("[test test test]");
    let mut data2 = setup_lexer(",");

    let result1 = data1.parse_single_value();
    let result2 = data2.parse_single_value();

    assert!(result1.is_ok());
    assert!(result2.is_err());
}
#[test]
fn primitives_test_engine_lexer_primitives_parse_single_value_string() {
    let mut data1 = setup_lexer("\"test\"");
    let mut data2 = setup_lexer(",");

    let result1 = data1.parse_single_value();
    let result2 = data2.parse_single_value();

    assert!(result1.is_ok());
    assert!(result2.is_err());
}
#[test]
fn primitives_test_engine_lexer_primitives_parse_single_value_path() {
    let mut data1 = setup_lexer(".test");
    let mut data2 = setup_lexer("/test");
    let mut data3 = setup_lexer("~test");

    let result1 = data1.parse_single_value();
    let result2 = data2.parse_single_value();
    let result3 = data3.parse_single_value();

    assert!(result1.is_ok());
    assert!(result2.is_ok());
    assert!(result3.is_ok());
}
#[test]
fn primitives_test_engine_lexer_primitives_parse_single_value_group() {
    let mut data1 = setup_lexer("(test)");
    let mut data2 = setup_lexer("(test");

    let result1 = data1.parse_single_value();
    let result2 = data2.parse_single_value();

    assert!(result1.is_ok());
    assert!(result2.is_err());

    assert!(matches!(result1, Ok(NixValue::Group(_))));
}
#[test]
fn primitives_test_engine_lexer_primitives_parse_single_value_antiquotation() {
    let mut data1 = setup_lexer("${test}");
    let mut data2 = setup_lexer("${test");
    let mut data3 = setup_lexer("$test}");
    let mut data4 = setup_lexer("$test");

    let result1 = data1.parse_single_value();
    let result2 = data2.parse_single_value();
    let result3 = data3.parse_single_value();
    let result4 = data4.parse_single_value();

    assert!(result1.is_ok());
    assert!(result2.is_err());
    assert!(result3.is_err());
    assert!(result4.is_err());

    assert!(matches!(result1, Ok(NixValue::Antiquotation(_))));
}

#[test]
fn test_engine_lexer_primitives_parse_single_value_antiquotation_apply() {
    let mut data1 = setup_lexer("${test test}");
    let mut data2 = setup_lexer("${test test");
    let mut data3 = setup_lexer("$test test}");
    let mut data4 = setup_lexer("$test test");

    let result1 = data1.parse_single_value();
    let result2 = data2.parse_single_value();
    let result3 = data3.parse_single_value();
    let result4 = data4.parse_single_value();

    assert!(result1.is_ok());
    assert!(result2.is_err());
    assert!(result3.is_err());
    assert!(result4.is_err());

    assert!(matches!(result1, Ok(NixValue::Antiquotation(_))));
}
#[test]
fn primitives_test_engine_lexer_primitives_parse_single_value_digit() {
    let mut data1 = setup_lexer("1");
    let mut data2 = setup_lexer(",");

    let result1 = data1.parse_single_value();
    let result2 = data2.parse_single_value();

    assert!(result1.is_ok());
    assert!(result2.is_err());
}
#[test]
fn primitives_test_engine_lexer_primitives_parse_single_value_identifier() {
    let content = "test";
    let mut data = Lexer::new(content, String::from("path.nix"));
    let result = data.parse_single_value();

    assert!(result.is_ok());
}

#[test]
fn primitives_test_engine_lexer_primitives_parse_path() {
    let mut data = setup_lexer("test");
    let result = data.parse_path();

    assert!(result.is_ok());

    assert!(matches!(result, Ok(NixValue::Path(_))));

    assert!(!matches!(result, Ok(NixValue::AttrSet(_))));
}

#[test]
fn primitives_test_engine_lexer_primitives_parse_string() {
    let mut data = setup_lexer("test\"");
    let result = data.parse_string();

    assert!(result.is_ok());

    assert!(matches!(result, Ok(NixValue::Str(_))));

    assert!(!matches!(result, Ok(NixValue::AttrSet(_))));
}

#[test]
fn primitives_test_engine_lexer_primitives_parse_number_int() {
    let mut data1 = setup_lexer("1");
    let mut data2 = setup_lexer(",");

    let result1 = data1.parse_number();
    let result2 = data2.parse_number();

    assert!(result1.is_ok());
    assert!(result2.is_err());

    assert!(matches!(result1, Ok(NixValue::Int(_))));

    assert!(!matches!(result1, Ok(NixValue::Float(_))));

    assert!(!matches!(result1, Ok(NixValue::AttrSet(_))));
}

#[test]
fn primitives_test_engine_lexer_primitives_parse_number_float() {
    let mut data1 = setup_lexer("1.0");
    let mut data2 = setup_lexer(",");

    let result1 = data1.parse_number();
    let result2 = data2.parse_number();

    assert!(result1.is_ok());
    assert!(result2.is_err());

    assert!(matches!(result1, Ok(NixValue::Float(_))));

    assert!(!matches!(result1, Ok(NixValue::Int(_))));

    assert!(!matches!(result1, Ok(NixValue::AttrSet(_))));
}

#[test]
fn primitives_test_engine_lexer_primitives_parse_identifier_word() {
    let mut data = setup_lexer("test");
    let result = data.parse_identifier();

    assert!(result.is_ok());

    assert!(matches!(result, Ok(NixValue::Identifier(_))));

    assert!(!matches!(result, Ok(NixValue::AttrSet(_))));
}

#[test]
fn primitives_test_engine_lexer_primitives_parse_identifier_with() {
    let mut data1 = setup_lexer("with test; test");
    let mut data2 = setup_lexer(",");

    let result1 = data1.parse_identifier();
    let result2 = data2.parse_identifier();

    assert!(result1.is_ok());
    assert!(result2.is_err());

    assert!(matches!(result1, Ok(NixValue::With(..))));

    assert!(!matches!(result1, Ok(NixValue::AttrSet(_))));
}

#[test]
fn primitives_test_engine_lexer_primitives_parse_identifier_let_it() {
    let mut data1 = setup_lexer("let in test");
    let mut data2 = setup_lexer(",");

    let result1 = data1.parse_identifier();
    let result2 = data2.parse_identifier();

    assert!(result1.is_ok());
    assert!(result2.is_err());

    assert!(matches!(result1, Ok(NixValue::LetIn(..))));

    assert!(!matches!(result1, Ok(NixValue::AttrSet(_))));
}

#[test]
fn test_engine_lexer_primitives_parse_identifier_antiquotation() {
    let mut data1 = setup_lexer("le${pkgs}");
    let result1 = data1.parse_identifier();

    assert!(result1.is_ok());
    assert!(matches!(result1, Ok(NixValue::Identifier(..))));
    assert!(!matches!(result1, Ok(NixValue::AttrSet(_))));
}

#[test]
fn primitives_test_engine_lexer_primitives_parse_identifier_bool() {
    let mut data1 = setup_lexer("true");
    let mut data2 = setup_lexer("false");
    let mut data3 = setup_lexer(",");

    let result1 = data1.parse_identifier();
    let result2 = data2.parse_identifier();
    let result3 = data3.parse_identifier();

    assert!(result1.is_ok());
    assert!(result2.is_ok());
    assert!(result3.is_err());

    assert!(matches!(result1, Ok(NixValue::Bool(_))));
    assert!(matches!(result2, Ok(NixValue::Bool(_))));

    assert!(matches!(result1, Ok(NixValue::Bool(true))));
    assert!(matches!(result2, Ok(NixValue::Bool(false))));

    assert!(!matches!(result1, Ok(NixValue::Bool(false))));
    assert!(!matches!(result2, Ok(NixValue::Bool(true))));

    assert!(!matches!(result1, Ok(NixValue::AttrSet(_))));
    assert!(!matches!(result2, Ok(NixValue::AttrSet(_))));
}
#[test]
fn test_engine_lexer_primitives_parse_operator_add() {
    let mut data1 = setup_lexer("+");
    let result1 = data1.parse_operator();

    assert!(result1.is_some());
    assert_eq!(result1, Some(Operator::Add));
}

#[test]
fn test_engine_lexer_primitves_parse_expression_add() {
    let mut data1 = setup_lexer("test + test");
    let result1 = data1.parse_expression();
    assert!(result1.is_ok());
    assert!(matches!(result1, Ok(NixValue::BinaryOp { left: _, operator: Operator::Add, right: _ })));
}

#[test]
fn test_engine_lexer_primitives_parse_operator_concat() {
    let mut data1 = setup_lexer("++");
    let result1 = data1.parse_operator();

    assert!(result1.is_some());
    assert_eq!(result1, Some(Operator::Concat));
}

#[test]
fn test_engine_lexer_primitves_parse_expression_concat() {
    let mut data1 = setup_lexer("test ++ test");
    let result1 = data1.parse_expression();
    assert!(result1.is_ok());
    assert!(matches!(result1, Ok(NixValue::BinaryOp { left: _, operator: Operator::Concat, right: _ })));
}

#[test]
fn test_engine_lexer_primitives_parse_operator_sub() {
    let mut data1 = setup_lexer("-");
    let result1 = data1.parse_operator();

    assert!(result1.is_some());
    assert_eq!(result1, Some(Operator::Sub));
}

#[test]
fn test_engine_lexer_primitves_parse_expression_sub() {
    let mut data1 = setup_lexer("test - test");
    let result1 = data1.parse_expression();
    assert!(result1.is_ok());
    assert!(matches!(result1, Ok(NixValue::BinaryOp { left: _, operator: Operator::Sub, right: _ })));
}

#[test]
fn test_engine_lexer_primitives_parse_operator_equal() {
    let mut data1 = setup_lexer("==");
    let result1 = data1.parse_operator();

    assert!(result1.is_some());
    assert_eq!(result1, Some(Operator::Equal));
}

#[test]
fn test_engine_lexer_primitves_parse_expression_equal() {
    let mut data1 = setup_lexer("test == test");
    let result1 = data1.parse_expression();
    assert!(result1.is_ok());
    assert!(matches!(result1, Ok(NixValue::BinaryOp { left: _, operator: Operator::Equal, right: _ })));
}

#[test]
fn test_engine_lexer_primitives_parse_operator_unequal() {
    let mut data1 = setup_lexer("!=");
    let result1 = data1.parse_operator();

    assert!(result1.is_some());
    assert_eq!(result1, Some(Operator::Unequal));
}

#[test]
fn test_engine_lexer_primitves_parse_expression_unequal() {
    let mut data1 = setup_lexer("test != test");
    let result1 = data1.parse_expression();
    assert!(result1.is_ok());
    assert!(matches!(result1, Ok(NixValue::BinaryOp { left: _, operator: Operator::Unequal, right: _ })));
}

#[test]
fn test_engine_lexer_primitives_parse_operator_and() {
    let mut data1 = setup_lexer("&&");
    let result1 = data1.parse_operator();

    assert!(result1.is_some());
    assert_eq!(result1, Some(Operator::And));
}

#[test]
fn test_engine_lexer_primitves_parse_expression_and() {
    let mut data1 = setup_lexer("test && test");
    let result1 = data1.parse_expression();
    assert!(result1.is_ok());
    assert!(matches!(result1, Ok(NixValue::BinaryOp { left: _, operator: Operator::And, right: _ })));
}

#[test]
fn test_engine_lexer_primitives_parse_operator_merge() {
    let mut data1 = setup_lexer("//");
    let result1 = data1.parse_operator();

    assert!(result1.is_some());
    assert_eq!(result1, Some(Operator::Merge));
}

#[test]
fn test_engine_lexer_primitves_parse_expression_merge() {
    let mut data1 = setup_lexer("test // test");
    let result1 = data1.parse_expression();
    assert!(result1.is_ok());
    assert!(matches!(result1, Ok(NixValue::BinaryOp { left: _, operator: Operator::Merge, right: _ })));
}

#[test]
fn test_engine_lexer_primitives_parse_operator_divide() {
    let mut data1 = setup_lexer("/");
    let result1 = data1.parse_operator();

    assert!(result1.is_some());
    assert_eq!(result1, Some(Operator::Divide));
}

#[test]
fn test_engine_lexer_primitves_parse_expression_divide() {
    let mut data1 = setup_lexer("test / test");
    let result1 = data1.parse_expression();
    assert!(result1.is_ok());
    assert!(matches!(result1, Ok(NixValue::BinaryOp { left: _, operator: Operator::Divide, right: _ })));
}

#[test]
fn primitives_test_engine_lexer_primitives_parse_indented_string() {
    let mut data1 = setup_lexer("test'';");
    let mut data2 = setup_lexer("${test}'';");
    let mut data3 = setup_lexer("test${test}test'';");
    let mut data4 = setup_lexer("test$(test)test'';");
    let mut data5 = setup_lexer("test''$(test)test'';");
    let mut data6 = setup_lexer("test''");
    let mut data7 = setup_lexer("test';");

    let result1 = data1.parse_indented_string();
    let result2 = data2.parse_indented_string();
    let result3 = data3.parse_indented_string();
    let result4 = data4.parse_indented_string();
    let result5 = data5.parse_indented_string();
    let result6 = data6.parse_indented_string();
    let result7 = data7.parse_indented_string();

    assert!(result1.is_ok());
    assert!(result2.is_ok());
    assert!(result3.is_ok());
    assert!(result4.is_ok());
    assert!(result5.is_ok());
    assert!(result6.is_err());
    assert!(result7.is_err());

    assert!(matches!(result1, Ok(NixValue::IndStr(_))));
    assert!(matches!(result2, Ok(NixValue::IndStr(_))));
    assert!(matches!(result3, Ok(NixValue::IndStr(_))));
    assert!(matches!(result4, Ok(NixValue::IndStr(_))));
    assert!(matches!(result5, Ok(NixValue::IndStr(_))));
}

#[test]
fn primitives_test_engine_lexer_primitives_parse_application() {
    let mut data1 = setup_lexer("test test");
    let result1 = data1.parse_application();

    assert!(result1.is_ok());
    assert!(matches!(result1, Ok(NixValue::Apply(..))));
}


// engine/lexer/primitives_test.rs

#[test]
fn primitives_test_test_engine_lexer_primitives_parse_single_value_empty() {
    let content = "";
    let mut data = Lexer::new(content, String::from("path.nix"));
    let result = data.parse_single_value();

    assert!(result.is_err());
}
#[test]
fn primitives_test_test_engine_lexer_primitives_parse_single_value_error() {
    let content = ";";
    let mut data = Lexer::new(content, String::from("path.nix"));
    let result = data.parse_single_value();

    assert!(result.is_err());
}
#[test]
fn primitives_test_test_engine_lexer_primitives_parse_single_value_lambda() {
    let content1 = "{}";
    let content2 = ",";

    let mut data1 = Lexer::new(content1, String::from("path.nix"));
    let mut data2 = Lexer::new(content2, String::from("path.nix"));

    let result1 = data1.parse_single_value();
    let result2 = data2.parse_single_value();

    assert!(result1.is_ok());
    assert!(result2.is_err());
}
#[test]
fn primitives_test_test_engine_lexer_primitives_parse_single_value_attr_set() {
    let content1 = "{}";
    let content2 = ",";

    let mut data1 = Lexer::new(content1, String::from("path.nix"));
    let mut data2 = Lexer::new(content2, String::from("path.nix"));

    let result1 = data1.parse_single_value();
    let result2 = data2.parse_single_value();

    assert!(result1.is_ok());
    assert!(result2.is_err());
}
#[test]
fn primitives_test_test_engine_lexer_primitives_parse_single_value_list() {
    let content1 = "[test test test]";
    let content2 = ",";

    let mut data1 = Lexer::new(content1, String::from("path.nix"));
    let mut data2 = Lexer::new(content2, String::from("path.nix"));

    let result1 = data1.parse_single_value();
    let result2 = data2.parse_single_value();

    assert!(result1.is_ok());
    assert!(result2.is_err());
}
#[test]
fn primitives_test_test_engine_lexer_primitives_parse_single_value_string() {
    let content1 = "\"test\"";
    let content2 = ",";

    let mut data1 = Lexer::new(content1, String::from("path.nix"));
    let mut data2 = Lexer::new(content2, String::from("path.nix"));

    let result1 = data1.parse_single_value();
    let result2 = data2.parse_single_value();

    assert!(result1.is_ok());
    assert!(result2.is_err());
}
#[test]
fn primitives_test_test_engine_lexer_primitives_parse_single_value_path() {
    let content1 = ".test";
    let content2 = "/test";
    let content3 = "~test";

    let mut data1 = Lexer::new(content1, String::from("path.nix"));
    let mut data2 = Lexer::new(content2, String::from("path.nix"));
    let mut data3 = Lexer::new(content3, String::from("path.nix"));

    let result1 = data1.parse_single_value();
    let result2 = data2.parse_single_value();
    let result3 = data3.parse_single_value();

    assert!(result1.is_ok());
    assert!(result2.is_ok());
    assert!(result3.is_ok());
}
#[test]
fn primitives_test_test_engine_lexer_primitives_parse_single_value_group() {
    let content1 = "(test)";
    let content2 = "(test";

    let mut data1 = Lexer::new(content1, String::from("path"));
    let mut data2 = Lexer::new(content2, String::from("path"));

    let result1 = data1.parse_single_value();
    let result2 = data2.parse_single_value();

    assert!(result1.is_ok());
    assert!(result2.is_err());

    assert!(matches!(result1, Ok(NixValue::Group(_))));
}
#[test]
fn primitives_test_test_engine_lexer_primitives_parse_single_value_antiquotation() {
    let content1 = "${test}";
    let content2 = "${test";
    let content3 = "$test}";
    let content4 = "$test";

    let mut data1 = Lexer::new(content1, String::from("path.nix"));
    let mut data2 = Lexer::new(content2, String::from("path.nix"));
    let mut data3 = Lexer::new(content3, String::from("path.nix"));
    let mut data4 = Lexer::new(content4, String::from("path.nix"));

    let result1 = data1.parse_single_value();
    let result2 = data2.parse_single_value();
    let result3 = data3.parse_single_value();
    let result4 = data4.parse_single_value();

    assert!(result1.is_ok());
    assert!(result2.is_err());
    assert!(result3.is_err());
    assert!(result4.is_err());

    assert!(matches!(result1, Ok(NixValue::Antiquotation(_))));
}
#[test]
fn primitives_test_test_engine_lexer_primitives_parse_single_value_digit() {
    let content1 = "1";
    let content2 = ",";

    let mut data1 = Lexer::new(content1, String::from("path.nix"));
    let mut data2 = Lexer::new(content2, String::from("path.nix"));

    let result1 = data1.parse_single_value();
    let result2 = data2.parse_single_value();

    assert!(result1.is_ok());
    assert!(result2.is_err());
}
#[test]
fn primitives_test_test_engine_lexer_primitives_parse_single_value_identifier() {
    let content = "test";
    let mut data = Lexer::new(content, String::from("path.nix"));
    let result = data.parse_single_value();

    assert!(result.is_ok());
}

#[test]
fn primitives_test_test_engine_lexer_primitives_parse_path() {
    let content = "test";
    let mut data = Lexer::new(content, String::from("path.nix"));
    let result = data.parse_path();

    assert!(result.is_ok());

    assert!(matches!(result, Ok(NixValue::Path(_))));

    assert!(!matches!(result, Ok(NixValue::AttrSet(_))));
}

#[test]
fn primitives_test_test_engine_lexer_primitives_parse_string() {
    let content = "test\"";
    let mut data = Lexer::new(content, String::from("path.nix"));
    let result = data.parse_string();

    assert!(result.is_ok());

    assert!(matches!(result, Ok(NixValue::Str(_))));

    assert!(!matches!(result, Ok(NixValue::AttrSet(_))));
}

#[test]
fn primitives_test_test_engine_lexer_primitives_parse_number_int() {
    let content1 = "1";
    let content2 = ",";

    let mut data1 = Lexer::new(content1, String::from("path.nix"));
    let mut data2 = Lexer::new(content2, String::from("path.nix"));

    let result1 = data1.parse_number();
    let result2 = data2.parse_number();

    assert!(result1.is_ok());
    assert!(result2.is_err());

    assert!(matches!(result1, Ok(NixValue::Int(_))));

    assert!(!matches!(result1, Ok(NixValue::Float(_))));

    assert!(!matches!(result1, Ok(NixValue::AttrSet(_))));
}

#[test]
fn primitives_test_test_engine_lexer_primitives_parse_number_float() {
    let content1 = "1.0";
    let content2 = ",";

    let mut data1 = Lexer::new(content1, String::from("path.nix"));
    let mut data2 = Lexer::new(content2, String::from("path.nix"));

    let result1 = data1.parse_number();
    let result2 = data2.parse_number();

    assert!(result1.is_ok());
    assert!(result2.is_err());

    assert!(matches!(result1, Ok(NixValue::Float(_))));

    assert!(!matches!(result1, Ok(NixValue::Int(_))));

    assert!(!matches!(result1, Ok(NixValue::AttrSet(_))));
}

#[test]
fn primitives_test_test_engine_lexer_primitives_parse_identifier_word() {
    let content = "test";
    let mut data = Lexer::new(content, String::from("path.nix"));
    let result = data.parse_identifier();

    assert!(result.is_ok());

    assert!(matches!(result, Ok(NixValue::Identifier(_))));

    assert!(!matches!(result, Ok(NixValue::AttrSet(_))));
}

#[test]
fn primitives_test_test_engine_lexer_primitives_parse_identifier_with() {
    let content1 = "with test; test";
    let content2 = ",";

    let mut data1 = Lexer::new(content1, String::from("path.nix"));
    let mut data2 = Lexer::new(content2, String::from("path.nix"));

    let result1 = data1.parse_identifier();
    let result2 = data2.parse_identifier();

    assert!(result1.is_ok());
    assert!(result2.is_err());

    assert!(matches!(result1, Ok(NixValue::With(..))));

    assert!(!matches!(result1, Ok(NixValue::AttrSet(_))));
}

#[test]
fn primitives_test_test_engine_lexer_primitives_parse_identifier_let_it() {
    let content1 = "let in test";
    let content2 = ",";

    let mut data1 = Lexer::new(content1, String::from("path.nix"));
    let mut data2 = Lexer::new(content2, String::from("path.nix"));

    let result1 = data1.parse_identifier();
    let result2 = data2.parse_identifier();

    assert!(result1.is_ok());
    assert!(result2.is_err());

    assert!(matches!(result1, Ok(NixValue::LetIn(..))));

    assert!(!matches!(result1, Ok(NixValue::AttrSet(_))));
}

#[test]
fn primitives_test_test_engine_lexer_primitives_parse_identifier_bool() {
    let content1 = "true";
    let content2 = "false";
    let content3 = ",";

    let mut data1 = Lexer::new(content1, String::from("path.nix"));
    let mut data2 = Lexer::new(content2, String::from("path.nix"));
    let mut data3 = Lexer::new(content3, String::from("path.nix"));

    let result1 = data1.parse_identifier();
    let result2 = data2.parse_identifier();
    let result3 = data3.parse_identifier();

    assert!(result1.is_ok());
    assert!(result2.is_ok());
    assert!(result3.is_err());

    assert!(matches!(result1, Ok(NixValue::Bool(_))));
    assert!(matches!(result2, Ok(NixValue::Bool(_))));

    assert!(matches!(result1, Ok(NixValue::Bool(true))));
    assert!(matches!(result2, Ok(NixValue::Bool(false))));

    assert!(!matches!(result1, Ok(NixValue::Bool(false))));
    assert!(!matches!(result2, Ok(NixValue::Bool(true))));

    assert!(!matches!(result1, Ok(NixValue::AttrSet(_))));
    assert!(!matches!(result2, Ok(NixValue::AttrSet(_))));
}

#[test]
fn test_engine_lexer_primitves_parse_expression() {
    let content1 = "test";
    let content2 = "test ++ test";
    let content3 = "test ++ ";
    let content4 = ";test";

    let mut data1 = Lexer::new(content1, String::from("path.nix"));
    let mut data2 = Lexer::new(content2, String::from("path.nix"));
    let mut data3 = Lexer::new(content3, String::from("path.nix"));
    let mut data4 = Lexer::new(content4, String::from("path.nix"));

    let result1 = data1.parse_expression();
    let result2 = data2.parse_expression();
    let result3 = data3.parse_expression();
    let result4 = data4.parse_expression();

    assert!(result1.is_ok());
    assert!(result2.is_ok());
    assert!(result3.is_err());
    assert!(result4.is_err());

    assert!(matches!(result1, Ok(NixValue::Identifier(_))));
    assert!(matches!(result2, Ok(NixValue::BinaryOp { left: _, operator: Operator::Concat, right: _ })));
}

#[test]
fn test_engine_lexer_primitives_parse_operator() {
    let content1 = "++";
    let content2 = "+";
    let content3 = "=";
    let content4 = "r";

    let mut data1 = Lexer::new(content1, String::from("path.nix"));
    let mut data2 = Lexer::new(content2, String::from("path.nix"));
    let mut data3 = Lexer::new(content3, String::from("path.nix"));
    let mut data4 = Lexer::new(content4, String::from("path.nix"));

    let result1 = data1.parse_operator();
    let result2 = data2.parse_operator();
    let result3 = data3.parse_operator();
    let result4 = data4.parse_operator();

    assert!(result1.is_some());
    assert!(result2.is_some());
    assert!(result3.is_none());
    assert!(result4.is_none());

    assert_eq!(result1, Some(Operator::Concat));
    assert_eq!(result2, Some(Operator::Add));
}

#[test]
fn primitives_test_test_engine_lexer_primitives_parse_indented_string() {
    let content1 = "test'';";
    let content2 = "${test}'';";
    let content3 = "test${test}test'';";
    let content4 = "test$(test)test'';";
    let content5 = "test''$(test)test'';";
    let content6 = "test''";
    let content7 = "test';";

    let mut data1 = Lexer::new(content1, String::from("path.nix"));
    let mut data2 = Lexer::new(content2, String::from("path.nix"));
    let mut data3 = Lexer::new(content3, String::from("path.nix"));
    let mut data4 = Lexer::new(content4, String::from("path.nix"));
    let mut data5 = Lexer::new(content5, String::from("path.nix"));
    let mut data6 = Lexer::new(content6, String::from("path.nix"));
    let mut data7 = Lexer::new(content7, String::from("path.nix"));

    let result1 = data1.parse_indented_string();
    let result2 = data2.parse_indented_string();
    let result3 = data3.parse_indented_string();
    let result4 = data4.parse_indented_string();
    let result5 = data5.parse_indented_string();
    let result6 = data6.parse_indented_string();
    let result7 = data7.parse_indented_string();

    assert!(result1.is_ok());
    assert!(result2.is_ok());
    assert!(result3.is_ok());
    assert!(result4.is_ok());
    assert!(result5.is_ok());
    assert!(result6.is_err());
    assert!(result7.is_err());

    assert!(matches!(result1, Ok(NixValue::IndStr(_))));
    assert!(matches!(result2, Ok(NixValue::IndStr(_))));
    assert!(matches!(result3, Ok(NixValue::IndStr(_))));
    assert!(matches!(result4, Ok(NixValue::IndStr(_))));
    assert!(matches!(result5, Ok(NixValue::IndStr(_))));
}

#[test]
fn primitives_test_test_engine_lexer_primitives_parse_application() {
    let content1 = "test test";

    let mut data1 = Lexer::new(content1, String::from("path.nix"));

    let result1 = data1.parse_application();

    assert!(result1.is_ok());

    assert!(matches!(result1, Ok(NixValue::Apply(..))));
}

