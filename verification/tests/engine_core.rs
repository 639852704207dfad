#![allow(unused_imports, unused_variables, unused_mut, dead_code)]
use indexmap::IndexMap;
use prolyxena::value::{NixValue, AttrMap, StringFragment, LambdaTypes, Operator, ParseEvent};
use prolyxena::lexer::Lexer;
use prolyxena::grammar::LamType;
use prolyxena::format::Format;
use prolyxena::sort::Sort;
use prolyxena::flattening::Flattening;
use prolyxena::generate::{Generate, Remove, IntoNixValue};
use prolyxena::query::Query;
use prolyxena::vfs::{FsData, FsNodes, DirMap, ReOderMode, Modify, Search, Delete};
use std::sync::mpsc;

trait IntoMap<T> {
    fn into_map(self) -> T;
}

impl IntoMap<AttrMap> for IndexMap<String, NixValue> {
    fn into_map(self) -> AttrMap {
        AttrMap { entries: self.into_iter().collect() }
    }
}

impl IntoMap<DirMap> for IndexMap<String, FsNodes> {
    fn into_map(self) -> DirMap {
        DirMap { entries: self.into_iter().collect() }
    }
}

fn m<I: IntoMap<T>, T>(x: I) -> T {
    x.into_map()
}

// engine/core_test.rs

#[test]
fn test_engine_core_new() {
    let lexer = Lexer::new("", String::from("path.nix"));

    assert!(!lexer.path.is_empty());

    assert_eq!(lexer.path, String::from("path.nix"));
}

#[test]
fn test_engine_core_new_trans() {
    let (tx, rx) = mpsc::channel();
    let lexer = Lexer::new_trans("", String::from("path.nix"), tx);

    assert!(!lexer.path.is_empty());

    assert_eq!(lexer.path, String::from("path.nix"));
}

