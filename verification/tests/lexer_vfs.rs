#![allow(unused_imports, unused_variables, unused_mut, dead_code)]
use indexmap::IndexMap;
use prolyxena::value::{NixValue, AttrMap, StringFragment, LambdaTypes, Operator, ParseEvent};
use prolyxena::lexer::Lexer;
use prolyxena::grammar::LamType;
use prolyxena::format::Format;
use prolyxena::sort::Sort;
use prolyxena::flattening::Flattening;
use prolyxena::generate::{Generate, Remove, IntoNixValue};
use prolyxena::query::Query;
use prolyxena::vfs::{FsData, FsNodes, DirMap, ReOderMode, Modify, Search, Delete};

trait IntoMap<T> {
    fn into_map(self) -> T;
}

impl IntoMap<AttrMap> for IndexMap<String, NixValue> {
    fn into_map(self) -> AttrMap {
        AttrMap { entries: self.into_iter().collect() }
    }
}

impl IntoMap<DirMap> for IndexMap<String, FsNodes> {
    fn into_map(self) -> DirMap {
        DirMap { entries: self.into_iter().collect() }
    }
}

fn m<I: IntoMap<T>, T>(x: I) -> T {
    x.into_map()
}


fn loaded_tree(root: &str) -> FsData {
    // The listing and content of a folder with one file, `hosts/node1/config.nix`,
    // holding `true`.
    let file = format!("{}/hosts/node1/config.nix", root);
    let mut vfs = FsData::new(root);
    vfs.get_files(vec![file.clone(), format!("{}/hosts/readme.md", root)]);
    let contents: Vec<String> = vfs.files.iter().map(|_| "true".to_string()).collect();
    vfs.gen_tree(&contents).unwrap();
    vfs
}

fn check_loaded_tree(vfs: &FsData) {
    assert_eq!(vfs.files.len(), 1);
    if let FsNodes::Dir(root_map) = &vfs.fsnodes {
        let hosts_node = root_map.get("hosts").expect("Ordner 'hosts' fehlt im Baum");

        if let FsNodes::Dir(hosts_map) = hosts_node {
            let node1_node = hosts_map.get("node1").expect("Ordner 'node1' fehlt im Baum");

            if let FsNodes::Dir(node1_map) = node1_node {
                let config_file = node1_map.get("config.nix").expect("Datei 'config.nix' fehlt");
                if let FsNodes::File { name, ast: _ } = config_file {
                    assert_eq!(name, "config.nix");
                } else {
                    panic!("config.nix wurde nicht als FsNodes::File gespeichert!");
                }
            } else {
                panic!("node1 ist kein Ordner!");
            }
        } else {
            panic!("hosts ist kein Ordner!");
        }
    } else {
        panic!("Wurzel ist kein Ordner!");
    }
}

#[test]
fn test_engine_lexer_vfs_fsdata_initialization() {
    let vfs = FsData::new("/dummy/path");

    assert_eq!(vfs.path, "/dummy/path");
    assert!(vfs.files.is_empty());
    if let FsNodes::Dir(map) = vfs.fsnodes {
        assert!(map.is_empty());
    } else {
        panic!("Der Root-Knoten muss ein Dir sein!");
    }
}

#[test]
fn test_engine_lexer_vfs_get_files_single_nix_file() {
    let mut vfs = FsData::new("einzelne_datei.nix");
    vfs.get_files(Vec::new());

    assert_eq!(vfs.files.len(), 1);
    assert_eq!(vfs.files[0], "einzelne_datei.nix");
}

#[test]
fn test_engine_lexer_vfs_gen_tree_with_real_files() {
    let vfs = loaded_tree("/tmp/prolyxena_test_vfs");
    check_loaded_tree(&vfs);
}

#[test]
fn test_fsdata_initialization() {
    let vfs = FsData::new("/dummy/path");

    assert_eq!(vfs.path, "/dummy/path");
    assert!(vfs.files.is_empty());
    if let FsNodes::Dir(map) = vfs.fsnodes {
        assert!(map.is_empty());
    } else {
        panic!("Der Root-Knoten muss ein Dir sein!");
    }
}

#[test]
fn test_get_files_single_nix_file() {
    let mut vfs = FsData::new("einzelne_datei.nix");
    vfs.get_files(Vec::new());

    assert_eq!(vfs.files.len(), 1);
    assert_eq!(vfs.files[0], "einzelne_datei.nix");
}

#[test]
fn test_gen_tree_with_real_files() {
    let vfs = loaded_tree("/tmp/prolyxena_test_vfs");
    check_loaded_tree(&vfs);
}
