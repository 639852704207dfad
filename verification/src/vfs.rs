//! A tree of folders and parsed Nix files, and the operations on it: building
//! it from files, adding, finding and deleting files, and restructuring the
//! parsed files.
use std::sync::mpsc::Sender;
use vstd::prelude::*;
use crate::text::{chars_of, string_of, string_from_chars, append_str, push_char, str_eq};
use crate::value::{
    NixValue, AttrMap, ParseEvent, SNix, key_index, map_insert, map_remove, map_get,
    lemma_key_index, lemma_map_get_insert, lemma_key_index_same_keys, strings_model,
};
use crate::grammar::p_value;
use crate::lexer::{Lexer, send_event, clone_sender, syntax_error};
use crate::flattening::{expand_tree, flat_tree, expand_value, flatten_value, lemma_flat_idempotent};
use crate::sort::{sort_tree, sorted_value, lemma_sort_tree_idempotent};
use crate::generate::IntoNixValue;

verus! {

// ---------------------------------------------------------------------------
// Types and models
// ---------------------------------------------------------------------------

/// A folder's entries in the order in which they were added; no name occurs
/// twice.
#[derive(Debug, PartialEq)]
pub struct DirMap {
    pub entries: Vec<(String, FsNodes)>,
}

/// A node of the tree: a parsed file or a folder.
#[derive(Debug, PartialEq)]
pub enum FsNodes {
    File { name: String, ast: NixValue },
    Dir(DirMap),
}

/// The restructuring that `reorder_tree` applies to every file.
#[derive(Debug, Clone, Copy, PartialEq, Eq, Structural)]
pub enum ReOderMode {
    Expand,
    Flatten,
    Sort,
}

/// Model of a node: a file with its name and expression, or a folder with
/// its entries in order.
pub enum SFs {
    File(Seq<char>, SNix),
    Dir(Seq<(Seq<char>, SFs)>),
}

pub open spec fn fs_model(n: FsNodes) -> SFs
    decreases n,
{
    match n {
        FsNodes::File { name, ast } => SFs::File(name@, ast@),
        FsNodes::Dir(d) => SFs::Dir(dir_model(d)),
    }
}

pub open spec fn dir_model(d: DirMap) -> Seq<(Seq<char>, SFs)>
    decreases d,
{
    Seq::new(
        d.entries@.len(),
        |i: int|
            if 0 <= i < d.entries@.len() {
                (d.entries@[i].0@, fs_model(d.entries@[i].1))
            } else {
                (Seq::empty(), SFs::Dir(Seq::empty()))
            },
    )
}

impl View for FsNodes {
    type V = SFs;

    open spec fn view(&self) -> SFs {
        fs_model(*self)
    }
}

impl View for DirMap {
    type V = Seq<(Seq<char>, SFs)>;

    open spec fn view(&self) -> Seq<(Seq<char>, SFs)> {
        dir_model(*self)
    }
}

impl DirMap {
    /// An empty folder.
    pub fn new() -> (r: DirMap)
        ensures
            r@ == Seq::<(Seq<char>, SFs)>::empty(),
    {
        let r = DirMap { entries: Vec::new() };
        assert(r@ =~= Seq::<(Seq<char>, SFs)>::empty());
        r
    }

    pub fn len(&self) -> (r: usize)
        ensures
            r == self@.len(),
    {
        self.entries.len()
    }

    pub fn is_empty(&self) -> (r: bool)
        ensures
            r == (self@.len() == 0),
    {
        self.entries.len() == 0
    }

    /// Position of the entry named `k`.
    pub fn find(&self, k: &str) -> (r: Option<usize>)
        ensures
            match r {
                Some(i) => key_index(self@, k@) == Some(i as int) && i < self@.len()
                    && self@[i as int].0 == k@,
                None => key_index(self@, k@) is None,
            },
    {
        proof {
            lemma_key_index(self@, k@);
        }
        let mut j = self.entries.len();
        assert(self@.subrange(0, j as int) =~= self@);
        while j > 0
            invariant
                j <= self.entries@.len(),
                key_index(self@, k@) == key_index(self@.subrange(0, j as int), k@),
            decreases j,
        {
            let ghost sub = self@.subrange(0, j as int);
            if str_eq(self.entries[j - 1].0.as_str(), k) {
                assert(sub.last().0 == k@);
                return Some(j - 1);
            }
            assert(sub.drop_last() =~= self@.subrange(0, j - 1));
            j = j - 1;
        }
        None
    }

    /// The entry named `k`.
    pub fn get(&self, k: &str) -> (r: Option<&FsNodes>)
        ensures
            match r {
                Some(n) => map_get(self@, k@) == Some(n@),
                None => map_get(self@, k@) is None,
            },
    {
        match self.find(k) {
            Some(i) => {
                assert(self@[i as int].1 == self.entries@[i as int].1@);
                Some(&self.entries[i].1)
            },
            None => None,
        }
    }

    /// The node under `k`, to change in place: changing it changes that entry
    /// only.
    pub fn get_mut(&mut self, k: &str) -> (r: Option<&mut FsNodes>)
        ensures
            match r {
                Some(n) => map_get(old(self)@, k@) == Some(n@) && final(self)@ == old(self)@.update(
                    key_index(old(self)@, k@)->Some_0,
                    (k@, final(n)@),
                ) && (final(n)@ == n@ ==> final(self)@ == old(self)@),
                None => map_get(old(self)@, k@) is None && final(self)@ == old(self)@,
            },
    {
        match self.find(k) {
            Some(i) => {
                assert(self@[i as int].1 == self.entries@[i as int].1@);
                assert(self@.update(i as int, (k@, self@[i as int].1)) =~= self@);
                let e = &mut self.entries[i];
                Some(&mut e.1)
            },
            None => None,
        }
    }

    /// Stores `n` under `k`: an existing entry keeps its place, a new one
    /// goes to the end.
    pub fn insert(&mut self, k: String, n: FsNodes)
        ensures
            final(self)@ == map_insert(old(self)@, k@, n@),
    {
        let ghost kk = k@;
        let ghost nn = n@;
        match self.find(k.as_str()) {
            Some(i) => {
                self.entries.set(i, (k, n));
                assert(self@ =~= map_insert(old(self)@, kk, nn));
            },
            None => {
                self.entries.push((k, n));
                assert(self@ =~= map_insert(old(self)@, kk, nn));
            },
        }
    }

    /// Removes the entry named `k`, keeping the order of the others. Returns
    /// whether it was there.
    pub fn shift_remove(&mut self, k: &str) -> (r: bool)
        ensures
            final(self)@ == map_remove(old(self)@, k@),
            r == (key_index(old(self)@, k@) is Some),
    {
        match self.find(k) {
            Some(i) => {
                self.entries.remove(i);
                assert(self@ =~= map_remove(old(self)@, k@));
                true
            },
            None => false,
        }
    }
}

// ---------------------------------------------------------------------------
// Paths
// ---------------------------------------------------------------------------

/// `s` without its leading slashes.
pub open spec fn trim_slashes(s: Seq<char>) -> Seq<char>
    decreases s.len(),
{
    if s.len() > 0 && s[0] == '/' {
        trim_slashes(s.drop_first())
    } else {
        s
    }
}

/// `n` adjoined to the folder `p`, as `PathBuf::join` does it for a relative
/// `n`: a slash goes between them unless `p` is empty or already ends with
/// one.
pub open spec fn join_path(p: Seq<char>, n: Seq<char>) -> Seq<char> {
    if p.len() == 0 {
        n
    } else if p.last() == '/' {
        p + n
    } else {
        p + "/"@ + n
    }
}

/// Splits at each slash from position `i` on, as `str::split('/')` does:
/// empty pieces are kept, and there is always at least one piece.
pub open spec fn split_slash_from(s: Seq<char>, i: int, cur: Seq<char>, parts: Seq<Seq<char>>) -> Seq<
    Seq<char>,
>
    decreases s.len() - i,
{
    if i < 0 || i >= s.len() {
        parts.push(cur)
    } else if s[i] == '/' {
        split_slash_from(s, i + 1, Seq::empty(), parts.push(cur))
    } else {
        split_slash_from(s, i + 1, cur.push(s[i]), parts)
    }
}

/// The pieces of `s` between slashes.
pub open spec fn split_slash(s: Seq<char>) -> Seq<Seq<char>> {
    split_slash_from(s, 0, Seq::empty(), Seq::empty())
}

proof fn lemma_split_slash_from_len(s: Seq<char>, i: int, cur: Seq<char>, parts: Seq<Seq<char>>)
    ensures
        split_slash_from(s, i, cur, parts).len() >= parts.len() + 1,
    decreases s.len() - i,
{
    if 0 <= i < s.len() {
        if s[i] == '/' {
            lemma_split_slash_from_len(s, i + 1, Seq::empty(), parts.push(cur));
        } else {
            lemma_split_slash_from_len(s, i + 1, cur.push(s[i]), parts);
        }
    }
}

/// `s` without its leading slashes.
pub fn trim_start_slashes(s: &str) -> (r: String)
    ensures
        r@ == trim_slashes(s@),
{
    let v = chars_of(s);
    let mut i: usize = 0;
    assert(v@.subrange(0, v@.len() as int) =~= v@);
    while i < v.len() && v[i] == '/'
        invariant
            v@ == s@,
            i <= v@.len(),
            trim_slashes(v@.subrange(i as int, v@.len() as int)) == trim_slashes(s@),
        decreases v@.len() - i,
    {
        assert(v@.subrange(i as int, v@.len() as int).drop_first() =~= v@.subrange(
            i + 1,
            v@.len() as int,
        ));
        i = i + 1;
    }
    let mut out = String::new();
    let mut j = i;
    assert(v@.subrange(i as int, v@.len() as int) =~= v@.subrange(i as int, v@.len() as int));
    while j < v.len()
        invariant
            v@ == s@,
            i <= j <= v@.len(),
            out@ == v@.subrange(i as int, j as int),
        decreases v@.len() - j,
    {
        push_char(&mut out, v[j]);
        j = j + 1;
        assert(out@ =~= v@.subrange(i as int, j as int));
    }
    out
}

/// The pieces of `s` between slashes (see `split_slash`).
pub fn split_at_slashes(s: &str) -> (r: Vec<String>)
    ensures
        strings_model(r) == split_slash(s@),
        r@.len() >= 1,
{
    let v = chars_of(s);
    let mut parts: Vec<String> = Vec::new();
    let mut cur: Vec<char> = Vec::new();
    let mut i: usize = 0;
    assert(strings_model(parts) =~= Seq::<Seq<char>>::empty());
    assert(cur@ =~= Seq::<char>::empty());
    while i < v.len()
        invariant
            v@ == s@,
            i <= v@.len(),
            split_slash_from(s@, i as int, cur@, strings_model(parts)) == split_slash(s@),
        decreases v@.len() - i,
    {
        if v[i] == '/' {
            let ghost before = parts;
            parts.push(string_from_chars(cur.as_slice()));
            assert(strings_model(parts) =~= strings_model(before).push(cur@));
            cur = Vec::new();
            assert(cur@ =~= Seq::<char>::empty());
        } else {
            cur.push(v[i]);
        }
        i = i + 1;
    }
    let ghost before = parts;
    parts.push(string_from_chars(cur.as_slice()));
    assert(strings_model(parts) =~= strings_model(before).push(cur@));
    parts
}

/// `n` adjoined to the folder `p` (see `join_path`).
pub fn join_paths(p: &str, n: &str) -> (r: String)
    ensures
        r@ == join_path(p@, n@),
{
    let pv = chars_of(p);
    if pv.len() == 0 {
        return string_of(n);
    }
    let mut out = string_of(p);
    if pv[pv.len() - 1] != '/' {
        append_str(&mut out, "/");
    }
    append_str(&mut out, n);
    out
}

// ---------------------------------------------------------------------------
// Adding, finding and deleting files
// ---------------------------------------------------------------------------

/// Stores `leaf` under the path `parts` below `node`. Each part but the last
/// names a folder, which is created (at the end of its parent) where it is
/// missing; the last part names the entry that gets `leaf`, in place if it
/// exists. If the last folder turns out to be a file, nothing is stored.
/// `None` when a part but the last names a file; nothing is changed then.
pub open spec fn fs_put(node: SFs, parts: Seq<Seq<char>>, leaf: SFs) -> Option<SFs>
    decreases parts.len(),
{
    if parts.len() <= 1 {
        match node {
            SFs::Dir(m) => if parts.len() == 1 {
                Some(SFs::Dir(map_insert(m, parts[0], leaf)))
            } else {
                Some(node)
            },
            SFs::File(_, _) => Some(node),
        }
    } else {
        match node {
            SFs::Dir(m) => {
                let child = match map_get(m, parts[0]) {
                    Some(c) => c,
                    None => SFs::Dir(Seq::empty()),
                };
                match fs_put(child, parts.drop_first(), leaf) {
                    Some(c2) => Some(SFs::Dir(map_insert(m, parts[0], c2))),
                    None => None,
                }
            },
            SFs::File(_, _) => None,
        }
    }
}

/// The parts of the path under which `generate_file` stores a file named
/// `name` in a tree rooted at `base`.
pub open spec fn gen_parts(base: Seq<char>, name: Seq<char>) -> Seq<Seq<char>> {
    split_slash(trim_slashes(join_path(base, trim_slashes(name))))
}

/// Stores `leaf` below `node` under `parts[k..]` (see `fs_put`); the flag
/// tells whether that succeeded, and on failure `node` is given back.
fn put_node(node: FsNodes, parts: &Vec<String>, k: usize, leaf: FsNodes) -> (r: (FsNodes, bool))
    requires
        k < parts@.len(),
    ensures
        match fs_put(node@, strings_model(*parts).skip(k as int), leaf@) {
            Some(t) => r.1 && r.0@ == t,
            None => !r.1 && r.0@ == node@,
        },
    decreases parts@.len() - k,
{
    let ghost ps = strings_model(*parts).skip(k as int);
    let ghost lv = leaf@;
    assert(ps[0] == parts@[k as int]@);
    if parts.len() - k == 1 {
        match node {
            FsNodes::Dir(mut m) => {
                m.insert(parts[k].clone(), leaf);
                (FsNodes::Dir(m), true)
            },
            other => (other, true),
        }
    } else {
        assert(ps.drop_first() =~= strings_model(*parts).skip(k + 1));
        match node {
            FsNodes::Dir(mut m) => {
                let ghost m0 = m@;
                match m.find(parts[k].as_str()) {
                    Some(i) => {
                        let (key, child) = m.entries.remove(i);
                        assert(m0[i as int] == (key@, child@));
                        assert(map_get(m0, ps[0]) == Some(child@));
                        let (c2, ok) = put_node(child, parts, k + 1, leaf);
                        let ghost cv = c2@;
                        m.entries.insert(i, (key, c2));
                        if ok {
                            assert(m@ =~= m0.update(i as int, (ps[0], cv)));
                        } else {
                            assert(m@ =~= m0);
                        }
                        (FsNodes::Dir(m), ok)
                    },
                    None => {
                        let fresh = FsNodes::Dir(DirMap::new());
                        assert(fresh@ == SFs::Dir(Seq::empty()));
                        let (c2, ok) = put_node(fresh, parts, k + 1, leaf);
                        if ok {
                            let ghost cv = c2@;
                            m.entries.push((parts[k].clone(), c2));
                            assert(m@ =~= m0.push((ps[0], cv)));
                        }
                        (FsNodes::Dir(m), ok)
                    },
                }
            },
            other => (other, false),
        }
    }
}

/// What looking up the file at `parts` below `node` finds: its expression,
/// or the error message.
pub open spec fn fs_find(node: SFs, parts: Seq<Seq<char>>) -> Result<SNix, Seq<char>>
    decreases parts.len(),
{
    if parts.len() <= 1 {
        match node {
            SFs::Dir(m) => match map_get(m, if parts.len() == 1 {
                parts[0]
            } else {
                Seq::empty()
            }) {
                Some(SFs::File(_, ast)) => Ok(ast),
                Some(SFs::Dir(_)) => Err("Query-Fehler: Gesuchte Datei stellt sich als Ordner heraus"@),
                None => Err("Query-Fehler: Ordner enthält die Datei nicht"@),
            },
            SFs::File(_, _) => Err("Query-Fehler: Letzter Ordner nicht vorhanden"@),
        }
    } else {
        match node {
            SFs::Dir(m) => match map_get(m, parts[0]) {
                Some(c) => fs_find(c, parts.drop_first()),
                None => Err("Query-Fehler: Ordner '"@ + parts[0] + "' nicht gefunden"@),
            },
            SFs::File(_, _) => Err("Query-Fehler: Versucht einen Ordner in einer Datei zu finden"@),
        }
    }
}

/// The tree with the expression of the file that `fs_find` finds at
/// `parts` below `node` replaced by `v`.
pub open spec fn fs_set_ast(node: SFs, parts: Seq<Seq<char>>, v: SNix) -> SFs
    decreases parts.len(),
{
    match node {
        SFs::Dir(m) => match key_index(m, if parts.len() >= 1 { parts[0] } else { Seq::empty() }) {
            Some(i) => if parts.len() <= 1 {
                match m[i].1 {
                    SFs::File(n, _) => SFs::Dir(m.update(i, (m[i].0, SFs::File(n, v)))),
                    SFs::Dir(_) => node,
                }
            } else {
                SFs::Dir(m.update(i, (m[i].0, fs_set_ast(m[i].1, parts.drop_first(), v))))
            },
            None => node,
        },
        SFs::File(_, _) => node,
    }
}

/// What deleting the file at `parts` below `node` gives: the tree without
/// it, or the error message.
pub open spec fn fs_delete(node: SFs, parts: Seq<Seq<char>>) -> Result<SFs, Seq<char>>
    decreases parts.len(),
{
    if parts.len() <= 1 {
        match node {
            SFs::Dir(m) => {
                let k = if parts.len() == 1 {
                    parts[0]
                } else {
                    Seq::empty()
                };
                if key_index(m, k) is Some {
                    Ok(SFs::Dir(map_remove(m, k)))
                } else {
                    Err("Remove-Fehler: Ordner enthält die Datei nicht"@)
                }
            },
            SFs::File(_, _) => Err("Query-Fehler: Letzter Ordner nicht vorhanden"@),
        }
    } else {
        match node {
            SFs::Dir(m) => match map_get(m, parts[0]) {
                Some(c) => match fs_delete(c, parts.drop_first()) {
                    Ok(c2) => Ok(SFs::Dir(map_insert(m, parts[0], c2))),
                    Err(e) => Err(e),
                },
                None => Err("Query-Fehler: Ordner '"@ + parts[0] + "' nicht gefunden"@),
            },
            SFs::File(_, _) => Err("Query-Fehler: Versucht eine Ordner in einer Datei zu finden"@),
        }
    }
}

/// The expression of the file at `parts[k..]` below `node`, to change in
/// place (see `fs_find`); changing it changes that file only (see `fs_set_ast`).
fn find_node_mut<'a>(node: &'a mut FsNodes, parts: &Vec<String>, k: usize) -> (r: Result<
    &'a mut NixValue,
    String,
>)
    requires
        k < parts@.len(),
    ensures
        r matches Ok(v) ==> fs_find(old(node)@, strings_model(*parts).skip(k as int)) == Ok::<
            SNix,
            Seq<char>,
        >(v@),
        r matches Ok(v) ==> final(node)@ == fs_set_ast(
            old(node)@,
            strings_model(*parts).skip(k as int),
            final(v)@,
        ),
        r matches Err(e) ==> fs_find(old(node)@, strings_model(*parts).skip(k as int)) == Err::<
            SNix,
            Seq<char>,
        >(e@),
        r is Err ==> final(node)@ == old(node)@,
    decreases parts@.len() - k,
{
    let ghost ps = strings_model(*parts).skip(k as int);
    assert(ps[0] == parts@[k as int]@);
    if parts.len() - k == 1 {
        match node {
            FsNodes::Dir(m) => {
                proof {
                    lemma_key_index(m@, parts@[k as int]@);
                }
                match m.get_mut(parts[k].as_str()) {
                    Some(FsNodes::File { name: _, ast }) => Ok(ast),
                    Some(FsNodes::Dir(_)) => Err(
                        string_of("Query-Fehler: Gesuchte Datei stellt sich als Ordner heraus"),
                    ),
                    None => Err(string_of("Query-Fehler: Ordner enthält die Datei nicht")),
                }
            },
            FsNodes::File { .. } => Err(string_of("Query-Fehler: Letzter Ordner nicht vorhanden")),
        }
    } else {
        assert(ps.drop_first() =~= strings_model(*parts).skip(k + 1));
        match node {
            FsNodes::Dir(m) => {
                proof {
                    lemma_key_index(m@, parts@[k as int]@);
                }
                match m.get_mut(parts[k].as_str()) {
                    Some(c) => find_node_mut(c, parts, k + 1),
                    None => {
                        let mut e = string_of("Query-Fehler: Ordner '");
                        append_str(&mut e, parts[k].as_str());
                        append_str(&mut e, "' nicht gefunden");
                        Err(e)
                    },
                }
            },
            FsNodes::File { .. } => Err(
                string_of("Query-Fehler: Versucht einen Ordner in einer Datei zu finden"),
            ),
        }
    }
}

/// Deletes the file at `parts[k..]` below `node` (see `fs_delete`); on
/// failure `node` is given back unchanged.
fn delete_node(node: FsNodes, parts: &Vec<String>, k: usize) -> (r: (FsNodes, Result<(), String>))
    requires
        k < parts@.len(),
    ensures
        match fs_delete(node@, strings_model(*parts).skip(k as int)) {
            Ok(t) => r.1 is Ok && r.0@ == t,
            Err(e) => r.1 == Err::<(), String>(r.1->Err_0) && r.1->Err_0@ == e && r.0@ == node@,
        },
    decreases parts@.len() - k,
{
    let ghost ps = strings_model(*parts).skip(k as int);
    assert(ps[0] == parts@[k as int]@);
    if parts.len() - k == 1 {
        match node {
            FsNodes::Dir(mut m) => {
                if m.shift_remove(parts[k].as_str()) {
                    (FsNodes::Dir(m), Ok(()))
                } else {
                    (FsNodes::Dir(m), Err(string_of("Remove-Fehler: Ordner enthält die Datei nicht")))
                }
            },
            other => (other, Err(string_of("Query-Fehler: Letzter Ordner nicht vorhanden"))),
        }
    } else {
        assert(ps.drop_first() =~= strings_model(*parts).skip(k + 1));
        match node {
            FsNodes::Dir(mut m) => {
                let ghost m0 = m@;
                match m.find(parts[k].as_str()) {
                    Some(i) => {
                        let (key, child) = m.entries.remove(i);
                        assert(m0[i as int] == (key@, child@));
                        assert(map_get(m0, ps[0]) == Some(child@));
                        let (c2, res) = delete_node(child, parts, k + 1);
                        let ghost cv = c2@;
                        m.entries.insert(i, (key, c2));
                        if res.is_ok() {
                            assert(m@ =~= m0.update(i as int, (ps[0], cv)));
                        } else {
                            assert(m@ =~= m0);
                        }
                        (FsNodes::Dir(m), res)
                    },
                    None => {
                        let mut e = string_of("Query-Fehler: Ordner '");
                        append_str(&mut e, parts[k].as_str());
                        append_str(&mut e, "' nicht gefunden");
                        (FsNodes::Dir(m), Err(e))
                    },
                }
            },
            other => (
                other,
                Err(string_of("Query-Fehler: Versucht eine Ordner in einer Datei zu finden")),
            ),
        }
    }
}

// ---------------------------------------------------------------------------
// Restructuring all files
// ---------------------------------------------------------------------------

/// The restructuring of one expression that a mode stands for.
pub open spec fn reorder_ast(mode: ReOderMode, v: SNix) -> SNix {
    match mode {
        ReOderMode::Expand => expand_tree(v),
        ReOderMode::Flatten => flat_tree(v),
        ReOderMode::Sort => sort_tree(v),
    }
}

/// A tree with every file's expression restructured.
pub open spec fn fs_reorder(n: SFs, mode: ReOderMode) -> SFs
    decreases n, 1int,
{
    match n {
        SFs::File(name, ast) => SFs::File(name, reorder_ast(mode, ast)),
        SFs::Dir(m) => SFs::Dir(reorder_entries(m, mode)),
    }
}

/// The entries of a folder, each restructured.
pub open spec fn reorder_entries(m: Seq<(Seq<char>, SFs)>, mode: ReOderMode) -> Seq<(Seq<char>, SFs)>
    decreases m, 0int,
{
    Seq::new(
        m.len(),
        |i: int|
            if 0 <= i < m.len() {
                (m[i].0, fs_reorder(m[i].1, mode))
            } else {
                (Seq::empty(), SFs::Dir(Seq::empty()))
            },
    )
}

/// The model of a vector of folder entries.
pub open spec fn dir_entries_model(v: Seq<(String, FsNodes)>) -> Seq<(Seq<char>, SFs)> {
    Seq::new(v.len(), |i: int| (v[i].0@, v[i].1@))
}

/// A copy of a tree with every file's expression restructured.
fn reordered(n: &FsNodes, mode: ReOderMode) -> (r: FsNodes)
    ensures
        r@ == fs_reorder(n@, mode),
    decreases n, 1int,
{
    match n {
        FsNodes::File { name, ast } => {
            let a = match mode {
                ReOderMode::Expand => expand_value(ast),
                ReOderMode::Flatten => flatten_value(ast),
                ReOderMode::Sort => sorted_value(ast),
            };
            FsNodes::File { name: name.clone(), ast: a }
        },
        FsNodes::Dir(d) => {
            proof {
                assert(decreases_to!(*n => *d));
            }
            let out = reordered_entries(d, mode);
            let r = DirMap { entries: out };
            assert(r@ =~= dir_entries_model(out@));
            FsNodes::Dir(r)
        },
    }
}

fn reordered_entries(d: &DirMap, mode: ReOderMode) -> (r: Vec<(String, FsNodes)>)
    ensures
        dir_entries_model(r@) == reorder_entries(d@, mode),
    decreases d, 0int,
{
    let ghost dd = d@;
    let mut out: Vec<(String, FsNodes)> = Vec::new();
    let mut i: usize = 0;
    while i < d.entries.len()
        invariant
            dd == d@,
            dd.len() == d.entries@.len(),
            i <= d.entries@.len(),
            out@.len() == i,
            forall|j: int| 0 <= j < i ==> #[trigger] dir_entries_model(out@)[j] == reorder_entries(
                dd,
                mode,
            )[j],
        decreases d.entries@.len() - i,
    {
        let e = &d.entries[i];
        proof {
            assert(decreases_to!(*d => d.entries));
            assert(decreases_to!(d.entries => d.entries@));
            assert(decreases_to!(d.entries@ => d.entries@[i as int]));
            assert(decreases_to!(d.entries@[i as int] => d.entries@[i as int].1));
            assert(dd[i as int] == (e.0@, e.1@));
        }
        let w = reordered(&e.1, mode);
        let ghost before = out@;
        out.push((e.0.clone(), w));
        proof {
            assert forall|j: int| 0 <= j < i + 1 implies #[trigger] dir_entries_model(out@)[j]
                == reorder_entries(dd, mode)[j] by {
                if j < i {
                    assert(dir_entries_model(out@)[j] == dir_entries_model(before)[j]);
                }
            }
        }
        i = i + 1;
    }
    assert(dir_entries_model(out@) =~= reorder_entries(dd, mode));
    out
}

impl FsNodes {
    /// Restructures every file's expression as `mode` says.
    pub fn reorder_tree(&mut self, mode: &ReOderMode)
        ensures
            final(self)@ == fs_reorder(old(self)@, *mode),
    {
        let r = reordered(self, *mode);
        *self = r;
    }
}

// ---------------------------------------------------------------------------
// Building the tree from files
// ---------------------------------------------------------------------------

/// `f` without the leading `b`, or `f` itself if it does not start with `b`.
pub open spec fn strip_base(f: Seq<char>, b: Seq<char>) -> Seq<char> {
    if b.len() <= f.len() && f.subrange(0, b.len() as int) == b {
        f.subrange(b.len() as int, f.len() as int)
    } else {
        f
    }
}

/// The path of a file relative to the base, without leading slashes.
pub open spec fn rel_path(f: Seq<char>, b: Seq<char>) -> Seq<char> {
    trim_slashes(strip_base(f, b))
}

/// The expression stored for a file's content: parsed, then expanded,
/// flattened and sorted as the flags say; `None` when parsing fails.
pub open spec fn file_ast(content: Seq<char>, expand: bool, flatten: bool, sort: bool) -> Option<SNix> {
    match p_value(content, 0).0 {
        Some(v) => {
            let v1 = if expand {
                expand_tree(v)
            } else {
                v
            };
            let v2 = if flatten {
                flat_tree(v1)
            } else {
                v1
            };
            Some(
                if sort {
                    sort_tree(v2)
                } else {
                    v2
                },
            )
        },
        None => None,
    }
}

/// Placing a file under `parts` below `node`, with the expression `ast`
/// (`None` when its content does not parse): the tree afterwards, and `0`
/// when that succeeded, `1` when a folder of the path is a file (nothing is
/// changed then), `2` when the content does not parse (the folders of the
/// path have been created then). If the last folder is a file, nothing is
/// placed and the content is not read.
pub open spec fn place(node: SFs, parts: Seq<Seq<char>>, ast: Option<SNix>) -> (SFs, int)
    decreases parts.len(),
{
    if parts.len() <= 1 {
        match node {
            SFs::Dir(m) => {
                let last = if parts.len() == 1 {
                    parts[0]
                } else {
                    Seq::empty()
                };
                match ast {
                    Some(a) => (SFs::Dir(map_insert(m, last, SFs::File(last, a))), 0),
                    None => (node, 2),
                }
            },
            SFs::File(_, _) => (node, 0),
        }
    } else {
        match node {
            SFs::Dir(m) => {
                let child = match map_get(m, parts[0]) {
                    Some(c) => c,
                    None => SFs::Dir(Seq::empty()),
                };
                let (c2, o) = place(child, parts.drop_first(), ast);
                if o == 1 {
                    (node, 1)
                } else {
                    (SFs::Dir(map_insert(m, parts[0], c2)), o)
                }
            },
            SFs::File(_, _) => (node, 1),
        }
    }
}

/// Placing the first `n` files in order, stopping at the first failure.
pub open spec fn gen_upto(
    t: SFs,
    files: Seq<Seq<char>>,
    contents: Seq<Seq<char>>,
    base: Seq<char>,
    expand: bool,
    flatten: bool,
    sort: bool,
    n: int,
) -> (SFs, int)
    decreases n,
{
    if n <= 0 {
        (t, 0)
    } else {
        let (t1, o1) = gen_upto(t, files, contents, base, expand, flatten, sort, n - 1);
        if o1 != 0 {
            (t1, o1)
        } else {
            place(
                t1,
                split_slash(rel_path(files[n - 1], base)),
                file_ast(contents[n - 1], expand, flatten, sort),
            )
        }
    }
}

/// Once placing has failed, placing more files changes nothing.
proof fn lemma_gen_upto_stops(
    t: SFs,
    files: Seq<Seq<char>>,
    contents: Seq<Seq<char>>,
    base: Seq<char>,
    expand: bool,
    flatten: bool,
    sort: bool,
    k: int,
    n: int,
)
    requires
        0 <= k <= n,
        gen_upto(t, files, contents, base, expand, flatten, sort, k).1 != 0,
    ensures
        gen_upto(t, files, contents, base, expand, flatten, sort, n) == gen_upto(
            t,
            files,
            contents,
            base,
            expand,
            flatten,
            sort,
            k,
        ),
    decreases n - k,
{
    if k < n {
        lemma_gen_upto_stops(t, files, contents, base, expand, flatten, sort, k, n - 1);
    }
}

/// `f` without the leading `b` (see `strip_base`).
fn strip_base_of(f: &str, b: &str) -> (r: String)
    ensures
        r@ == strip_base(f@, b@),
{
    let fv = chars_of(f);
    let bv = chars_of(b);
    if bv.len() > fv.len() {
        return string_of(f);
    }
    let mut i: usize = 0;
    while i < bv.len()
        invariant
            fv@ == f@,
            bv@ == b@,
            bv@.len() <= fv@.len(),
            i <= bv@.len(),
            forall|j: int| 0 <= j < i ==> fv@[j] == bv@[j],
        decreases bv@.len() - i,
    {
        if fv[i] != bv[i] {
            assert(f@.subrange(0, b@.len() as int)[i as int] != b@[i as int]);
            return string_of(f);
        }
        i = i + 1;
    }
    assert(f@.subrange(0, b@.len() as int) =~= b@);
    let mut out = String::new();
    let mut j = bv.len();
    while j < fv.len()
        invariant
            fv@ == f@,
            bv@ == b@,
            bv@.len() <= j <= fv@.len(),
            out@ == f@.subrange(b@.len() as int, j as int),
        decreases fv@.len() - j,
    {
        push_char(&mut out, fv[j]);
        j = j + 1;
        assert(out@ =~= f@.subrange(b@.len() as int, j as int));
    }
    out
}

/// Reports an event to the channel, if there is one.
fn report(trans: &Option<Sender<ParseEvent>>, ev: ParseEvent) {
    if let Some(tx) = trans {
        send_event(tx, ev);
    }
}

/// Parses a file's content and restructures it as the flags say, reporting
/// each step (see `file_ast`).
fn parse_file(
    content: &str,
    file: &String,
    clean: &String,
    trans: &Option<Sender<ParseEvent>>,
    expand: bool,
    flatten: bool,
    sort: bool,
) -> (r: Result<NixValue, String>)
    ensures
        match r {
            Ok(v) => file_ast(content@, expand, flatten, sort) == Some(v@),
            Err(m) => file_ast(content@, expand, flatten, sort) is None && parse_failure_msg(m@),
        },
{
    report(trans, ParseEvent::StartParsingFile(clean.clone()));
    let mut lexer = match trans {
        Some(tx) => Lexer::new_trans(content, file.clone(), clone_sender(tx)),
        None => Lexer::new(content, file.clone()),
    };
    let parsed = lexer.parse_value();
    let mut v = match parsed {
        Ok(v) => v,
        Err(e) => {
            let mut m = string_of("Fehler beim Parsen/generating des Trees: \n");
            append_str(&mut m, e.as_str());
            assert(parse_failure_msg(m@));
            return Err(m);
        },
    };
    if expand {
        report(trans, ParseEvent::StartExpandingFile(clean.clone()));
        v = expand_value(&v);
        report(trans, ParseEvent::EndExpandingFile(clean.clone()));
    }
    if flatten {
        report(trans, ParseEvent::StartFlatteningFile(clean.clone()));
        v = flatten_value(&v);
        report(trans, ParseEvent::EndFlatteningFile(clean.clone()));
    }
    if sort {
        report(trans, ParseEvent::StartSortingFile(clean.clone()));
        v = sorted_value(&v);
        report(trans, ParseEvent::EndSortingFile(clean.clone()));
    }
    report(trans, ParseEvent::EndParsingFile(clean.clone()));
    Ok(v)
}

/// The message when a folder of a path turns out to be a file.
/// The message of a file that does not parse: a head, a line break and the
/// reader's syntax error.
pub open spec fn parse_failure_msg(m: Seq<char>) -> bool {
    exists|e: Seq<char>|
        syntax_error(e) && m == "Fehler beim Parsen/generating des Trees: \n"@ + e
}

pub open spec fn folder_in_file_msg() -> Seq<char> {
    "Fehler: Versucht einen Ordner in einer Datei zu erstellen"@
}

/// Places a file below `node` under `parts[k..]` (see `place`), parsing its
/// content when the last folder is reached. Gives back the tree, the outcome
/// and, on failure, the error message.
fn place_node(
    node: FsNodes,
    parts: &Vec<String>,
    k: usize,
    content: &str,
    file: &String,
    clean: &String,
    trans: &Option<Sender<ParseEvent>>,
    expand: bool,
    flatten: bool,
    sort: bool,
) -> (r: (FsNodes, u8, String))
    requires
        k < parts@.len(),
    ensures
        place(
            node@,
            strings_model(*parts).skip(k as int),
            file_ast(content@, expand, flatten, sort),
        ) == (r.0@, r.1 as int),
        r.1 <= 2,
        r.1 == 1 ==> r.2@ == folder_in_file_msg(),
        r.1 == 2 ==> parse_failure_msg(r.2@),
    decreases parts@.len() - k,
{
    let ghost ps = strings_model(*parts).skip(k as int);
    assert(ps[0] == parts@[k as int]@);
    if parts.len() - k == 1 {
        match node {
            FsNodes::Dir(mut m) => {
                match parse_file(content, file, clean, trans, expand, flatten, sort) {
                    Ok(a) => {
                        let f = FsNodes::File { name: parts[k].clone(), ast: a };
                        m.insert(parts[k].clone(), f);
                        (FsNodes::Dir(m), 0, String::new())
                    },
                    Err(e) => (FsNodes::Dir(m), 2, e),
                }
            },
            other => (other, 0, String::new()),
        }
    } else {
        assert(ps.drop_first() =~= strings_model(*parts).skip(k + 1));
        match node {
            FsNodes::Dir(mut m) => {
                let ghost m0 = m@;
                match m.find(parts[k].as_str()) {
                    Some(i) => {
                        let (key, child) = m.entries.remove(i);
                        assert(m0[i as int] == (key@, child@));
                        assert(map_get(m0, ps[0]) == Some(child@));
                        let (c2, code, msg) = place_node(
                            child,
                            parts,
                            k + 1,
                            content,
                            file,
                            clean,
                            trans,
                            expand,
                            flatten,
                            sort,
                        );
                        let ghost cv = c2@;
                        m.entries.insert(i, (key, c2));
                        if code == 1 {
                            assert(m@ =~= m0);
                        } else {
                            assert(m@ =~= m0.update(i as int, (ps[0], cv)));
                        }
                        (FsNodes::Dir(m), code, msg)
                    },
                    None => {
                        let fresh = FsNodes::Dir(DirMap::new());
                        assert(fresh@ == SFs::Dir(Seq::empty()));
                        let (c2, code, msg) = place_node(
                            fresh,
                            parts,
                            k + 1,
                            content,
                            file,
                            clean,
                            trans,
                            expand,
                            flatten,
                            sort,
                        );
                        if code != 1 {
                            let ghost cv = c2@;
                            m.entries.push((parts[k].clone(), c2));
                            assert(m@ =~= m0.push((ps[0], cv)));
                        }
                        (FsNodes::Dir(m), code, msg)
                    },
                }
            },
            other => (other, 1, string_of("Fehler: Versucht einen Ordner in einer Datei zu erstellen")),
        }
    }
}

// ---------------------------------------------------------------------------
// The tree of files
// ---------------------------------------------------------------------------

/// A tree of parsed Nix files below a path, with the options for reading
/// them.
#[derive(Debug)]
pub struct FsData {
    pub files: Vec<String>,
    pub path: String,
    pub fsnodes: FsNodes,
    pub trans: Option<Sender<ParseEvent>>,
    /// How long loading took, in nanoseconds.
    pub time: u64,
    /// The loading time as it is shown, such as `0.052s`.
    pub time_shown: String,
    pub sort: bool,
    pub expand: bool,
    pub flatten: bool,
}

/// `t` ends with `suffix`.
pub open spec fn ends_with(t: Seq<char>, suffix: Seq<char>) -> bool {
    suffix.len() <= t.len() && t.subrange(t.len() - suffix.len(), t.len() as int) == suffix
}

/// Whether `t` ends with `suffix`.
pub fn text_ends_with(t: &str, suffix: &str) -> (r: bool)
    ensures
        r == ends_with(t@, suffix@),
{
    let tv = chars_of(t);
    let sv = chars_of(suffix);
    if sv.len() > tv.len() {
        return false;
    }
    let off = tv.len() - sv.len();
    let mut i: usize = 0;
    while i < sv.len()
        invariant
            tv@ == t@,
            sv@ == suffix@,
            off == tv@.len() - sv@.len(),
            tv@.len() <= usize::MAX,
            i <= sv@.len(),
            forall|j: int| 0 <= j < i ==> tv@[off + j] == sv@[j],
        decreases sv@.len() - i,
    {
        if tv[off + i] != sv[i] {
            assert(t@.subrange(off as int, t@.len() as int)[i as int] != suffix@[i as int]);
            return false;
        }
        i = i + 1;
    }
    assert(t@.subrange(off as int, t@.len() as int) =~= suffix@);
    true
}

/// The files of a listing whose names end with `.nix`, in order.
pub open spec fn nix_files(listing: Seq<Seq<char>>) -> Seq<Seq<char>>
    decreases listing.len(),
{
    if listing.len() == 0 {
        listing
    } else if ends_with(listing.last(), ".nix"@) {
        nix_files(listing.drop_last()).push(listing.last())
    } else {
        nix_files(listing.drop_last())
    }
}

impl FsData {
    /// An empty tree below `path`, without a channel.
    pub fn new(path: &str) -> (r: Self)
        ensures
            r.files@.len() == 0,
            r.path@ == path@,
            r.fsnodes@ == SFs::Dir(Seq::empty()),
            r.trans is None,
            r.time == 0,
            r.time_shown@ == "0.000s"@,
            !r.sort && !r.expand && !r.flatten,
    {
        let d = FsNodes::Dir(DirMap::new());
        FsData {
            files: Vec::new(),
            path: string_of(path),
            fsnodes: d,
            trans: None,
            time: 0,
            time_shown: string_of("0.000s"),
            sort: false,
            expand: false,
            flatten: false,
        }
    }

    /// An empty tree below `path` that reports its progress to `trans`.
    pub fn new_trans(path: &str, trans: Sender<ParseEvent>) -> (r: Self)
        ensures
            r.files@.len() == 0,
            r.path@ == path@,
            r.fsnodes@ == SFs::Dir(Seq::empty()),
            r.trans == Some(trans),
            r.time == 0,
            r.time_shown@ == "0.000s"@,
            !r.sort && !r.expand && !r.flatten,
    {
        let d = FsNodes::Dir(DirMap::new());
        FsData {
            files: Vec::new(),
            path: string_of(path),
            fsnodes: d,
            trans: Some(trans),
            time: 0,
            time_shown: string_of("0.000s"),
            sort: false,
            expand: false,
            flatten: false,
        }
    }

    pub fn set_sort(&mut self, sort: bool)
        ensures
            *final(self) == (FsData { sort, ..*old(self) }),
    {
        self.sort = sort;
    }

    pub fn set_expand(&mut self, expand: bool)
        ensures
            *final(self) == (FsData { expand, ..*old(self) }),
    {
        self.expand = expand;
    }

    pub fn set_flatten(&mut self, flatten: bool)
        ensures
            *final(self) == (FsData { flatten, ..*old(self) }),
    {
        self.flatten = flatten;
    }

    /// Takes the files to read from a listing of the files below the path:
    /// the path itself if it names a `.nix` file, else the listed files whose
    /// names end with `.nix`, in order.
    pub fn get_files(&mut self, listing: Vec<String>)
        ensures
            strings_model(final(self).files) == (if ends_with(old(self).path@, ".nix"@) {
                seq![old(self).path@]
            } else {
                nix_files(strings_model(listing))
            }),
            final(self).path == old(self).path,
            final(self).fsnodes == old(self).fsnodes,
            final(self).trans == old(self).trans,
            final(self).time == old(self).time,
            final(self).time_shown == old(self).time_shown,
            final(self).sort == old(self).sort,
            final(self).expand == old(self).expand,
            final(self).flatten == old(self).flatten,
    {
        report(&self.trans, ParseEvent::StartGettingFiles);
        let files = if !text_ends_with(self.path.as_str(), ".nix") {
            let ghost ls = strings_model(listing);
            let mut out: Vec<String> = Vec::new();
            let mut i: usize = 0;
            assert(ls.take(0) =~= Seq::<Seq<char>>::empty());
            assert(strings_model(out) =~= Seq::<Seq<char>>::empty());
            while i < listing.len()
                invariant
                    ls == strings_model(listing),
                    i <= listing@.len(),
                    strings_model(out) == nix_files(ls.take(i as int)),
                decreases listing@.len() - i,
            {
                assert(ls.take(i + 1).drop_last() =~= ls.take(i as int));
                assert(ls.take(i + 1).last() == listing@[i as int]@);
                if text_ends_with(listing[i].as_str(), ".nix") {
                    let ghost o = out;
                    out.push(listing[i].clone());
                    assert(strings_model(out) =~= strings_model(o).push(listing@[i as int]@));
                }
                i = i + 1;
            }
            assert(ls.take(i as int) =~= ls);
            out
        } else {
            let mut v: Vec<String> = Vec::new();
            v.push(self.path.clone());
            assert(strings_model(v) =~= seq![self.path@]);
            v
        };
        report(&self.trans, ParseEvent::EndGettingFiles);
        self.files = files;
    }

    /// Builds the tree from the files, given the content of each (see
    /// `gen_upto`); stops at the first failure.
    pub fn gen_tree(&mut self, contents: &Vec<String>) -> (r: Result<(), String>)
        requires
            contents@.len() == old(self).files@.len(),
        ensures
            ({
                let (t, o) = gen_upto(
                    old(self).fsnodes@,
                    strings_model(old(self).files),
                    strings_model(*contents),
                    old(self).path@,
                    old(self).expand,
                    old(self).flatten,
                    old(self).sort,
                    old(self).files@.len() as int,
                );
                &&& final(self).fsnodes@ == t
                &&& (r is Ok <==> o == 0)
                &&& (o == 1 ==> r == Err::<(), String>(r->Err_0) && r->Err_0@ == folder_in_file_msg())
                &&& (o == 2 ==> r == Err::<(), String>(r->Err_0) && parse_failure_msg(r->Err_0@))
            }),
            final(self).files == old(self).files,
            final(self).path == old(self).path,
            final(self).trans == old(self).trans,
            final(self).time == old(self).time,
            final(self).time_shown == old(self).time_shown,
            final(self).sort == old(self).sort,
            final(self).expand == old(self).expand,
            final(self).flatten == old(self).flatten,
    {
        report(&self.trans, ParseEvent::StartGen);
        let ghost fs = strings_model(self.files);
        let ghost cs = strings_model(*contents);
        let ghost t0 = self.fsnodes@;
        let n = self.files.len();
        let mut i: usize = 0;
        while i < n
            invariant
                n == self.files@.len(),
                fs == strings_model(self.files),
                cs == strings_model(*contents),
                contents@.len() == n,
                i <= n,
                self.files == old(self).files,
                self.path == old(self).path,
                self.trans == old(self).trans,
                self.time == old(self).time,
                self.time_shown == old(self).time_shown,
                self.sort == old(self).sort,
                self.expand == old(self).expand,
                self.flatten == old(self).flatten,
                t0 == old(self).fsnodes@,
                gen_upto(
                    t0,
                    fs,
                    cs,
                    self.path@,
                    self.expand,
                    self.flatten,
                    self.sort,
                    i as int,
                ) == (self.fsnodes@, 0int),
            decreases n - i,
        {
            let rel = strip_base_of(self.files[i].as_str(), self.path.as_str());
            let clean = trim_start_slashes(rel.as_str());
            let parts = split_at_slashes(clean.as_str());
            assert(strings_model(parts).skip(0) =~= strings_model(parts));
            assert(fs[i as int] == self.files@[i as int]@);
            assert(cs[i as int] == contents@[i as int]@);
            let mut node = FsNodes::Dir(DirMap::new());
            std::mem::swap(&mut node, &mut self.fsnodes);
            let (t2, code, msg) = place_node(
                node,
                &parts,
                0,
                contents[i].as_str(),
                &self.files[i],
                &clean,
                &self.trans,
                self.expand,
                self.flatten,
                self.sort,
            );
            self.fsnodes = t2;
            assert(gen_upto(
                t0,
                fs,
                cs,
                self.path@,
                self.expand,
                self.flatten,
                self.sort,
                i + 1,
            ) == (self.fsnodes@, code as int));
            if code != 0 {
                proof {
                    lemma_gen_upto_stops(
                        t0,
                        fs,
                        cs,
                        self.path@,
                        self.expand,
                        self.flatten,
                        self.sort,
                        i + 1,
                        n as int,
                    );
                }
                return Err(msg);
            }
            i = i + 1;
        }
        report(&self.trans, ParseEvent::EndGen);
        Ok(())
    }

    /// Ends a load that took `nanos` nanoseconds: keeps the time and reports
    /// the load as finished after the time shown as `shown`.
    pub fn finish_load(&mut self, nanos: u64, shown: String)
        ensures
            final(self).time == nanos,
            final(self).time_shown@ == shown@,
            final(self).files == old(self).files,
            final(self).path == old(self).path,
            final(self).fsnodes == old(self).fsnodes,
            final(self).trans == old(self).trans,
            final(self).sort == old(self).sort,
            final(self).expand == old(self).expand,
            final(self).flatten == old(self).flatten,
    {
        self.time = nanos;
        self.time_shown = shown.clone();
        report(&self.trans, ParseEvent::Finished(shown));
    }

    /// The loading time as it is shown, such as `0.052s`.
    pub fn get_time(&self) -> (r: String)
        ensures
            r@ == self.time_shown@,
    {
        self.time_shown.clone()
    }
}

/// The parts of the path `name` below the root of the tree, for finding and
/// deleting files.
pub open spec fn name_parts(name: Seq<char>) -> Seq<Seq<char>> {
    split_slash(trim_slashes(name))
}

/// `after` differs from `before` only in its tree of nodes.
pub open spec fn same_but_nodes(after: FsData, before: FsData) -> bool {
    &&& after.files == before.files
    &&& after.path == before.path
    &&& after.trans == before.trans
    &&& after.time == before.time
    &&& after.time_shown == before.time_shown
    &&& after.sort == before.sort
    &&& after.expand == before.expand
    &&& after.flatten == before.flatten
}

/// What storing a file named `name` with an input of meaning `val` gives:
/// whether it succeeds and the tree afterwards. An input that fails leaves
/// everything as it was; nothing stands for an empty attribute set.
pub open spec fn generate_outcome(before: SFs, base: Seq<char>, name: Seq<char>, val: Option<Option<SNix>>) -> (
    bool,
    SFs,
) {
    match val {
        None => (false, before),
        Some(o) => {
            let ast = match o {
                Some(v) => v,
                None => SNix::AttrSet(Seq::empty()),
            };
            let parts = gen_parts(base, name);
            match fs_put(before, parts, SFs::File(parts.last(), ast)) {
                Some(t) => (true, t),
                None => (false, before),
            }
        },
    }
}

/// Adding files to the tree.
pub trait Modify: Sized {
    /// `self` is what storing a file named `name` with an input of meaning
    /// `val` into `before` leaves, and `ok` whether that succeeds.
    spec fn generated(&self, before: Self, name: Seq<char>, val: Option<Option<SNix>>, ok: bool) -> bool;

    /// Stores a file named `name` below the tree's path, with the expression
    /// that `input` gives (an empty attribute set for nothing); the folders
    /// on the way are created.
    fn generate_file<I: IntoNixValue>(&mut self, name: &str, input: I) -> (r: Result<(), String>)
        ensures
            final(self).generated(*old(self), name@, input.nix_meaning(), r is Ok),
    ;
}

impl Modify for FsData {
    open spec fn generated(&self, before: Self, name: Seq<char>, val: Option<Option<SNix>>, ok: bool) -> bool {
        &&& same_but_nodes(*self, before)
        &&& generate_outcome(before.fsnodes@, before.path@, name, val) == (ok, self.fsnodes@)
    }

    fn generate_file<I: IntoNixValue>(&mut self, name: &str, input: I) -> (r: Result<(), String>) {
        let ghost meaning = input.nix_meaning();
        let trimmed = trim_start_slashes(name);
        let full = join_paths(self.path.as_str(), trimmed.as_str());
        let clean = trim_start_slashes(full.as_str());
        let parts = split_at_slashes(clean.as_str());
        let ast = match input.into_nix() {
            Ok(Some(v)) => v,
            Ok(None) => {
                let e = NixValue::AttrSet(AttrMap::new());
                assert(e@ == SNix::AttrSet(Seq::empty()));
                e
            },
            Err(e) => {
                return Err(e);
            },
        };
        let file_name = parts[parts.len() - 1].clone();
        assert(strings_model(parts).last() == file_name@);
        let leaf = FsNodes::File { name: file_name, ast };
        let mut node = FsNodes::Dir(DirMap::new());
        std::mem::swap(&mut node, &mut self.fsnodes);
        assert(strings_model(parts).skip(0) =~= strings_model(parts));
        let (t, ok) = put_node(node, &parts, 0, leaf);
        self.fsnodes = t;
        if ok {
            Ok(())
        } else {
            Err(string_of("Fehler: Versucht einen Ordner in einer Datei zu erstellen"))
        }
    }
}

/// Finding files in the tree.
pub trait Search: Sized {
    /// What looking up the path `name` finds: an expression or an error
    /// message.
    spec fn found(&self, name: Seq<char>) -> Result<SNix, Seq<char>>;

    /// `self` is `before` with the expression of the file at the path `name`
    /// replaced by `v`.
    spec fn put_at(&self, before: Self, name: Seq<char>, v: SNix) -> bool;

    /// `self` holds what `before` holds.
    spec fn same_as(&self, before: Self) -> bool;

    /// The expression of the file at the path `name` (see `fs_find`), to
    /// change in place: what it is changed to is what the file then holds.
    fn search_tree<'a>(&'a mut self, name: &str) -> (r: Result<&'a mut NixValue, String>)
        ensures
            r matches Ok(v) ==> old(self).found(name@) == Ok::<SNix, Seq<char>>(v@)
                && final(self).put_at(*old(self), name@, final(v)@),
            r matches Err(e) ==> old(self).found(name@) == Err::<SNix, Seq<char>>(e@)
                && final(self).same_as(*old(self)),
    ;
}

impl Search for FsData {
    open spec fn found(&self, name: Seq<char>) -> Result<SNix, Seq<char>> {
        fs_find(self.fsnodes@, name_parts(name))
    }

    open spec fn put_at(&self, before: Self, name: Seq<char>, v: SNix) -> bool {
        same_but_nodes(*self, before) && self.fsnodes@ == fs_set_ast(
            before.fsnodes@,
            name_parts(name),
            v,
        )
    }

    open spec fn same_as(&self, before: Self) -> bool {
        same_but_nodes(*self, before) && self.fsnodes@ == before.fsnodes@
    }

    fn search_tree<'a>(&'a mut self, name: &str) -> (r: Result<&'a mut NixValue, String>) {
        let clean = trim_start_slashes(name);
        let parts = split_at_slashes(clean.as_str());
        assert(strings_model(parts).skip(0) =~= strings_model(parts));
        find_node_mut(&mut self.fsnodes, &parts, 0)
    }
}

/// Deleting files from the tree.
pub trait Delete: Sized {
    /// `self` is what deleting the path `name` from `before` leaves, and
    /// `res` the outcome with its error message.
    spec fn deleted(&self, before: Self, name: Seq<char>, res: Result<(), Seq<char>>) -> bool;

    /// Deletes the file at the path `name` (see `fs_delete`).
    fn delete_file(&mut self, name: &str) -> (r: Result<(), String>)
        ensures
            final(self).deleted(
                *old(self),
                name@,
                match r {
                    Ok(_) => Ok(()),
                    Err(e) => Err(e@),
                },
            ),
    ;
}

impl Delete for FsData {
    open spec fn deleted(&self, before: Self, name: Seq<char>, res: Result<(), Seq<char>>) -> bool {
        &&& same_but_nodes(*self, before)
        &&& match fs_delete(before.fsnodes@, name_parts(name)) {
            Ok(t) => res is Ok && self.fsnodes@ == t,
            Err(e) => res == Err::<(), Seq<char>>(e) && self.fsnodes@ == before.fsnodes@,
        }
    }

    fn delete_file(&mut self, name: &str) -> (r: Result<(), String>) {
        let clean = trim_start_slashes(name);
        let parts = split_at_slashes(clean.as_str());
        assert(strings_model(parts).skip(0) =~= strings_model(parts));
        let mut node = FsNodes::Dir(DirMap::new());
        std::mem::swap(&mut node, &mut self.fsnodes);
        let (t, res) = delete_node(node, &parts, 0);
        self.fsnodes = t;
        res
    }
}

// ---------------------------------------------------------------------------
// Laws of the tree
// ---------------------------------------------------------------------------

/// Every node met on the way to the last part of `parts` is a folder or
/// missing.
pub open spec fn path_open(node: SFs, parts: Seq<Seq<char>>) -> bool
    decreases parts.len(),
{
    match node {
        SFs::Dir(m) => parts.len() <= 1 || match map_get(m, parts[0]) {
            Some(c) => path_open(c, parts.drop_first()),
            None => true,
        },
        SFs::File(_, _) => false,
    }
}

/// Storing a file where no file blocks the way succeeds, and the stored
/// expression is found again under the same parts, and can be deleted.
pub proof fn lemma_put_then_find(node: SFs, parts: Seq<Seq<char>>, name: Seq<char>, v: SNix)
    requires
        parts.len() >= 1,
        path_open(node, parts),
    ensures
        fs_put(node, parts, SFs::File(name, v)) is Some,
        fs_find(fs_put(node, parts, SFs::File(name, v))->Some_0, parts) == Ok::<SNix, Seq<char>>(v),
        fs_delete(fs_put(node, parts, SFs::File(name, v))->Some_0, parts) is Ok,
    decreases parts.len(),
{
    let leaf = SFs::File(name, v);
    if let SFs::Dir(m) = node {
        if parts.len() == 1 {
            lemma_map_get_insert(m, parts[0], leaf);
        } else {
            let child = match map_get(m, parts[0]) {
                Some(c) => c,
                None => SFs::Dir(Seq::empty()),
            };
            let rest = parts.drop_first();
            lemma_put_then_find(child, rest, name, v);
            let c2 = fs_put(child, rest, leaf)->Some_0;
            lemma_map_get_insert(m, parts[0], c2);
        }
    }
}

/// What is written through the expression that `search_tree` hands out is
/// what looking up the same path finds afterwards.
pub proof fn lemma_change_then_find(node: SFs, parts: Seq<Seq<char>>, v: SNix)
    requires
        fs_find(node, parts) is Ok,
    ensures
        fs_find(fs_set_ast(node, parts, v), parts) == Ok::<SNix, Seq<char>>(v),
    decreases parts.len(),
{
    if let SFs::Dir(m) = node {
        let k = if parts.len() >= 1 {
            parts[0]
        } else {
            Seq::empty()
        };
        lemma_key_index(m, k);
        if let Some(i) = key_index(m, k) {
            if parts.len() <= 1 {
                if let SFs::File(n, _) = m[i].1 {
                    let m2 = m.update(i, (m[i].0, SFs::File(n, v)));
                    lemma_key_index_same_keys(m, m2, k);
                }
            } else {
                let rest = parts.drop_first();
                lemma_change_then_find(m[i].1, rest, v);
                let m2 = m.update(i, (m[i].0, fs_set_ast(m[i].1, rest, v)));
                lemma_key_index_same_keys(m, m2, k);
            }
        }
    }
}

/// After a value is written through the expression that `search_tree` found
/// at the path `name`, looking up `name` finds that value.
pub proof fn lemma_search_change_then_search(before: FsData, after: FsData, name: Seq<char>, w: SNix)
    requires
        before.found(name) is Ok,
        after.put_at(before, name, w),
    ensures
        after.found(name) == Ok::<SNix, Seq<char>>(w),
{
    lemma_change_then_find(before.fsnodes@, name_parts(name), w);
}

/// A file stored by `generate_file`, where no file blocks the way, is found
/// by `search_tree` under the tree's path joined with its name, and
/// `delete_file` can delete it there.
pub proof fn lemma_generate_then_search(
    before: FsData,
    after: FsData,
    name: Seq<char>,
    val: Option<SNix>,
)
    requires
        after.generated(before, name, Some(val), true),
        path_open(before.fsnodes@, gen_parts(before.path@, name)),
    ensures
        after.found(join_path(before.path@, trim_slashes(name))) == Ok::<SNix, Seq<char>>(
            match val {
                Some(v) => v,
                None => SNix::AttrSet(Seq::empty()),
            },
        ),
        fs_delete(after.fsnodes@, name_parts(join_path(before.path@, trim_slashes(name)))) is Ok,
{
    let parts = gen_parts(before.path@, name);
    lemma_split_slash_from_len(trim_slashes(join_path(before.path@, trim_slashes(name))), 0, Seq::empty(), Seq::empty());
    let ast = match val {
        Some(v) => v,
        None => SNix::AttrSet(Seq::empty()),
    };
    lemma_put_then_find(before.fsnodes@, parts, parts.last(), ast);
}

/// Restructuring every file of a tree by sorting, or by flattening, a second
/// time changes nothing.
pub proof fn lemma_fs_reorder_idempotent(n: SFs, mode: ReOderMode)
    requires
        mode != ReOderMode::Expand,
    ensures
        fs_reorder(fs_reorder(n, mode), mode) == fs_reorder(n, mode),
    decreases n,
{
    match n {
        SFs::File(name, a) => {
            if mode == ReOderMode::Sort {
                lemma_sort_tree_idempotent(a);
            } else {
                lemma_flat_idempotent(a);
            }
        },
        SFs::Dir(m) => {
            let r1 = reorder_entries(m, mode);
            let r2 = reorder_entries(r1, mode);
            assert forall|i: int| 0 <= i < m.len() implies #[trigger] r2[i] == r1[i] by {
                assert(decreases_to!(m => m[i]));
                lemma_fs_reorder_idempotent(m[i].1, mode);
            }
            assert(r2 =~= r1);
        },
    }
}


} // verus!
