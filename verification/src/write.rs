//! Writing a tree back: which folders to create and which files to write, in
//! order, with each file's formatted text, and which of the files that were
//! read are not written again.
use vstd::prelude::*;
use crate::vfs::{
    FsData, FsNodes, DirMap, SFs, join_path, join_paths, ends_with, text_ends_with, gen_upto,
    split_slash, rel_path, strip_base,
};
use crate::grammar::p_value;
use crate::sort::sort_tree;
use crate::value::{map_insert, key_index};
use crate::format::{fmt, fits, fits_at, all_true, format_value};
use crate::value::strings_model;
use crate::text::{string_of, str_eq};

verus! {

/// One thing to do on disk: create a folder (with its parents), or write a
/// file's text.
#[derive(Debug, PartialEq)]
pub enum WriteStep {
    MakeDir(String),
    WriteFile(String, String),
}

/// Model of a step.
pub enum SStep {
    MakeDir(Seq<char>),
    WriteFile(Seq<char>, Seq<char>),
}

pub open spec fn step_model(s: WriteStep) -> SStep {
    match s {
        WriteStep::MakeDir(p) => SStep::MakeDir(p@),
        WriteStep::WriteFile(p, t) => SStep::WriteFile(p@, t@),
    }
}

pub open spec fn steps_model(v: Seq<WriteStep>) -> Seq<SStep> {
    Seq::new(v.len(), |i: int| step_model(v[i]))
}

/// What writing a tree back does: the steps in order, and the files that
/// were read and are not written again, to be deleted once every step has
/// succeeded.
#[derive(Debug)]
pub struct WritePlan {
    pub steps: Vec<WriteStep>,
    pub stale: Vec<String>,
}

// ---------------------------------------------------------------------------
// The plan as a function of the tree
// ---------------------------------------------------------------------------

/// Every file of the tree can be formatted (see `fits`).
pub open spec fn fs_fits(n: SFs) -> bool
    decreases n, 1int,
{
    match n {
        SFs::File(_, a) => fits(a, 0),
        SFs::Dir(m) => all_true(entries_fit_fs(m)),
    }
}

pub open spec fn entries_fit_fs(m: Seq<(Seq<char>, SFs)>) -> Seq<bool>
    decreases m, 0int,
{
    Seq::new(m.len(), |i: int| if 0 <= i < m.len() { fs_fits(m[i].1) } else { true })
}

/// The steps that write the node `n` to `path`: a file's formatted text, or
/// the folder followed by each entry, below it, in order.
pub open spec fn node_steps(n: SFs, path: Seq<char>) -> Seq<SStep>
    decreases n, 1int,
{
    match n {
        SFs::File(_, a) => seq![SStep::WriteFile(path, fmt(a, 0))],
        SFs::Dir(m) => seq![SStep::MakeDir(path)] + entries_steps(m, path).flatten(),
    }
}

pub open spec fn entries_steps(m: Seq<(Seq<char>, SFs)>, path: Seq<char>) -> Seq<Seq<SStep>>
    decreases m, 0int,
{
    Seq::new(
        m.len(),
        |i: int|
            if 0 <= i < m.len() {
                node_steps(m[i].1, join_path(path, m[i].0))
            } else {
                Seq::empty()
            },
    )
}

/// The paths of the files that the steps write, in order.
pub open spec fn written_paths(steps: Seq<SStep>) -> Seq<Seq<char>>
    decreases steps.len(),
{
    if steps.len() == 0 {
        Seq::empty()
    } else {
        written_paths(steps.drop_last()) + match steps.last() {
            SStep::WriteFile(p, _) => seq![p],
            SStep::MakeDir(_) => Seq::empty(),
        }
    }
}

/// The files, in order, that are not among `written`.
pub open spec fn stale_files(files: Seq<Seq<char>>, written: Seq<Seq<char>>) -> Seq<Seq<char>>
    decreases files.len(),
{
    if files.len() == 0 {
        Seq::empty()
    } else {
        stale_files(files.drop_last(), written) + if written.contains(files.last()) {
            Seq::empty()
        } else {
            seq![files.last()]
        }
    }
}

/// The message when a single file's tree holds no file first.
pub open spec fn single_missing_msg() -> Seq<char> {
    "Konnte die einzelne Datei nicht im AST finden"@
}

/// The message when a file is nested too deeply to be formatted.
pub open spec fn too_deep_msg() -> Seq<char> {
    "Zu tief verschachtelt zum Formatieren"@
}

/// What writing the tree `n`, read from `path` (the files `files`), does.
/// For a path naming a `.nix` file, the first entry of the tree is written to
/// the path itself, and nothing is deleted. Otherwise the whole tree is
/// written below the path, and the files read but not written are stale.
pub open spec fn write_plan(n: SFs, path: Seq<char>, files: Seq<Seq<char>>) -> Result<
    (Seq<SStep>, Seq<Seq<char>>),
    Seq<char>,
> {
    if ends_with(path, ".nix"@) {
        match n {
            SFs::Dir(m) => if m.len() > 0 && m[0].1 is File {
                let a = m[0].1->File_1;
                if fits(a, 0) {
                    Ok((seq![SStep::WriteFile(path, fmt(a, 0))], Seq::empty()))
                } else {
                    Err(too_deep_msg())
                }
            } else {
                Err(single_missing_msg())
            },
            SFs::File(_, _) => Err(single_missing_msg()),
        }
    } else if fs_fits(n) {
        let steps = node_steps(n, path);
        Ok((steps, stale_files(files, written_paths(steps))))
    } else {
        Err(too_deep_msg())
    }
}

// ---------------------------------------------------------------------------
// Computing the plan
// ---------------------------------------------------------------------------

/// Whether every file of the tree can be formatted.
fn fs_fits_at(n: &FsNodes) -> (r: bool)
    ensures
        r == fs_fits(n@),
    decreases n, 1int,
{
    match n {
        FsNodes::File { name: _, ast } => fits_at(ast, 0),
        FsNodes::Dir(d) => {
            proof {
                assert(decreases_to!(*n => *d));
            }
            entries_fit_at(d)
        },
    }
}

fn entries_fit_at(d: &DirMap) -> (r: bool)
    ensures
        r == all_true(entries_fit_fs(d@)),
    decreases d, 0int,
{
    let ghost dd = d@;
    let mut i: usize = 0;
    while i < d.entries.len()
        invariant
            dd == d@,
            dd.len() == d.entries@.len(),
            i <= d.entries@.len(),
            forall|j: int| 0 <= j < i ==> #[trigger] entries_fit_fs(dd)[j],
        decreases d.entries@.len() - i,
    {
        proof {
            assert(decreases_to!(*d => d.entries));
            assert(decreases_to!(d.entries => d.entries@));
            assert(decreases_to!(d.entries@ => d.entries@[i as int]));
            assert(decreases_to!(d.entries@[i as int] => d.entries@[i as int].1));
            assert(dd[i as int].1 == d.entries@[i as int].1@);
        }
        if !fs_fits_at(&d.entries[i].1) {
            assert(!entries_fit_fs(dd)[i as int]);
            return false;
        }
        i = i + 1;
    }
    true
}

/// Appends the steps that write `node` to `path` (see `node_steps`).
pub fn write_node(node: &FsNodes, path: &str, steps: &mut Vec<WriteStep>)
    requires
        fs_fits(node@),
    ensures
        steps_model(final(steps)@) == steps_model(old(steps)@) + node_steps(node@, path@),
    decreases node, 1int,
{
    match node {
        FsNodes::File { name: _, ast } => {
            let ghost s0 = steps@;
            let text = format_value(ast, 0);
            steps.push(WriteStep::WriteFile(string_of(path), text));
            assert(steps_model(steps@) =~= steps_model(s0) + node_steps(node@, path@));
        },
        FsNodes::Dir(d) => {
            proof {
                assert(decreases_to!(*node => *d));
            }
            let ghost s0 = steps@;
            steps.push(WriteStep::MakeDir(string_of(path)));
            assert(steps_model(steps@) =~= steps_model(s0) + seq![SStep::MakeDir(path@)]);
            write_entries(d, path, steps);
            assert(steps_model(steps@) =~= steps_model(s0) + node_steps(node@, path@));
        },
    }
}

/// Appends the steps that write each entry of `d` below `path`.
fn write_entries(d: &DirMap, path: &str, steps: &mut Vec<WriteStep>)
    requires
        all_true(entries_fit_fs(d@)),
    ensures
        steps_model(final(steps)@) == steps_model(old(steps)@) + entries_steps(d@, path@).flatten(),
    decreases d, 0int,
{
    let ghost dd = d@;
    let ghost es = entries_steps(dd, path@);
    let ghost s0 = steps_model(steps@);
    let mut i: usize = 0;
    assert(es.take(0) =~= Seq::<Seq<SStep>>::empty());
    assert(steps_model(steps@) =~= s0 + es.take(0).flatten());
    while i < d.entries.len()
        invariant
            dd == d@,
            es == entries_steps(dd, path@),
            dd.len() == d.entries@.len(),
            all_true(entries_fit_fs(dd)),
            i <= d.entries@.len(),
            steps_model(steps@) == s0 + es.take(i as int).flatten(),
        decreases d.entries@.len() - i,
    {
        proof {
            assert(decreases_to!(*d => d.entries));
            assert(decreases_to!(d.entries => d.entries@));
            assert(decreases_to!(d.entries@ => d.entries@[i as int]));
            assert(decreases_to!(d.entries@[i as int] => d.entries@[i as int].1));
            assert(dd[i as int] == (d.entries@[i as int].0@, d.entries@[i as int].1@));
            assert(entries_fit_fs(dd)[i as int]);
        }
        let next = join_paths(path, d.entries[i].0.as_str());
        let ghost before = steps_model(steps@);
        write_node(&d.entries[i].1, next.as_str(), steps);
        proof {
            assert(es[i as int] == node_steps(dd[i as int].1, join_path(path@, dd[i as int].0)));
            assert(es.take(i + 1) =~= es.take(i as int).push(es[i as int]));
            es.take(i as int).lemma_flatten_push(es[i as int]);
        }
        i = i + 1;
    }
    assert(es.take(i as int) =~= es);
}

/// The paths of the files that the steps write.
fn written_of(steps: &Vec<WriteStep>) -> (r: Vec<String>)
    ensures
        strings_model(r) == written_paths(steps_model(steps@)),
{
    let ghost sm = steps_model(steps@);
    let mut out: Vec<String> = Vec::new();
    let mut i: usize = 0;
    assert(sm.take(0) =~= Seq::<SStep>::empty());
    assert(strings_model(out) =~= Seq::<Seq<char>>::empty());
    while i < steps.len()
        invariant
            sm == steps_model(steps@),
            i <= steps@.len(),
            strings_model(out) == written_paths(sm.take(i as int)),
        decreases steps@.len() - i,
    {
        assert(sm.take(i + 1).drop_last() =~= sm.take(i as int));
        assert(sm.take(i + 1).last() == step_model(steps@[i as int]));
        match &steps[i] {
            WriteStep::WriteFile(p, _) => {
                let ghost o = out;
                out.push(p.clone());
                assert(strings_model(out) =~= strings_model(o).push(p@));
            },
            WriteStep::MakeDir(_) => {},
        }
        i = i + 1;
    }
    assert(sm.take(i as int) =~= sm);
    out
}

/// Whether `v` holds `s`.
fn contains_text(v: &Vec<String>, s: &str) -> (r: bool)
    ensures
        r == strings_model(*v).contains(s@),
{
    let ghost sv = strings_model(*v);
    let mut i: usize = 0;
    while i < v.len()
        invariant
            sv == strings_model(*v),
            i <= v@.len(),
            forall|j: int| 0 <= j < i ==> sv[j] != s@,
        decreases v@.len() - i,
    {
        if str_eq(v[i].as_str(), s) {
            assert(sv[i as int] == s@);
            return true;
        }
        i = i + 1;
    }
    false
}

/// The files, in order, that are not among `written`.
fn stale_of(files: &Vec<String>, written: &Vec<String>) -> (r: Vec<String>)
    ensures
        strings_model(r) == stale_files(strings_model(*files), strings_model(*written)),
{
    let ghost fs = strings_model(*files);
    let ghost ws = strings_model(*written);
    let mut out: Vec<String> = Vec::new();
    let mut i: usize = 0;
    assert(fs.take(0) =~= Seq::<Seq<char>>::empty());
    assert(strings_model(out) =~= Seq::<Seq<char>>::empty());
    while i < files.len()
        invariant
            fs == strings_model(*files),
            ws == strings_model(*written),
            i <= files@.len(),
            strings_model(out) == stale_files(fs.take(i as int), ws),
        decreases files@.len() - i,
    {
        assert(fs.take(i + 1).drop_last() =~= fs.take(i as int));
        assert(fs.take(i + 1).last() == files@[i as int]@);
        if !contains_text(written, files[i].as_str()) {
            let ghost o = out;
            out.push(files[i].clone());
            assert(strings_model(out) =~= strings_model(o).push(files@[i as int]@));
        }
        i = i + 1;
    }
    assert(fs.take(i as int) =~= fs);
    out
}

impl FsData {
    /// What writing the tree back does (see `write_plan`).
    pub fn walk_tree(&self) -> (r: Result<WritePlan, String>)
        ensures
            match r {
                Ok(p) => write_plan(self.fsnodes@, self.path@, strings_model(self.files)) == Ok::<
                    (Seq<SStep>, Seq<Seq<char>>),
                    Seq<char>,
                >((steps_model(p.steps@), strings_model(p.stale))),
                Err(e) => write_plan(self.fsnodes@, self.path@, strings_model(self.files)) == Err::<
                    (Seq<SStep>, Seq<Seq<char>>),
                    Seq<char>,
                >(e@),
            },
    {
        if text_ends_with(self.path.as_str(), ".nix") {
            if let FsNodes::Dir(map) = &self.fsnodes {
                if map.entries.len() > 0 {
                    if let FsNodes::File { name: _, ast } = &map.entries[0].1 {
                        assert(map@[0].1 == map.entries@[0].1@);
                        if !fits_at(ast, 0) {
                            return Err(string_of("Zu tief verschachtelt zum Formatieren"));
                        }
                        let content = format_value(ast, 0);
                        let mut steps: Vec<WriteStep> = Vec::new();
                        steps.push(WriteStep::WriteFile(self.path.clone(), content));
                        let plan = WritePlan { steps, stale: Vec::new() };
                        assert(steps_model(plan.steps@) =~= seq![
                            SStep::WriteFile(self.path@, fmt(ast@, 0)),
                        ]);
                        assert(strings_model(plan.stale) =~= Seq::<Seq<char>>::empty());
                        return Ok(plan);
                    } else {
                        assert(map@[0].1 == map.entries@[0].1@);
                    }
                }
            }
            return Err(string_of("Konnte die einzelne Datei nicht im AST finden"));
        }
        if !fs_fits_at(&self.fsnodes) {
            return Err(string_of("Zu tief verschachtelt zum Formatieren"));
        }
        let mut steps: Vec<WriteStep> = Vec::new();
        assert(steps_model(steps@) =~= Seq::<SStep>::empty());
        write_node(&self.fsnodes, self.path.as_str(), &mut steps);
        assert(steps_model(steps@) =~= node_steps(self.fsnodes@, self.path@));
        let written = written_of(&steps);
        let stale = stale_of(&self.files, &written);
        Ok(WritePlan { steps, stale })
    }
}

/// Formatting one `.nix` file, as `format` does, writes back its parsed
/// content, sorted and formatted from depth zero, and nothing else; where
/// the content does not parse, building the tree fails (and nothing is
/// written).
pub proof fn lemma_format_single_file(path: Seq<char>, content: Seq<char>)
    requires
        ends_with(path, ".nix"@),
    ensures
        ({
            let (t, o) = gen_upto(
                SFs::Dir(Seq::empty()),
                seq![path],
                seq![content],
                path,
                false,
                false,
                true,
                1,
            );
            match p_value(content, 0).0 {
                Some(v) => o == 0 && (fits(sort_tree(v), 0) ==> write_plan(t, path, seq![path])
                    == Ok::<(Seq<SStep>, Seq<Seq<char>>), Seq<char>>(
                    (seq![SStep::WriteFile(path, fmt(sort_tree(v), 0))], Seq::empty()),
                )),
                None => o != 0,
            }
        }),
{
    assert(path.subrange(0, path.len() as int) =~= path);
    assert(strip_base(path, path) =~= Seq::<char>::empty());
    assert(rel_path(path, path) == Seq::<char>::empty());
    assert(split_slash(Seq::<char>::empty()) =~= seq![Seq::<char>::empty()]);
    let (t0, o0) = gen_upto(SFs::Dir(Seq::empty()), seq![path], seq![content], path, false, false, true, 0);
    assert(t0 == SFs::Dir(Seq::<(Seq<char>, SFs)>::empty()) && o0 == 0);
    if let Some(v) = p_value(content, 0).0 {
        let a = sort_tree(v);
        let m = map_insert(Seq::<(Seq<char>, SFs)>::empty(), Seq::<char>::empty(), SFs::File(Seq::empty(), a));
        assert(key_index(Seq::<(Seq<char>, SFs)>::empty(), Seq::<char>::empty()) is None);
        assert(m =~= seq![(Seq::<char>::empty(), SFs::File(Seq::empty(), a))]);
    }
}

} // verus!
