//! The command line: the commands, and the text that `show` and `format`
//! print for a loaded tree.
use vstd::prelude::*;
use crate::vfs::FsData;
use crate::write::{WritePlan, SStep, write_plan, steps_model};
use crate::value::strings_model;
use crate::text::append_str;

verus! {

/// The command line: one command.
#[derive(Debug)]
pub struct Cli {
    pub command: Commands,
}

/// `show` parses the files below a path; `format` also writes them back
/// formatted. `animation` shows the progress display, `output` prints the
/// tree, `time` prints the loading time, `debug` keeps every closed step in
/// the progress display.
#[derive(Debug)]
pub enum Commands {
    Show { path: String, animation: bool, output: bool, time: bool, debug: bool },
    Format { path: String, animation: bool, output: bool, time: bool, debug: bool },
}

/// The lines a command prints: the tree's text if `output`, then the time if
/// `time`.
pub open spec fn report_text(tree: Seq<char>, output: bool, time: Seq<char>, show_time: bool) -> Seq<char> {
    (if output {
        tree + "\n"@
    } else {
        Seq::empty()
    }) + (if show_time {
        "Time: "@ + time + "\n"@
    } else {
        Seq::empty()
    })
}

/// What `show` prints for the loaded tree `data`, given the text in which
/// the program shows the tree: the tree if `output`, then the loading time
/// if `time`.
pub fn prolyxena_parse(data: &FsData, tree: &str, output: bool, time: bool) -> (r: String)
    ensures
        r@ == report_text(tree@, output, data.time_shown@, time),
{
    let mut out = String::new();
    if output {
        append_str(&mut out, tree);
        append_str(&mut out, "\n");
    }
    if time {
        let t = data.get_time();
        append_str(&mut out, "Time: ");
        append_str(&mut out, t.as_str());
        append_str(&mut out, "\n");
    }
    out
}

/// What `format` does with a loaded tree: the plan for writing it back (see
/// `walk_tree`), and what it prints (see `prolyxena_parse`).
pub fn prolyxena_format(data: &FsData, tree: &str, output: bool, time: bool) -> (r: (
    Result<WritePlan, String>,
    String,
))
    ensures
        r.1@ == report_text(tree@, output, data.time_shown@, time),
        match r.0 {
            Ok(p) => write_plan(data.fsnodes@, data.path@, strings_model(data.files))
                == Ok::<(Seq<SStep>, Seq<Seq<char>>), Seq<char>>(
                (steps_model(p.steps@), strings_model(p.stale)),
            ),
            Err(e) => write_plan(data.fsnodes@, data.path@, strings_model(data.files))
                == Err::<(Seq<SStep>, Seq<Seq<char>>), Seq<char>>(e@),
        },
{
    let plan = data.walk_tree();
    let text = prolyxena_parse(data, tree, output, time);
    (plan, text)
}

} // verus!
