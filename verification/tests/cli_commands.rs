use clap::{Arg, ArgAction, Command};
use prolyxena::commands::{prolyxena_format, prolyxena_parse, Cli, Commands};
use prolyxena::value::NixValue;
use prolyxena::vfs::{FsData, Modify};
use prolyxena::write::WriteStep;

/// The command line of the program, built with clap's builder: `show` and
/// `format`, each with a path and the flags `-a`, `-o`, `-t`, `-d`.
fn cli_command() -> Command {
    let sub = |name: &'static str| {
        Command::new(name)
            .arg(Arg::new("path").required(true))
            .arg(
                Arg::new("animation")
                    .short('a')
                    .long("animation")
                    .action(ArgAction::SetTrue)
                    .conflicts_with("output"),
            )
            .arg(
                Arg::new("output")
                    .short('o')
                    .long("output")
                    .action(ArgAction::SetTrue)
                    .conflicts_with("animation"),
            )
            .arg(
                Arg::new("time")
                    .short('t')
                    .long("time")
                    .action(ArgAction::SetTrue)
                    .conflicts_with("animation"),
            )
            .arg(Arg::new("debug").short('d').long("debug").action(ArgAction::SetTrue))
    };
    Command::new("Prolyxena")
        .about("Nix & NixOS Configuration Engine to parse & generate Nix Configurations")
        .subcommand_required(true)
        .subcommand(sub("show"))
        .subcommand(sub("format"))
}

fn parse_args(args: &[&str]) -> Cli {
    let matches = cli_command().try_get_matches_from(args).unwrap();
    let (name, sub) = matches.subcommand().unwrap();
    let path = sub.get_one::<String>("path").unwrap().clone();
    let animation = sub.get_flag("animation");
    let output = sub.get_flag("output");
    let time = sub.get_flag("time");
    let debug = sub.get_flag("debug");
    let command = if name == "show" {
        Commands::Show { path, animation, output, time, debug }
    } else {
        Commands::Format { path, animation, output, time, debug }
    };
    Cli { command }
}

#[test]
fn verify_cli() {
    cli_command().debug_assert();
}

#[test]
fn cli_parses_show_and_format() {
    let cli = parse_args(&["prolyxena", "show", "hosts", "-o", "-t"]);
    match cli.command {
        Commands::Show { path, animation, output, time, debug } => {
            assert_eq!(path, "hosts");
            assert!(!animation && output && time && !debug);
        }
        Commands::Format { .. } => panic!("show expected"),
    }
    let cli = parse_args(&["prolyxena", "format", "a.nix", "-a", "-d"]);
    assert!(matches!(cli.command, Commands::Format { animation: true, debug: true, .. }));
    assert!(cli_command().try_get_matches_from(["prolyxena", "show", "x", "-a", "-o"]).is_err());
}

fn loaded_in(shown: &str) -> FsData {
    let mut data = FsData::new("x.nix");
    data.finish_load(52_000_000, shown.to_string());
    data
}

#[test]
fn output_text_lines() {
    let data = loaded_in("0.052s");
    assert_eq!(prolyxena_parse(&data, "TREE", true, true), "TREE\nTime: 0.052s\n");
    assert_eq!(prolyxena_parse(&data, "TREE", false, true), "Time: 0.052s\n");
    assert_eq!(prolyxena_parse(&data, "TREE", true, false), "TREE\n");
    assert_eq!(prolyxena_parse(&data, "TREE", false, false), "");
}

#[test]
fn prolyxena_parse_prints_time_and_tree() {
    let data = loaded_in("0.052s");
    assert_eq!(prolyxena_parse(&data, "Dir({})", false, false), "");
    assert_eq!(prolyxena_parse(&data, "Dir({})", false, true), "Time: 0.052s\n");
    assert_eq!(prolyxena_parse(&data, "Dir({})", true, false), "Dir({})\n");
    assert_eq!(prolyxena_parse(&FsData::new("x.nix"), "", false, true), "Time: 0.000s\n");
}

#[test]
fn prolyxena_format_plans_writes() {
    let mut data = FsData::new("/home/cato");
    data.generate_file("file.nix", NixValue::Int(1)).unwrap();
    data.files = vec!["/home/cato/old.nix".to_string()];
    let (plan, text) = prolyxena_format(&data, "", false, true);
    assert_eq!(text, "Time: 0.000s\n");
    let plan = plan.unwrap();
    assert_eq!(
        plan.steps,
        vec![
            WriteStep::MakeDir("/home/cato".to_string()),
            WriteStep::MakeDir("/home/cato/home".to_string()),
            WriteStep::MakeDir("/home/cato/home/cato".to_string()),
            WriteStep::WriteFile("/home/cato/home/cato/file.nix".to_string(), "1".to_string()),
        ]
    );
    assert_eq!(plan.stale, vec!["/home/cato/old.nix".to_string()]);
}
