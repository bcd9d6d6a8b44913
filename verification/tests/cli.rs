//! The decisions of the `uvxy` command: the namespaced flags, the quoting of
//! a command line, and the text of `--uvxy-explain`.

use uvxy::cli::{action, explain, shell_quote, Action};
use uvxy::flags::FlagTable;
use uvxy::rewrite::{rewrite, Mappings};
use uvxy::sorted::StrMap;

fn owned(args: &[&str]) -> Vec<String> {
    args.iter().map(|s| s.to_string()).collect()
}

#[test]
fn safe_words_stay_bare() {
    assert_eq!(
        shell_quote(&owned(&["/usr/bin/uv", "tool", "run", "--from", "pkg==1.0", "a@b:c,d%e+f_g"])),
        "/usr/bin/uv tool run --from pkg==1.0 a@b:c,d%e+f_g"
    );
}

#[test]
fn other_words_get_single_quotes() {
    assert_eq!(shell_quote(&owned(&["a b"])), "'a b'");
    assert_eq!(shell_quote(&owned(&[""])), "''");
    assert_eq!(shell_quote(&owned(&["$HOME"])), "'$HOME'");
    assert_eq!(shell_quote(&owned(&["caf\u{e9}"])), "'caf\u{e9}'");
}

#[test]
fn a_quote_inside_a_word_closes_and_reopens_the_quotes() {
    assert_eq!(shell_quote(&owned(&["it's"])), r"'it'\''s'");
    assert_eq!(shell_quote(&owned(&["'"])), r"''\'''");
}

#[test]
fn no_words_give_an_empty_line() {
    assert_eq!(shell_quote(&[]), "");
}

#[test]
fn the_first_namespaced_flag_decides() {
    assert_eq!(action(&[]), Action::Run);
    assert_eq!(action(&owned(&["--uvxy-help"])), Action::Help);
    assert_eq!(action(&owned(&["--uvxy-version"])), Action::Version);
    assert_eq!(
        action(&owned(&["--uvxy-explain", "--uvxy-help"])),
        Action::Explain
    );
    assert_eq!(
        action(&owned(&["--uvxy-bogus", "--uvxy-help"])),
        Action::Unknown("--uvxy-bogus".to_string())
    );
}

fn mappings() -> Mappings {
    let mut m = Mappings::new();
    m.insert("sphinx-build".to_string(), "sphinx".to_string());
    m
}

fn table() -> FlagTable {
    FlagTable::from_flags(&["--from", "--with", "-w"])
}

#[test]
fn explain_names_the_command_the_mapping_and_its_source() {
    let args = owned(&["--uvxy-explain", "sphinx-build", "docs", "build"]);
    let plan = rewrite(&args, Some(&table()), &mappings()).unwrap();
    let mut sources = StrMap::new();
    sources.insert(
        "sphinx-build".to_string(),
        "/home/you/.config/uv/uvxy.toml".to_string(),
    );
    let files = owned(&["/home/you/.config/uv/uvxy.toml"]);

    let lines = explain("/usr/local/bin/uv", &["tool", "run"], &plan, &sources, &files, None);

    assert_eq!(
        lines,
        [
            "/usr/local/bin/uv tool run --from sphinx sphinx-build docs build",
            "command: sphinx-build",
            "mapping: sphinx-build = \"sphinx\"",
            "source:  /home/you/.config/uv/uvxy.toml",
            "config:  /home/you/.config/uv/uvxy.toml",
        ]
    );
}

#[test]
fn explain_without_a_mapping_or_a_file() {
    let args = owned(&["--uvxy-explain", "ruff", "check"]);
    let plan = rewrite(&args, Some(&table()), &mappings()).unwrap();

    let lines = explain("/usr/bin/uvx", &[], &plan, &StrMap::new(), &[], None);

    assert_eq!(
        lines,
        [
            "/usr/bin/uvx ruff check",
            "command: ruff",
            "mapping: none applied",
            "config:  no file found",
        ]
    );
}

#[test]
fn explain_without_a_command() {
    let args = owned(&["--uvxy-explain"]);
    let plan = rewrite(&args, Some(&table()), &mappings()).unwrap();

    let lines = explain("/usr/bin/uv", &["tool", "run"], &plan, &StrMap::new(), &[], None);

    assert_eq!(lines[0], "/usr/bin/uv tool run");
    assert_eq!(lines[1], "command: none found");
}

#[test]
fn explain_reports_a_configuration_error() {
    let args = owned(&["--uvxy-explain", "sphinx-build"]);
    let plan = rewrite(&args, Some(&table()), &Mappings::new()).unwrap();
    let files = owned(&["/etc/uv/uvxy.toml"]);

    let lines = explain(
        "/usr/bin/uv",
        &["tool", "run"],
        &plan,
        &StrMap::new(),
        &files,
        Some("cannot read the configuration file `/tmp/uvxy.toml`: line 1: x"),
    );

    assert!(lines.contains(&"mapping: none applied".to_string()));
    assert_eq!(
        lines.last().unwrap(),
        "config:  cannot read the configuration file `/tmp/uvxy.toml`: line 1: x"
    );
}

#[test]
fn explain_marks_a_mapping_without_a_source() {
    let args = owned(&["--uvxy-explain", "sphinx-build"]);
    let plan = rewrite(&args, Some(&table()), &mappings()).unwrap();

    let lines = explain("uv", &["tool", "run"], &plan, &StrMap::new(), &[], None);

    assert_eq!(lines[3], "source:  unknown");
}
