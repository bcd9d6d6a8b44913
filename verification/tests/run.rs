//! Whole runs of `uvxy`, against a fake uv and a file system held in memory.
//!
//! Each scenario drives the library the way the `uvxy` binary does: find the
//! binary, read the configuration, build the flag table from the cache or
//! from uv, and decide. The fake uv records each call, exits with success,
//! and prints no completion script.

use uvxy::cli::{finish, Outcome, HELP, VERSION};
use uvxy::config::{config_files, config_paths, gather, load, Config, ConfigFile, FileRead};
use uvxy::flags::{self, after_cache_read, after_derive, after_stat, cache_dir, FlagTable, FlagsStep};
use uvxy::uvbin::{candidates, select, Uv};

const UV: &str = "/tmp/fixture/fake-uv";
const CONFIG: &str = "/tmp/fixture/uvxy.toml";
const CACHE: &str = "/tmp/fixture/cache";
const HOME: &str = "/tmp/fixture/home";
const UV_MTIME: u128 = 1_700_000_000_123_456_789;
const UV_SIZE: u64 = 117;

/// The flags that a seeded cache declares as value flags.
const SEED_FLAGS: &[&str] = &[
    "--from",
    "--with",
    "-w",
    "--python",
    "-p",
    "--constraints",
    "-c",
    "--index-url",
    "-i",
    "--color",
    "--link-mode",
];

/// The mappings that most scenarios read.
const DEFAULT_CONFIG: &str = "\
[commands]
sphinx-build = \"sphinx\"
mytool = \"acme-mytool\"
pinned = \"acme-pinned==2.1\"
black = \"black-nightly\"
";

/// A file that TOML cannot parse.
const BROKEN_CONFIG: &str = "[from\nsphinx-build = \n";

struct Output {
    success: bool,
    /// Why no flag table came out, as the library says; the program warns
    /// with it and reads the first argument as the command.
    flags_error: Option<String>,
    stdout: String,
    stderr: String,
}

struct Fixture {
    config: String,
    /// The files of the cache directory: path and text.
    files: Vec<(String, String)>,
    /// The arguments of every call of the fake uv.
    runs: Vec<Vec<String>>,
}

/// Hash a path with the FNV-1a function, as the cache names its files.
fn fnv1a(path: &str) -> u64 {
    let mut hash = 0xcbf2_9ce4_8422_2325_u64;
    for byte in path.as_bytes() {
        hash ^= u64::from(*byte);
        hash = hash.wrapping_mul(0x0000_0100_0000_01b3);
    }
    hash
}

impl Fixture {
    fn new() -> Self {
        Self::with_config(DEFAULT_CONFIG)
    }

    fn with_config(text: &str) -> Self {
        Fixture {
            config: text.to_string(),
            files: Vec::new(),
            runs: Vec::new(),
        }
    }

    /// Write a flag cache that matches the fake uv.
    fn seed_flag_cache(&mut self, flags: &[&str]) {
        let mut text = format!("uvxy-flags-1 {UV_MTIME} {UV_SIZE} {UV}");
        text.push('\n');
        for flag in flags {
            text.push_str(flag);
            text.push('\n');
        }
        let file = format!("{CACHE}/uvxy/flags-{:016x}", fnv1a(UV));
        self.files.push((file, text));
    }

    fn read(&self, file: &str) -> Option<String> {
        self.files
            .iter()
            .rev()
            .find(|(name, _)| name == file)
            .map(|(_, text)| text.clone())
    }

    fn flags(&mut self, uv: &Uv) -> Result<FlagTable, String> {
        let mut step = flags::load(uv).map_err(|err| err.message())?;
        loop {
            step = match step {
                FlagsStep::Stat { path } => {
                    let dir = cache_dir(false, None, Some(CACHE), Some(HOME));
                    after_stat(&path, UV_MTIME, UV_SIZE, dir.as_deref(), false)
                }
                FlagsStep::ReadCache { path, file, key } => {
                    let text = self.read(&file);
                    after_cache_read(path, file, key, text.as_deref())
                }
                FlagsStep::Derive {
                    path,
                    key,
                    cache_file,
                } => {
                    self.runs
                        .push(vec!["generate-shell-completion".to_string(), "zsh".to_string()]);
                    after_derive(path, &key, cache_file, true, "", "").map_err(|err| err.message())?
                }
                FlagsStep::WriteCache { file, text, table } => {
                    self.files.push((file, text));
                    return Ok(table);
                }
                FlagsStep::Done(table) => return Ok(table),
            };
        }
    }

    fn config(&self, with_config: bool) -> Result<Config, String> {
        let candidates = if with_config {
            config_files(Some(CONFIG), config_paths(false, None, None, Some(HOME)))
        } else {
            config_files(None, config_paths(false, None, Some(HOME), Some(HOME)))
        };
        let reads: Vec<FileRead> = candidates
            .iter()
            .map(|path| {
                if with_config && path == CONFIG {
                    FileRead::Text(self.config.clone())
                } else {
                    FileRead::Missing
                }
            })
            .collect();
        let files = gather(&candidates, &reads)?;
        load(&files).map_err(|err| err.message())
    }

    fn start(&mut self, args: &[&str], with_config: bool) -> Output {
        let args: Vec<String> = args.iter().map(|s| s.to_string()).collect();
        let mut stderr = String::new();

        let cands = candidates(Some(UV), None, &[], false);
        let exists: Vec<bool> = cands.iter().map(|c| c.path == UV).collect();
        let uv = select(&cands, &exists).expect("the fake uv exists");

        let config = self.config(with_config);
        let (table, flags_error) = match self.flags(&uv) {
            Ok(table) => (Some(table), None),
            Err(err) => (None, Some(err)),
        };

        match finish(&args, &uv, table.as_ref(), &config) {
            Outcome::Print(text) => Output {
                success: true,
                flags_error,
                stdout: text,
                stderr,
            },
            Outcome::Fail(message) => {
                stderr.push_str(&format!("uvxy: {message}\n"));
                Output {
                    success: false,
                    flags_error,
                    stdout: String::new(),
                    stderr,
                }
            }
            Outcome::Exec { program, args } => {
                assert_eq!(program, UV);
                self.runs.push(args);
                Output {
                    success: true,
                    flags_error,
                    stdout: String::new(),
                    stderr,
                }
            }
        }
    }

    fn run(&mut self, args: &[&str]) -> Output {
        self.start(args, true)
    }

    fn run_without_config(&mut self, args: &[&str]) -> Output {
        self.start(args, false)
    }

    fn uv_ran(&self) -> bool {
        !self.runs.is_empty()
    }

    fn uv_ran_a_tool(&self) -> bool {
        self.runs
            .iter()
            .any(|run| run.first().map(String::as_str) == Some("tool"))
    }

    fn only_run(&self) -> Vec<String> {
        assert_eq!(self.runs.len(), 1, "the fake uv ran once, and got {:?}", self.runs);
        self.runs[0].clone()
    }

    /// The arguments of the call that carries `tool run`, after those two.
    fn tool_run(&self) -> Vec<String> {
        let found: Vec<&Vec<String>> = self
            .runs
            .iter()
            .filter(|run| run.first().map(String::as_str) == Some("tool"))
            .collect();
        assert_eq!(found.len(), 1, "one `tool run` call, and got {:?}", self.runs);
        assert_eq!(found[0][..2], ["tool".to_string(), "run".to_string()]);
        found[0][2..].to_vec()
    }
}

fn as_strs(args: &[String]) -> Vec<&str> {
    args.iter().map(String::as_str).collect()
}

#[test]
fn a_mapped_command_gets_a_from_argument() {
    let mut fixture = Fixture::new();

    let output = fixture.run(&["sphinx-build", "docs", "out"]);

    assert!(output.success, "{}", output.stderr);
    assert_eq!(
        as_strs(&fixture.tool_run()),
        ["--from", "sphinx", "sphinx-build", "docs", "out"]
    );
}

#[test]
fn a_failed_flag_table_warns_and_still_runs_uv() {
    let mut fixture = Fixture::new();

    let output = fixture.run(&["sphinx-build"]);

    // The fake uv prints no completion script, so no table comes out, and
    // the first argument reads as the command.
    let error = output.flags_error.clone().expect("no flag table");
    assert!(
        error.starts_with("cannot find the `uv tool run` section"),
        "{error}"
    );
    assert!(output.success, "{}", output.stderr);
    assert_eq!(
        as_strs(&fixture.tool_run()),
        ["--from", "sphinx", "sphinx-build"]
    );
}

#[test]
fn an_unmapped_command_passes_through() {
    let mut fixture = Fixture::new();

    let output = fixture.run(&["ruff", "check", "--fix"]);

    assert!(output.success, "{}", output.stderr);
    let args = fixture.tool_run();
    assert_eq!(as_strs(&args), ["ruff", "check", "--fix"]);
    assert!(!args.iter().any(|arg| arg == "--from"), "{args:?}");
}

#[test]
fn the_from_argument_goes_before_the_separator() {
    let mut fixture = Fixture::new();

    let output = fixture.run(&["--", "sphinx-build", "--help"]);

    assert!(output.success, "{}", output.stderr);
    assert_eq!(
        as_strs(&fixture.tool_run()),
        ["--from", "sphinx", "--", "sphinx-build", "--help"]
    );
}

#[test]
fn a_version_on_the_command_moves_to_the_package_spec() {
    let mut fixture = Fixture::new();

    let output = fixture.run(&["mytool@1.2", "--flag"]);

    assert!(output.success, "{}", output.stderr);
    assert_eq!(
        as_strs(&fixture.tool_run()),
        ["--from", "acme-mytool@1.2", "mytool", "--flag"]
    );
}

#[test]
fn two_version_pins_yield_an_error_that_names_both() {
    let mut fixture = Fixture::new();

    let output = fixture.run(&["pinned@3.0"]);

    assert!(!output.success);
    let message = &output.stderr;
    assert!(message.contains("acme-pinned==2.1"), "{message}");
    assert!(message.contains("@3.0"), "{message}");
    assert!(!fixture.uv_ran_a_tool(), "uv must not run a tool");
}

#[test]
fn a_missing_configuration_file_gives_a_passthrough() {
    let mut fixture = Fixture::new();

    let output = fixture.run_without_config(&["sphinx-build", "docs"]);

    assert!(output.success, "{}", output.stderr);
    assert_eq!(as_strs(&fixture.tool_run()), ["sphinx-build", "docs"]);
}

#[test]
fn a_value_flag_before_the_command_does_not_read_as_the_command() {
    let mut fixture = Fixture::new();
    fixture.seed_flag_cache(SEED_FLAGS);

    let output = fixture.run(&["--with", "sphinx-rtd-theme", "sphinx-build", "docs"]);

    let message = &output.stderr;
    assert!(output.success, "{message}");
    // A seeded cache costs no uv process, so no warning reaches the user.
    assert_eq!(output.flags_error, None);
    assert_eq!(
        as_strs(&fixture.only_run()),
        [
            "tool",
            "run",
            "--with",
            "sphinx-rtd-theme",
            "--from",
            "sphinx",
            "sphinx-build",
            "docs",
        ]
    );
}

#[test]
fn a_command_that_repeats_a_flag_value_still_resolves() {
    let mut fixture = Fixture::new();
    fixture.seed_flag_cache(SEED_FLAGS);

    let output = fixture.run(&["--with", "black", "black"]);

    assert!(output.success, "{}", output.stderr);
    assert_eq!(
        as_strs(&fixture.tool_run()),
        ["--with", "black", "--from", "black-nightly", "black"]
    );
}

#[test]
fn a_user_from_argument_suppresses_the_mapping() {
    let mut fixture = Fixture::new();
    fixture.seed_flag_cache(SEED_FLAGS);

    let output = fixture.run(&["--from", "other-package", "sphinx-build", "docs"]);

    assert!(output.success, "{}", output.stderr);
    let args = fixture.tool_run();
    assert_eq!(
        as_strs(&args),
        ["--from", "other-package", "sphinx-build", "docs"]
    );
    assert_eq!(args.iter().filter(|arg| *arg == "--from").count(), 1);
}

#[test]
fn a_flag_that_holds_its_own_value_frees_the_next_argument() {
    let mut fixture = Fixture::new();
    fixture.seed_flag_cache(SEED_FLAGS);

    let output = fixture.run(&["--python=3.12", "mytool"]);

    assert!(output.success, "{}", output.stderr);
    assert_eq!(
        as_strs(&fixture.tool_run()),
        ["--python=3.12", "--from", "acme-mytool", "mytool"]
    );
}

#[test]
fn the_version_flag_prints_the_version_and_runs_no_uv() {
    let mut fixture = Fixture::new();
    fixture.seed_flag_cache(SEED_FLAGS);

    let output = fixture.run(&["--uvxy-version"]);

    assert!(output.success, "{}", output.stderr);
    assert_eq!(output.stdout.trim(), format!("uvxy {VERSION}"));
    assert_eq!(output.stdout, "uvxy 0.1.0\n");
    assert!(!fixture.uv_ran(), "uv must not run");
}

#[test]
fn the_help_flag_prints_the_usage_and_runs_no_uv() {
    let mut fixture = Fixture::new();
    fixture.seed_flag_cache(SEED_FLAGS);

    let output = fixture.run(&["--uvxy-help"]);

    assert!(output.success, "{}", output.stderr);
    let text = &output.stdout;
    assert_eq!(text, HELP);
    assert!(text.contains("Usage: uvxy"), "{text}");
    assert!(text.contains("--uvxy-explain"), "{text}");
    assert!(text.contains("[commands]"), "{text}");
    assert!(!fixture.uv_ran(), "uv must not run");
}

#[test]
fn the_explain_flag_prints_the_planned_command_and_runs_no_uv() {
    let mut fixture = Fixture::new();
    fixture.seed_flag_cache(SEED_FLAGS);

    let output = fixture.run(&["--uvxy-explain", "--with", "furo", "sphinx-build", "docs"]);

    assert!(output.success, "{}", output.stderr);
    let text = &output.stdout;
    assert!(
        text.contains(&format!(
            "{UV} tool run --with furo --from sphinx sphinx-build docs"
        )),
        "{text}"
    );
    assert!(text.contains("command: sphinx-build"), "{text}");
    assert!(text.contains("mapping: sphinx-build = \"sphinx\""), "{text}");
    assert!(text.contains(&format!("source:  {CONFIG}")), "{text}");
    assert_eq!(
        *text,
        format!(
            "{UV} tool run --with furo --from sphinx sphinx-build docs\n\
             command: sphinx-build\n\
             mapping: sphinx-build = \"sphinx\"\n\
             source:  {CONFIG}\n\
             config:  {CONFIG}\n"
        )
    );
    assert!(!fixture.uv_ran(), "uv must not run");
}

#[test]
fn an_unknown_namespaced_flag_yields_an_error() {
    let mut fixture = Fixture::new();
    fixture.seed_flag_cache(SEED_FLAGS);

    let output = fixture.run(&["--uvxy-bogus", "sphinx-build"]);

    assert!(!output.success);
    let message = &output.stderr;
    assert!(message.contains("--uvxy-bogus"), "{message}");
    assert!(message.contains("--uvxy-help"), "{message}");
    assert_eq!(
        message,
        "uvxy: unknown flag `--uvxy-bogus`. Run `uvxy --uvxy-help`.\n"
    );
    assert!(!fixture.uv_ran(), "uv must not run");
}

#[test]
fn cli_a_namespaced_flag_after_the_command_reaches_the_command() {
    let mut fixture = Fixture::new();
    fixture.seed_flag_cache(SEED_FLAGS);

    let output = fixture.run(&["mytool", "--uvxy-bogus"]);

    assert!(output.success, "{}", output.stderr);
    assert_eq!(
        as_strs(&fixture.tool_run()),
        ["--from", "acme-mytool", "mytool", "--uvxy-bogus"]
    );
}

#[test]
fn a_malformed_configuration_file_yields_an_error_that_names_the_file() {
    let mut fixture = Fixture::with_config(BROKEN_CONFIG);
    fixture.seed_flag_cache(SEED_FLAGS);

    let output = fixture.run(&["sphinx-build"]);

    assert!(!output.success);
    let message = &output.stderr;
    assert!(message.contains(CONFIG), "{message}");
    assert!(!fixture.uv_ran(), "uv must not run");
}

#[test]
fn the_help_flag_answers_when_the_configuration_file_is_malformed() {
    let mut fixture = Fixture::with_config(BROKEN_CONFIG);
    fixture.seed_flag_cache(SEED_FLAGS);

    let output = fixture.run(&["--uvxy-help"]);

    assert!(output.success, "{}", output.stderr);
    assert!(output.stdout.contains("Usage: uvxy"), "{}", output.stdout);
    assert!(!fixture.uv_ran(), "uv must not run");
}

#[test]
fn the_explain_flag_reports_a_malformed_configuration_file() {
    let mut fixture = Fixture::with_config(BROKEN_CONFIG);
    fixture.seed_flag_cache(SEED_FLAGS);

    let output = fixture.run(&["--uvxy-explain", "sphinx-build"]);

    assert!(output.success, "{}", output.stderr);
    let text = &output.stdout;
    assert!(text.contains("cannot read the configuration file"), "{text}");
    assert!(text.contains("mapping: none applied"), "{text}");
    assert!(!fixture.uv_ran(), "uv must not run");
}

#[test]
fn a_seeded_cache_spares_the_completion_run() {
    // The fake uv prints no script, so the table never builds and nothing
    // reaches the cache. A seeded cache is read, and uv runs only the tool.
    let mut fixture = Fixture::new();
    fixture.run(&["ruff"]);
    assert_eq!(fixture.runs.len(), 2);
    assert_eq!(
        as_strs(&fixture.runs[0]),
        ["generate-shell-completion", "zsh"]
    );
    assert_eq!(fixture.files.len(), 0);

    let mut seeded = Fixture::new();
    seeded.seed_flag_cache(SEED_FLAGS);
    seeded.run(&["ruff"]);
    assert_eq!(seeded.runs.len(), 1);
}

#[test]
fn uvx_runs_the_tool_without_a_prefix() {
    let uvx = Uv {
        path: "/usr/bin/uvx".to_string(),
        kind: uvxy::uvbin::UvKind::Uvx,
    };
    let config = load(&[ConfigFile {
        path: CONFIG.to_string(),
        text: DEFAULT_CONFIG.to_string(),
    }]);
    let args: Vec<String> = ["mytool", "x"].iter().map(|s| s.to_string()).collect();
    assert!(flags::load(&uvx).is_err());
    let outcome = finish(&args, &uvx, None, &config.map_err(|err| err.message()));
    assert_eq!(
        outcome,
        Outcome::Exec {
            program: "/usr/bin/uvx".to_string(),
            args: ["--from", "acme-mytool", "mytool", "x"]
                .iter()
                .map(|s| s.to_string())
                .collect(),
        }
    );
}

#[test]
fn the_version_flag_answers_when_the_configuration_file_is_malformed() {
    let mut fixture = Fixture::with_config(BROKEN_CONFIG);
    fixture.seed_flag_cache(SEED_FLAGS);

    let output = fixture.run(&["--uvxy-version", "sphinx-build"]);

    assert!(output.success, "{}", output.stderr);
    assert_eq!(output.stdout, "uvxy 0.1.0\n");

    let unknown = fixture.run(&["--uvxy-bogus"]);
    assert!(!unknown.success);
    assert!(unknown.stderr.contains("unknown flag `--uvxy-bogus`"), "{}", unknown.stderr);
    assert!(!fixture.uv_ran(), "uv must not run");
}
