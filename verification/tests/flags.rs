//! The flag table: the zsh completion parser, its entries, and the cache.

use uvxy::flags::{
    after_cache_read, after_derive, after_stat, cache_dir, cache_file, cache_key, cache_text,
    hash_path, is_flag_name_exec, load, parse_entry, parse_zsh_completion, read_cache, FlagTable,
    FlagsError, FlagsStep,
};
use uvxy::uvbin::{Uv, UvKind};

/// An excerpt of the real output of `uv generate-shell-completion zsh`,
/// from uv 0.8.17.
///
/// The excerpt holds three sections. The first section belongs to `uv run`,
/// the second section belongs to `uv tool run`, and the third section
/// belongs to `uvx`. Only the second section may reach the table.
const ZSH_COMPLETION: &str = r##"#compdef uv

_uv() {
    _arguments "${_arguments_options[@]}" : \
'--cache-dir=[Path to the cache directory]:CACHE_DIR:_files' \
":: :_uv_commands" \
"*::: :->uv" \
&& ret=0
    case $state in
    (uv)
        curcontext="${curcontext%:*:*}:uv-command-$line[1]:"
        case $line[1] in
            (run)
_arguments "${_arguments_options[@]}" : \
'*--only-group=[Only include dependencies from the specified dependency group]:ONLY_GROUP:_default' \
'--decoy-uv-run=[This flag belongs to uv run, and not to uv tool run]:DECOY:_default' \
'--no-sync[Avoid syncing the virtual environment]' \
"*::command:_default" \
&& ret=0
;;
(tool)
_arguments "${_arguments_options[@]}" : \
":: :_uv__tool_commands" \
"*::: :->tool" \
&& ret=0

    case $state in
    (tool)
        words=($line[1] "${words[@]}")
        (( CURRENT += 1 ))
        curcontext="${curcontext%:*:*}:uv-tool-command-$line[1]:"
        case $line[1] in
            (run)
_arguments "${_arguments_options[@]}" : \
'--from=[Use the given package to provide the command]:FROM:_default' \
'*-w+[Run with the given packages installed]:WITH:_default' \
'*--with=[Run with the given packages installed]:WITH:_default' \
'*-c+[Constrain versions using the given requirements files]:CONSTRAINTS:_default' \
'*--constraints=[Constrain versions using the given requirements files]:CONSTRAINTS:_default' \
'*--env-file=[Load environment variables from a \`.env\` file]:ENV_FILE:_files' \
'-i+[(Deprecated\: use \`--default-index\` instead) The URL of the Python package index (by default\: <https\://pypi.org/simple>)]:INDEX_URL:_default' \
'--index-url=[(Deprecated\: use \`--default-index\` instead) The URL of the Python package index (by default\: <https\://pypi.org/simple>)]:INDEX_URL:_default' \
'--link-mode=[The method to use when installing packages from the global cache]:LINK_MODE:((clone\:"Clone (i.e., copy-on-write) packages from the wheel into the \`site-packages\` directory"
copy\:"Copy packages from the wheel into the \`site-packages\` directory"
hardlink\:"Hard link packages from the wheel into the \`site-packages\` directory"
symlink\:"Symbolically link packages from the wheel into the \`site-packages\` directory"))' \
'-p+[The Python interpreter to use to build the run environment.]:PYTHON:_default' \
'--python=[The Python interpreter to use to build the run environment.]:PYTHON:_default' \
'--generate-shell-completion=[]:GENERATE_SHELL_COMPLETION:(bash elvish fish nushell powershell zsh)' \
'(--no-color)--color=[Control the use of color in output]:COLOR_CHOICE:((auto\:"Enables colored output only when the output is going to a terminal or TTY with support"
always\:"Enables colored output regardless of the detected environment"
never\:"Disables colored output"))' \
'--isolated[Run the tool in an isolated virtual environment, ignoring any already-installed tools]' \
'--no-env-file[Avoid reading environment variables from a \`.env\` file]' \
'-U[Allow package upgrades, ignoring pinned versions in any existing output file. Implies \`--refresh\`]' \
'--upgrade[Allow package upgrades, ignoring pinned versions in any existing output file. Implies \`--refresh\`]' \
'(--offline)--refresh[Refresh all cached data]' \
'-n[Avoid reading from or writing to the cache, instead using a temporary directory for the duration of the operation]' \
'(-v --verbose)*-q[Use quiet output]' \
'(-q --quiet)*--verbose[Use verbose output]' \
'--no-python-downloads[Disable automatic downloads of Python. \[env\: "UV_PYTHON_DOWNLOADS=never"\]]' \
'--offline[Disable network access]' \
'--no-config[Avoid discovering configuration files (\`pyproject.toml\`, \`uv.toml\`)]' \
'-h[Display the concise help for this command]' \
'--help[Display the concise help for this command]' \
"*::external_command:_default" \
&& ret=0
;;
(uvx)
_arguments "${_arguments_options[@]}" : \
'--decoy-uvx=[This flag belongs to the uvx section, and not to uv tool run]:DECOY:_default' \
&& ret=0
;;
        esac
    ;;
esac
}
"##;

fn table() -> FlagTable {
    parse_zsh_completion(ZSH_COMPLETION).expect("the excerpt yields a table")
}

#[test]
fn long_flags_take_a_value() {
    let table = table();
    for flag in [
        "--from",
        "--with",
        "--constraints",
        "--env-file",
        "--index-url",
        "--link-mode",
        "--python",
        "--color",
    ] {
        assert!(table.takes_value(flag), "{flag} takes a value");
    }
}

#[test]
fn short_flags_take_a_value() {
    let table = table();
    for flag in ["-w", "-c", "-i", "-p"] {
        assert!(table.takes_value(flag), "{flag} takes a value");
    }
}

#[test]
fn boolean_flags_take_no_value() {
    let table = table();
    for flag in [
        "--isolated",
        "--no-config",
        "--offline",
        "--no-env-file",
        "--upgrade",
        "--refresh",
        "--verbose",
        "--no-python-downloads",
        "--help",
        "-U",
        "-n",
        "-q",
        "-h",
    ] {
        assert!(!table.takes_value(flag), "{flag} takes no value");
    }
}

#[test]
fn a_hidden_flag_reaches_the_table() {
    // `uv tool run --help` hides this flag. The completions declare it.
    assert!(table().takes_value("--generate-shell-completion"));
}

#[test]
fn the_table_holds_only_the_tool_run_section() {
    let table = table();
    assert!(!table.takes_value("--decoy-uv-run"));
    assert!(!table.takes_value("--decoy-uvx"));
    assert!(!table.takes_value("--only-group"));
    assert!(!table.takes_value("--cache-dir"));
}

#[test]
fn a_repeatable_flag_reaches_the_table_without_its_star() {
    let table = table();
    assert!(table.takes_value("--with"));
    assert!(!table.takes_value("*--with"));
}

#[test]
fn text_without_the_section_yields_an_error() {
    assert!(parse_zsh_completion("").is_err());
    assert!(parse_zsh_completion("#compdef uv\n_uv() {\n}\n").is_err());
}

#[test]
fn a_section_without_a_close_yields_an_error() {
    let text = "curcontext=\"uv-tool-command-$line[1]:\"\n\
                (run)\n\
                '--from=[Use the given package]:FROM:_default' \\\n";
    assert!(parse_zsh_completion(text).is_err());
}

#[test]
fn a_section_with_no_value_flag_yields_an_error() {
    let text = "curcontext=\"uv-tool-command-$line[1]:\"\n\
                (run)\n\
                '--isolated[Run the tool in an isolated environment]' \\\n\
                ;;\n";
    assert!(parse_zsh_completion(text).is_err());
}

#[test]
fn a_description_with_escaped_brackets_parses() {
    let line = r#"'--no-python-downloads[Disable automatic downloads. \[env\: "X=never"\]]' \"#;
    assert_eq!(
        parse_entry(line),
        Some(("--no-python-downloads".to_string(), false))
    );
}

#[test]
fn a_positional_entry_parses_to_nothing() {
    assert_eq!(parse_entry("\"*::external_command:_default\" \\"), None);
    assert_eq!(parse_entry("&& ret=0"), None);
    assert_eq!(parse_entry(";;"), None);
}

#[test]
fn the_cache_holds_the_table_under_its_key() {
    let table = FlagTable::from_flags(&["--from", "--with", "-w"]);

    let text = cache_text("key-a", &table);

    assert_eq!(read_cache(&text, "key-a"), Some(table));
    assert_eq!(read_cache(&text, "key-b"), None);
}

#[test]
fn a_missing_cache_file_reads_as_nothing() {
    let step = after_cache_read(
        "/usr/bin/uv".to_string(),
        "/cache/flags-0".to_string(),
        "key".to_string(),
        None,
    );
    assert!(matches!(step, FlagsStep::Derive { cache_file: Some(_), .. }));
}

#[test]
fn two_uv_paths_name_two_cache_files() {
    let first = cache_file(Some("/home/you/.cache/uvxy"), "/usr/bin/uv", false);
    let second = cache_file(Some("/home/you/.cache/uvxy"), "/opt/uv/bin/uv", false);
    if let (Some(first), Some(second)) = (first, second) {
        assert_ne!(first, second);
    }
}

#[test]
fn uvx_yields_an_error() {
    let uvx = Uv {
        path: "/usr/bin/uvx".to_string(),
        kind: UvKind::Uvx,
    };
    assert!(load(&uvx).is_err());
}

#[test]
fn the_table_reports_its_size() {
    let table = FlagTable::from_flags(&["--from", "--with", "--from"]);
    assert_eq!(table.len(), 2);
    assert!(!table.is_empty());
    assert!(table.takes_value("--from"));
    assert!(!table.takes_value("--isolated"));

    let empty = FlagTable::from_flags(&[]);
    assert_eq!(empty.len(), 0);
    assert!(empty.is_empty());
}

#[test]
fn flag_names_carry_one_or_two_dashes_and_a_plain_body() {
    assert!(is_flag_name_exec("--from"));
    assert!(is_flag_name_exec("-w"));
    assert!(is_flag_name_exec("--python_version-2"));
    assert!(!is_flag_name_exec("--"));
    assert!(!is_flag_name_exec("-"));
    assert!(!is_flag_name_exec("from"));
    assert!(!is_flag_name_exec("--fr om"));
    // The body may itself start with a dash.
    assert!(is_flag_name_exec("---from"));
}

#[test]
fn an_entry_with_an_exclusion_list_parses() {
    assert_eq!(
        parse_entry(
            "'(--no-color)--color=[Control the use of color in output]:COLOR_CHOICE:((auto))' \\"
        ),
        Some(("--color".to_string(), true))
    );
    assert_eq!(
        parse_entry("'--isolated[Run the tool in an isolated virtual environment]' \\"),
        Some(("--isolated".to_string(), false))
    );
    assert_eq!(
        parse_entry("'*-w+[Run with the given packages installed]:WITH:_default' \\"),
        Some(("-w".to_string(), true))
    );
}

#[test]
fn an_entry_without_a_closing_bracket_parses_to_nothing() {
    assert_eq!(parse_entry("'--from=[Use the given package:FROM:_default' \\"), None);
    assert_eq!(parse_entry("'--from=]x[' \\"), None);
}

#[test]
fn the_hash_of_a_path_is_fnv1a() {
    assert_eq!(hash_path(""), 0xcbf2_9ce4_8422_2325);
    assert_eq!(hash_path("a"), 0xaf63_dc4c_8601_ec8c);
}

#[test]
fn the_cache_file_name_carries_the_hash_in_sixteen_digits() {
    assert_eq!(
        cache_file(Some("/c"), "", false),
        Some("/c/flags-cbf29ce484222325".to_string())
    );
    assert_eq!(
        cache_file(Some("C:\\c"), "a", true),
        Some("C:\\c\\flags-af63dc4c8601ec8c".to_string())
    );
    assert_eq!(cache_file(None, "/usr/bin/uv", false), None);
}

#[test]
fn the_cache_key_holds_format_time_size_and_path() {
    assert_eq!(
        cache_key(1_700_000_000_123_456_789, 42, "/usr/bin/uv"),
        "uvxy-flags-1 1700000000123456789 42 /usr/bin/uv"
    );
    assert_eq!(cache_key(0, 0, "uv"), "uvxy-flags-1 0 0 uv");
}

#[test]
fn the_cache_directory_follows_the_environment() {
    assert_eq!(
        cache_dir(false, None, Some("/xdg"), Some("/home/you")),
        Some("/xdg/uvxy".to_string())
    );
    assert_eq!(
        cache_dir(false, None, Some(""), Some("/home/you")),
        Some("/home/you/.cache/uvxy".to_string())
    );
    assert_eq!(cache_dir(false, None, None, None), None);
    assert_eq!(cache_dir(false, None, None, Some("")), None);
    assert_eq!(
        cache_dir(true, Some("C:\\Local"), Some("/xdg"), None),
        Some("C:\\Local\\uvxy\\cache".to_string())
    );
    assert_eq!(cache_dir(true, Some(""), None, Some("/home/you")), None);
}

#[test]
fn the_cache_text_lists_the_flags_in_order() {
    let table = FlagTable::from_flags(&["--with", "--from", "-w"]);
    assert_eq!(cache_text("k", &table), "k\n--from\n--with\n-w\n");
}

#[test]
fn a_cache_read_trims_lines_and_skips_blank_ones() {
    let table = read_cache("k\n  --from  \n\n--with\r\n", "k").unwrap();
    assert_eq!(table, FlagTable::from_flags(&["--from", "--with"]));
}

#[test]
fn a_cache_without_flags_reads_as_nothing() {
    assert_eq!(read_cache("k\n", "k"), None);
    assert_eq!(read_cache("k\n \n", "k"), None);
    assert_eq!(read_cache("", "k"), None);
}

#[test]
fn a_stat_leads_to_the_cache_file() {
    let step = after_stat("/usr/bin/uv", 5, 7, Some("/c"), false);
    match step {
        FlagsStep::ReadCache { path, file, key } => {
            assert_eq!(path, "/usr/bin/uv");
            assert_eq!(file, cache_file(Some("/c"), "/usr/bin/uv", false).unwrap());
            assert_eq!(key, "uvxy-flags-1 5 7 /usr/bin/uv");
        }
        _ => panic!("expected a cache read"),
    }
    let step = after_stat("/usr/bin/uv", 5, 7, None, false);
    assert!(matches!(step, FlagsStep::Derive { cache_file: None, .. }));
}

#[test]
fn a_cache_hit_ends_the_load() {
    let text = cache_text("key", &FlagTable::from_flags(&["--from"]));
    let step = after_cache_read(
        "/usr/bin/uv".to_string(),
        "/c/f".to_string(),
        "key".to_string(),
        Some(&text),
    );
    match step {
        FlagsStep::Done(table) => assert_eq!(table, FlagTable::from_flags(&["--from"])),
        _ => panic!("expected a finished table"),
    }
    let stale = after_cache_read(
        "/usr/bin/uv".to_string(),
        "/c/f".to_string(),
        "other".to_string(),
        Some(&text),
    );
    assert!(matches!(stale, FlagsStep::Derive { .. }));
}

#[test]
fn a_derived_table_goes_to_the_cache() {
    let step = after_derive(
        "/usr/bin/uv".to_string(),
        "key",
        Some("/c/f".to_string()),
        true,
        ZSH_COMPLETION,
        "",
    )
    .unwrap();
    match step {
        FlagsStep::WriteCache { file, text, table } => {
            assert_eq!(file, "/c/f");
            assert!(table.takes_value("--from"));
            assert_eq!(text, cache_text("key", &table));
            assert_eq!(read_cache(&text, "key"), Some(table));
        }
        _ => panic!("expected a cache write"),
    }
    let step = after_derive("/usr/bin/uv".to_string(), "key", None, true, ZSH_COMPLETION, "")
        .unwrap();
    assert!(matches!(step, FlagsStep::Done(_)));
}

#[test]
fn a_failed_completion_run_yields_its_message() {
    let error = after_derive(
        "/usr/bin/uv".to_string(),
        "key",
        None,
        false,
        "",
        "  error: unknown command\n",
    )
    .unwrap_err();
    assert_eq!(
        error,
        FlagsError::CompletionFailed {
            path: "/usr/bin/uv".to_string(),
            message: "error: unknown command".to_string(),
        }
    );
    assert_eq!(
        error.message(),
        "`/usr/bin/uv generate-shell-completion zsh` failed: error: unknown command"
    );
}

#[test]
fn each_flags_error_has_a_message() {
    let uvx = Uv {
        path: "/usr/bin/uvx".to_string(),
        kind: UvKind::Uvx,
    };
    assert_eq!(
        load(&uvx).unwrap_err().message(),
        "`/usr/bin/uvx` is uvx, and uvx cannot generate shell completions"
    );
    assert!(parse_zsh_completion("#compdef uv\n")
        .unwrap_err()
        .message()
        .starts_with("cannot find the `uv tool run` section"));
    assert!(FlagsError::NoValueFlag
        .message()
        .contains("declares no flag that takes a value"));
}

#[test]
fn uv_starts_the_load_with_a_stat() {
    let uv = Uv {
        path: "/usr/bin/uv".to_string(),
        kind: UvKind::Uv,
    };
    match load(&uv).unwrap() {
        FlagsStep::Stat { path } => assert_eq!(path, "/usr/bin/uv"),
        _ => panic!("expected a stat"),
    }
}

#[test]
fn the_default_table_is_empty() {
    let table = FlagTable::default();
    assert!(table.is_empty());
    assert_eq!(table.len(), 0);
    assert!(!table.takes_value("--from"));
}

#[test]
fn a_cloned_table_holds_the_same_flags() {
    let table = FlagTable::from_flags(&["--with", "--from"]);
    let copy = table.clone();
    assert_eq!(copy, table);
    assert!(copy.takes_value("--with"));
}

#[test]
fn a_table_of_plain_flags_round_trips_through_the_cache() {
    // Not only flag names: any flag without a line break and without white
    // space at its ends reads back unchanged.
    let table = FlagTable::from_flags(&["--from", "x y", "-w"]);
    let text = cache_text("key", &table);
    assert_eq!(read_cache(&text, "key"), Some(table));
}
