//! The configuration: the `[commands]` reader, the merge of the files, and
//! where the files lie.

use uvxy::config::{
    config_files, config_paths, gather, join_path, load, parse, ConfigFile, FileRead, LoadError, ParseError,
};

/// The mappings that most scenarios read.
const DEFAULT_CONFIG: &str = "\
[commands]
sphinx-build = \"sphinx\"
mytool = \"acme-mytool\"
pinned = \"acme-pinned==2.1\"
black = \"black-nightly\"
";

/// A file whose first line opens a table and never closes it.
const BROKEN_CONFIG: &str = "[from\nsphinx-build = \n";

fn file(path: &str, text: &str) -> ConfigFile {
    ConfigFile {
        path: path.to_string(),
        text: text.to_string(),
    }
}

#[test]
fn the_commands_table_yields_each_mapping() {
    let map = parse(DEFAULT_CONFIG).unwrap();
    assert_eq!(map.len(), 4);
    assert_eq!(map.get("sphinx-build").unwrap(), "sphinx");
    assert_eq!(map.get("mytool").unwrap(), "acme-mytool");
    assert_eq!(map.get("pinned").unwrap(), "acme-pinned==2.1");
    assert_eq!(map.get("black").unwrap(), "black-nightly");
    assert_eq!(map.get("absent"), None);
}

#[test]
fn a_key_matches_exactly_and_is_never_normalized() {
    let map = parse("[commands]\nSphinx_Build = \"sphinx\"\n").unwrap();
    assert_eq!(map.get("Sphinx_Build").unwrap(), "sphinx");
    assert_eq!(map.get("sphinx-build"), None);
    assert_eq!(map.get("sphinx_build"), None);
}

#[test]
fn quoted_keys_literal_strings_and_comments_parse() {
    let text = "# mappings\n\n[commands]  # the table\n\"my tool\" = 'pkg==1.0' # pinned\n  http\t=\t\"httpie\"\n";
    let map = parse(text).unwrap();
    assert_eq!(map.len(), 2);
    assert_eq!(map.get("my tool").unwrap(), "pkg==1.0");
    assert_eq!(map.get("http").unwrap(), "httpie");
}

#[test]
fn escapes_in_a_basic_string_parse() {
    let map = parse("[commands]\nx = \"a\\u00e9\\t\\\"b\\\\\"\ny = \"\\U0001F600\"\n").unwrap();
    assert_eq!(map.get("x").unwrap(), "a\u{e9}\t\"b\\");
    assert_eq!(map.get("y").unwrap(), "\u{1F600}");
}

#[test]
fn a_literal_string_keeps_its_backslashes() {
    let map = parse("[commands]\nx = 'C:\\tools\\n'\n").unwrap();
    assert_eq!(map.get("x").unwrap(), "C:\\tools\\n");
}

#[test]
fn an_empty_file_yields_no_mapping() {
    assert_eq!(parse("").unwrap().len(), 0);
    assert_eq!(parse("# nothing\n\n").unwrap().len(), 0);
    assert_eq!(parse("[commands]\n").unwrap().len(), 0);
}

#[test]
fn crlf_line_ends_parse() {
    let map = parse("[commands]\r\nfab = \"fabric\"\r\n").unwrap();
    assert_eq!(map.get("fab").unwrap(), "fabric");
}

#[test]
fn a_broken_header_is_a_syntax_error_on_its_line() {
    assert_eq!(parse(BROKEN_CONFIG).unwrap_err(), ParseError::Syntax { line: 1 });
}

#[test]
fn a_missing_value_is_a_syntax_error() {
    assert_eq!(
        parse("[commands]\nsphinx-build = \n").unwrap_err(),
        ParseError::Syntax { line: 2 }
    );
    assert_eq!(
        parse("[commands]\nx = \"open\n").unwrap_err(),
        ParseError::Syntax { line: 2 }
    );
    assert_eq!(
        parse("[commands]\nx = \"a\" b\n").unwrap_err(),
        ParseError::Syntax { line: 2 }
    );
    assert_eq!(
        parse("[commands]\nx = \"\\q\"\n").unwrap_err(),
        ParseError::Syntax { line: 2 }
    );
    assert_eq!(
        parse("[commands]\nx = \"\\uD800\"\n").unwrap_err(),
        ParseError::Syntax { line: 2 }
    );
}

#[test]
fn another_table_is_an_error() {
    assert_eq!(
        parse("[from]\nsphinx-build = \"sphinx\"\n").unwrap_err(),
        ParseError::UnknownTable {
            line: 1,
            name: "from".to_string()
        }
    );
    assert_eq!(
        parse("[commands]\na = \"b\"\n[uvxy]\n").unwrap_err(),
        ParseError::UnknownTable {
            line: 3,
            name: "uvxy".to_string()
        }
    );
}

#[test]
fn a_second_commands_table_is_an_error() {
    assert_eq!(
        parse("[commands]\na = \"b\"\n[commands]\n").unwrap_err(),
        ParseError::DuplicateTable { line: 3 }
    );
}

#[test]
fn a_key_before_the_table_is_an_error() {
    assert_eq!(
        parse("a = \"b\"\n[commands]\n").unwrap_err(),
        ParseError::KeyOutsideTable {
            line: 1,
            key: "a".to_string()
        }
    );
}

#[test]
fn a_value_that_is_not_a_string_is_an_error() {
    assert_eq!(
        parse("[commands]\nmytool = 3\n").unwrap_err(),
        ParseError::NotAString {
            line: 2,
            key: "mytool".to_string()
        }
    );
    assert_eq!(
        parse("[commands]\nmytool = [\"a\"]\n").unwrap_err(),
        ParseError::NotAString {
            line: 2,
            key: "mytool".to_string()
        }
    );
}

#[test]
fn a_command_mapped_twice_is_an_error() {
    assert_eq!(
        parse("[commands]\na = \"b\"\na = \"c\"\n").unwrap_err(),
        ParseError::DuplicateKey {
            line: 3,
            key: "a".to_string()
        }
    );
}

#[test]
fn each_parse_error_has_a_message() {
    assert_eq!(
        ParseError::Syntax { line: 12 }.message(),
        "line 12: this is not TOML"
    );
    assert_eq!(
        ParseError::UnknownTable {
            line: 1,
            name: "from".to_string()
        }
        .message(),
        "line 1: the table `[from]` is not `[commands]`"
    );
    assert_eq!(
        ParseError::DuplicateTable { line: 4 }.message(),
        "line 4: the `commands` table is made a second time"
    );
    assert_eq!(
        ParseError::KeyOutsideTable {
            line: 1,
            key: "a".to_string()
        }
        .message(),
        "line 1: the key `a` stands outside the `[commands]` table"
    );
    assert_eq!(
        ParseError::NotAString {
            line: 2,
            key: "a".to_string()
        }
        .message(),
        "line 2: the value of `a` is not a string"
    );
    assert_eq!(
        ParseError::DuplicateKey {
            line: 103,
            key: "a".to_string()
        }
        .message(),
        "line 103: the command `a` appears twice"
    );
}

#[test]
fn no_file_yields_an_empty_configuration() {
    let config = load(&[]).unwrap();
    assert_eq!(config.mappings.len(), 0);
    assert_eq!(config.sources.len(), 0);
    assert!(config.files_read.is_empty());
}

#[test]
fn the_user_file_wins_over_the_system_file_one_command_at_a_time() {
    let files = [
        file(
            "/etc/uv/uvxy.toml",
            "[commands]\nhttp = \"httpie\"\nfab = \"fabric\"\n",
        ),
        file(
            "/home/you/.config/uv/uvxy.toml",
            "[commands]\nfab = \"fabric2\"\n",
        ),
    ];
    let config = load(&files).unwrap();
    assert_eq!(config.mappings.get("http").unwrap(), "httpie");
    assert_eq!(config.mappings.get("fab").unwrap(), "fabric2");
    assert_eq!(config.sources.get("http").unwrap(), "/etc/uv/uvxy.toml");
    assert_eq!(
        config.sources.get("fab").unwrap(),
        "/home/you/.config/uv/uvxy.toml"
    );
    assert_eq!(
        config.files_read,
        ["/etc/uv/uvxy.toml", "/home/you/.config/uv/uvxy.toml"]
    );
}

#[test]
fn a_malformed_file_yields_an_error_that_names_the_file() {
    let files = [
        file("/etc/uv/uvxy.toml", DEFAULT_CONFIG),
        file("/tmp/uvxy.toml", BROKEN_CONFIG),
    ];
    let error = load(&files).unwrap_err();
    assert_eq!(
        error,
        LoadError {
            path: "/tmp/uvxy.toml".to_string(),
            error: ParseError::Syntax { line: 1 },
        }
    );
    let message = error.message();
    assert!(message.contains("/tmp/uvxy.toml"), "{message}");
    assert!(
        message.starts_with("cannot read the configuration file `/tmp/uvxy.toml`: line 1: "),
        "{message}"
    );
}

#[test]
fn the_user_path_follows_the_system_path() {
    assert_eq!(
        config_paths(false, None, Some("/xdg"), Some("/home/you")),
        ["/etc/uv/uvxy.toml", "/xdg/uv/uvxy.toml"]
    );
    assert_eq!(
        config_paths(false, None, Some(""), Some("/home/you")),
        ["/etc/uv/uvxy.toml", "/home/you/.config/uv/uvxy.toml"]
    );
    assert_eq!(
        config_paths(false, Some("C:\\AppData"), None, Some("/home/you/")),
        ["/etc/uv/uvxy.toml", "/home/you/.config/uv/uvxy.toml"]
    );
    assert_eq!(config_paths(false, None, None, None), ["/etc/uv/uvxy.toml"]);
}

#[test]
fn a_bare_windows_drive_takes_no_separator() {
    assert_eq!(join_path("C:", "uv.exe", true), "C:uv.exe");
    assert_eq!(join_path("C:\\", "uv.exe", true), "C:\\uv.exe");
    assert_eq!(join_path("C:tools", "uv.exe", true), "C:tools\\uv.exe");
    assert_eq!(join_path("C:", "uv", false), "C:/uv");
    assert_eq!(join_path("", "uv", false), "uv");
}

#[test]
fn windows_reads_only_appdata() {
    assert_eq!(
        config_paths(true, Some("C:\\Users\\you\\AppData\\Roaming"), Some("/xdg"), None),
        ["C:\\Users\\you\\AppData\\Roaming\\uv\\uvxy.toml"]
    );
    assert!(config_paths(true, None, Some("/xdg"), Some("/home/you")).is_empty());
}

#[test]
fn the_override_file_replaces_every_other_file() {
    let paths = vec!["/etc/uv/uvxy.toml".to_string(), "/xdg/uv/uvxy.toml".to_string()];
    assert_eq!(config_files(Some("/tmp/mine.toml"), paths.clone()), ["/tmp/mine.toml"]);
    assert_eq!(config_files(Some(""), paths.clone()), paths);

    assert_eq!(config_files(None, paths).len(), 2);
}

#[test]
fn missing_files_are_skipped() {
    let paths = vec!["/etc/uv/uvxy.toml".to_string(), "/xdg/uv/uvxy.toml".to_string()];
    let cands = config_files(None, paths);
    let reads = [FileRead::Missing, FileRead::Text("[commands]\n".to_string())];
    let files = gather(&cands, &reads).unwrap();
    assert_eq!(files.len(), 1);
    assert_eq!(files[0].path, "/xdg/uv/uvxy.toml");
    assert_eq!(files[0].text, "[commands]\n");

    let none = gather(&cands, &[FileRead::Missing, FileRead::Missing]).unwrap();
    assert!(none.is_empty());
}

#[test]
fn a_missing_override_file_reads_as_no_file() {
    let paths = config_files(Some("/tmp/mine.toml"), Vec::new());
    let files = gather(&paths, &[FileRead::Missing]).unwrap();
    assert!(files.is_empty());
    let config = load(&files).unwrap();
    assert_eq!(config.mappings.len(), 0);
    assert!(config.files_read.is_empty());
}

#[test]
fn a_failed_read_is_an_error_that_names_the_file() {
    let paths = vec!["/etc/uv/uvxy.toml".to_string(), "/xdg/uv/uvxy.toml".to_string()];
    let cands = config_files(None, paths);
    let reads = [
        FileRead::Text("[commands]\n".to_string()),
        FileRead::Failed("permission denied".to_string()),
    ];
    assert_eq!(
        gather(&cands, &reads).unwrap_err(),
        "cannot read the configuration file `/xdg/uv/uvxy.toml`: permission denied"
    );
}

#[test]
fn the_default_configuration_is_empty() {
    let config = uvxy::config::Config::default();
    assert_eq!(config.mappings.len(), 0);
    assert_eq!(config.sources.len(), 0);
    assert!(config.files_read.is_empty());
    let copy = config.clone();
    assert!(copy.files_read.is_empty());
}

#[test]
fn dotted_keys_make_the_table() {
    let map = parse("commands.sphinx-build = \"sphinx\"\ncommands . \"my tool\" = 'x'\n").unwrap();
    assert_eq!(map.len(), 2);
    assert_eq!(map.get("sphinx-build").unwrap(), "sphinx");
    assert_eq!(map.get("my tool").unwrap(), "x");
}

#[test]
fn an_inline_table_makes_the_table() {
    let map = parse("commands = { http = \"httpie\", \"fab\" = 'fabric' } # two\n").unwrap();
    assert_eq!(map.len(), 2);
    assert_eq!(map.get("http").unwrap(), "httpie");
    assert_eq!(map.get("fab").unwrap(), "fabric");
    assert_eq!(parse("commands = {}\n").unwrap().len(), 0);
    assert_eq!(
        parse("commands = { x = \"a\", }\n").unwrap_err(),
        ParseError::Syntax { line: 1 }
    );
}

#[test]
fn multi_line_strings_parse() {
    let text = "[commands]\n\
                a = \"\"\"\nacme-\\\n   tool\"\"\"\n\
                b = '''\nraw\\n\nline'''\n\
                c = \"\"\"say \"hi\"\"\"\"\n\
                d = '''it''s'''\n";
    let map = parse(text).unwrap();
    assert_eq!(map.get("a").unwrap(), "acme-tool");
    assert_eq!(map.get("b").unwrap(), "raw\\n\nline");
    assert_eq!(map.get("c").unwrap(), "say \"hi\"");
    assert_eq!(map.get("d").unwrap(), "it''s");
}

#[test]
fn an_error_after_a_multi_line_string_names_its_own_line() {
    assert_eq!(
        parse("[commands]\nx = \"\"\"a\nb\"\"\"\ny = 3\n").unwrap_err(),
        ParseError::NotAString {
            line: 4,
            key: "y".to_string()
        }
    );
}

#[test]
fn the_table_may_be_made_once() {
    assert_eq!(
        parse("commands.x = \"a\"\n[commands]\n").unwrap_err(),
        ParseError::DuplicateTable { line: 2 }
    );
    assert_eq!(
        parse("commands = { x = \"a\" }\ncommands.y = \"b\"\n").unwrap_err(),
        ParseError::DuplicateTable { line: 2 }
    );
    assert_eq!(
        parse("commands.x = \"a\"\ncommands = { y = \"b\" }\n").unwrap_err(),
        ParseError::DuplicateTable { line: 2 }
    );
    assert_eq!(
        parse("commands.x = \"a\"\ncommands.x = \"b\"\n").unwrap_err(),
        ParseError::DuplicateKey {
            line: 2,
            key: "x".to_string()
        }
    );
}

#[test]
fn a_command_that_holds_a_table_is_an_error() {
    assert_eq!(
        parse("commands.x.y = \"a\"\n").unwrap_err(),
        ParseError::NotAString {
            line: 1,
            key: "x".to_string()
        }
    );
    assert_eq!(
        parse("[commands.sub]\n").unwrap_err(),
        ParseError::NotAString {
            line: 1,
            key: "sub".to_string()
        }
    );
    assert_eq!(
        parse("[commands]\nx = { a = \"b\" }\n").unwrap_err(),
        ParseError::NotAString {
            line: 2,
            key: "x".to_string()
        }
    );
    assert_eq!(
        parse("commands = { x = 1 }\n").unwrap_err(),
        ParseError::NotAString {
            line: 1,
            key: "x".to_string()
        }
    );
}

#[test]
fn commands_that_is_no_table_is_an_error() {
    assert_eq!(
        parse("commands = \"x\"\n").unwrap_err(),
        ParseError::NotATable { line: 1 }
    );
    assert_eq!(
        ParseError::NotATable { line: 1 }.message(),
        "line 1: `commands` is not a table"
    );
}
