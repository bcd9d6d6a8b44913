//! Find the uv binary. The filesystem answers which candidate exists; these
//! tests supply that answer directly.

use uvxy::uvbin::{candidates, select, LookupError, Uv, UvCandidate, UvKind};

/// Decide which candidates exist from a list of existing files.
fn existing(cands: &[UvCandidate], files: &[&str]) -> Vec<bool> {
    cands
        .iter()
        .map(|c| files.iter().any(|f| *f == c.path))
        .collect()
}

/// Look up the binary the way `uvxy` does, against a fixed set of files.
fn lookup(
    uvxy_uv: Option<&str>,
    uv: Option<&str>,
    path: Option<&[&str]>,
    files: &[&str],
) -> Result<Uv, LookupError> {
    let entries: Vec<String> = path
        .unwrap_or(&[])
        .iter()
        .map(|s| s.to_string())
        .collect();
    let cands = candidates(uvxy_uv, uv, &entries, false);
    let found = existing(&cands, files);
    select(&cands, &found)
}

#[test]
fn prefix_args_for_uv_runs_tool_run() {
    let uv = Uv {
        path: "/usr/bin/uv".to_string(),
        kind: UvKind::Uv,
    };
    assert_eq!(uv.prefix_args(), &["tool", "run"]);
}

#[test]
fn prefix_args_for_uvx_are_empty() {
    let uvx = Uv {
        path: "/usr/bin/uvx".to_string(),
        kind: UvKind::Uvx,
    };
    assert!(uvx.prefix_args().is_empty());
}

#[test]
fn path_search_finds_uv() {
    let found = lookup(None, None, Some(&["/empty", "/dir"]), &["/dir/uv"]).unwrap();
    assert_eq!(found.path, "/dir/uv");
    assert_eq!(found.kind, UvKind::Uv);
}

#[test]
fn path_search_reads_the_first_entry_that_holds_uv() {
    let found = lookup(
        None,
        None,
        Some(&["/first", "/second"]),
        &["/first/uv", "/second/uv"],
    )
    .unwrap();
    assert_eq!(found.path, "/first/uv");
}

#[test]
fn path_search_reads_uvx_only_when_no_uv_exists() {
    let found = lookup(None, None, Some(&["/dir"]), &["/dir/uvx"]).unwrap();
    assert_eq!(found.path, "/dir/uvx");
    assert_eq!(found.kind, UvKind::Uvx);
}

#[test]
fn uv_wins_over_uvx_in_the_same_directory() {
    let found = lookup(None, None, Some(&["/dir"]), &["/dir/uv", "/dir/uvx"]).unwrap();
    assert_eq!(found.path, "/dir/uv");
    assert_eq!(found.kind, UvKind::Uv);
}

#[test]
fn uv_in_a_later_entry_wins_over_uvx_in_an_earlier_entry() {
    let found = lookup(None, None, Some(&["/a", "/b"]), &["/a/uvx", "/b/uv"]).unwrap();
    assert_eq!(found.path, "/b/uv");
    assert_eq!(found.kind, UvKind::Uv);
}

#[test]
fn uvxy_uv_wins_over_uv_and_over_path() {
    let found = lookup(
        Some("/dir/explicit-uv"),
        Some("/dir/env-uv"),
        Some(&["/dir"]),
        &["/dir/explicit-uv", "/dir/env-uv", "/dir/uv"],
    )
    .unwrap();
    assert_eq!(found.path, "/dir/explicit-uv");
    assert_eq!(found.kind, UvKind::Uv);
}

#[test]
fn uv_wins_over_path() {
    let found = lookup(
        None,
        Some("/dir/env-uv"),
        Some(&["/dir"]),
        &["/dir/env-uv", "/dir/uv"],
    )
    .unwrap();
    assert_eq!(found.path, "/dir/env-uv");
    assert_eq!(found.kind, UvKind::Uv);
}

#[test]
fn an_empty_variable_counts_as_an_absent_variable() {
    let found = lookup(Some(""), Some(""), Some(&["/dir"]), &["/dir/uv"]).unwrap();
    assert_eq!(found.path, "/dir/uv");
}

#[test]
fn an_empty_path_entry_is_skipped() {
    let cands = candidates(None, None, &["".to_string(), "/dir".to_string()], false);
    let paths: Vec<&str> = cands.iter().map(|c| c.path.as_str()).collect();
    assert_eq!(paths, ["/dir/uv", "/dir/uvx"]);
}

#[test]
fn a_missing_uvxy_uv_is_an_error() {
    let error = lookup(
        Some("/dir/absent-uv"),
        None,
        Some(&["/dir"]),
        &["/dir/uv"],
    )
    .unwrap_err();
    assert_eq!(
        error,
        LookupError::MissingExplicit {
            path: "/dir/absent-uv".to_string()
        }
    );
    let message = error.message(false);
    assert!(message.contains("$UVXY_UV"), "{message}");
    assert!(message.contains("absent-uv"), "{message}");
}

#[test]
fn a_missing_uv_variable_yields_the_path_search() {
    let found = lookup(None, Some("/dir/absent-uv"), Some(&["/dir"]), &["/dir/uv"]).unwrap();
    assert_eq!(found.path, "/dir/uv");
}

#[test]
fn no_binary_yields_an_error_that_names_the_installation() {
    let error = lookup(None, None, Some(&["/dir"]), &[]).unwrap_err();
    assert_eq!(error, LookupError::NotFound);
    let message = error.message(false);
    assert!(message.contains("Install uv"), "{message}");
}

#[test]
fn an_absent_path_yields_an_error() {
    let error = lookup(None, None, None, &[]).unwrap_err();
    assert_eq!(error, LookupError::NotFound);
    assert!(error.message(false).contains("Install uv"));
}

#[test]
fn the_not_found_message_names_both_binaries() {
    assert_eq!(
        LookupError::NotFound.message(false),
        "no `uv` binary and no `uvx` binary on PATH. Install uv from \
         https://docs.astral.sh/uv/getting-started/installation/, or set $UVXY_UV to the \
         path of the uv binary."
    );
    assert!(LookupError::NotFound
        .message(true)
        .starts_with("no `uv.exe` binary and no `uvx.exe` binary on PATH."));
}

#[test]
fn the_missing_explicit_message_names_the_path() {
    let error = LookupError::MissingExplicit {
        path: "/opt/uv".to_string(),
    };
    assert_eq!(
        error.message(false),
        "$UVXY_UV names `/opt/uv`, and no file exists at that path"
    );
}

#[test]
fn windows_names_carry_the_exe_suffix() {
    let cands = candidates(None, None, &["C:\\uv".to_string()], true);
    let paths: Vec<&str> = cands.iter().map(|c| c.path.as_str()).collect();
    assert_eq!(paths, ["C:\\uv\\uv.exe", "C:\\uv\\uvx.exe"]);
}

#[test]
fn a_bare_drive_entry_joins_without_a_separator() {
    let cands = candidates(None, None, &["C:".to_string()], true);
    let paths: Vec<&str> = cands.iter().map(|c| c.path.as_str()).collect();
    assert_eq!(paths, ["C:uv.exe", "C:uvx.exe"]);
}
