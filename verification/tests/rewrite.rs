//! Find the command, and build the arguments for uv.

use uvxy::flags::FlagTable;
use uvxy::rewrite::{rewrite, Applied, Mappings};

/// The flags that take a value in these tests.
fn table() -> FlagTable {
    FlagTable::from_flags(&[
        "--with",
        "-w",
        "--from",
        "--python",
        "-p",
        "--with-requirements",
        "-c",
    ])
}

fn mappings() -> Mappings {
    let mut m = Mappings::new();
    for (k, v) in [
        ("sphinx-build", "sphinx"),
        ("mytool", "acme-mytool"),
        ("pinned", "acme-pinned==2.1"),
        ("black", "black-nightly"),
    ] {
        m.insert(k.to_string(), v.to_string());
    }
    m
}

fn owned(args: &[&str]) -> Vec<String> {
    args.iter().map(|s| s.to_string()).collect()
}

/// One test case. `use_table` false gives the fallback of ADR 0002.
struct Case {
    name: &'static str,
    args: &'static [&'static str],
    use_table: bool,
    uv_args: &'static [&'static str],
    uvxy_flags: &'static [&'static str],
    command: Option<&'static str>,
    applied: Option<(&'static str, &'static str)>,
}

const CASES: &[Case] = &[
    Case {
        name: "a flag value never reads as the command",
        args: &["--with", "sphinx-rtd-theme", "sphinx-build", "docs", "out"],
        use_table: true,
        uv_args: &[
            "--with",
            "sphinx-rtd-theme",
            "--from",
            "sphinx",
            "sphinx-build",
            "docs",
            "out",
        ],
        uvxy_flags: &[],
        command: Some("sphinx-build"),
        applied: Some(("sphinx-build", "sphinx")),
    },
    Case {
        name: "the second black is the command",
        args: &["--with", "black", "black"],
        use_table: true,
        uv_args: &["--with", "black", "--from", "black-nightly", "black"],
        uvxy_flags: &[],
        command: Some("black"),
        applied: Some(("black", "black-nightly")),
    },
    Case {
        name: "an argument after the command stays untouched",
        args: &["sphinx-build", "--with", "foo"],
        use_table: true,
        uv_args: &["--from", "sphinx", "sphinx-build", "--with", "foo"],
        uvxy_flags: &[],
        command: Some("sphinx-build"),
        applied: Some(("sphinx-build", "sphinx")),
    },
    Case {
        name: "a user --from wins",
        args: &["--from", "x", "sphinx-build"],
        use_table: true,
        uv_args: &["--from", "x", "sphinx-build"],
        uvxy_flags: &[],
        command: Some("sphinx-build"),
        applied: None,
    },
    Case {
        name: "a user --from=value wins",
        args: &["--from=x", "sphinx-build"],
        use_table: true,
        uv_args: &["--from=x", "sphinx-build"],
        uvxy_flags: &[],
        command: Some("sphinx-build"),
        applied: None,
    },
    Case {
        name: "--from goes before the separator",
        args: &["--", "sphinx-build"],
        use_table: true,
        uv_args: &["--from", "sphinx", "--", "sphinx-build"],
        uvxy_flags: &[],
        command: Some("sphinx-build"),
        applied: Some(("sphinx-build", "sphinx")),
    },
    Case {
        name: "the separator ends the namespace",
        args: &["--", "--uvxy-thing"],
        use_table: true,
        uv_args: &["--", "--uvxy-thing"],
        uvxy_flags: &[],
        command: Some("--uvxy-thing"),
        applied: None,
    },
    Case {
        name: "a namespaced flag reaches uv never",
        args: &["--uvxy-explain", "mytool"],
        use_table: true,
        uv_args: &["--from", "acme-mytool", "mytool"],
        uvxy_flags: &["--uvxy-explain"],
        command: Some("mytool"),
        applied: Some(("mytool", "acme-mytool")),
    },
    Case {
        name: "the version moves to the spec",
        args: &["mytool@1.2"],
        use_table: true,
        uv_args: &["--from", "acme-mytool@1.2", "mytool"],
        uvxy_flags: &[],
        command: Some("mytool"),
        applied: Some(("mytool", "acme-mytool@1.2")),
    },
    Case {
        name: "a flag that holds its own value frees the next argument",
        args: &["--python=3.12", "mytool"],
        use_table: true,
        uv_args: &["--python=3.12", "--from", "acme-mytool", "mytool"],
        uvxy_flags: &[],
        command: Some("mytool"),
        applied: Some(("mytool", "acme-mytool")),
    },
    Case {
        name: "a command that no mapping names stays unchanged",
        args: &["--with", "foo", "othertool", "-x"],
        use_table: true,
        uv_args: &["--with", "foo", "othertool", "-x"],
        uvxy_flags: &[],
        command: Some("othertool"),
        applied: None,
    },
    Case {
        name: "no argument gives no command",
        args: &[],
        use_table: true,
        uv_args: &[],
        uvxy_flags: &[],
        command: None,
        applied: None,
    },
    Case {
        name: "no table and a leading flag gives no command",
        args: &["--with", "foo", "mytool"],
        use_table: false,
        uv_args: &["--with", "foo", "mytool"],
        uvxy_flags: &[],
        command: None,
        applied: None,
    },
    Case {
        name: "no table reads the first argument as the command",
        args: &["mytool", "arg"],
        use_table: false,
        uv_args: &["--from", "acme-mytool", "mytool", "arg"],
        uvxy_flags: &[],
        command: Some("mytool"),
        applied: Some(("mytool", "acme-mytool")),
    },
];

#[test]
fn cases() {
    let table = table();
    let mappings = mappings();
    for case in CASES {
        let table = if case.use_table { Some(&table) } else { None };
        let plan = rewrite(&owned(case.args), table, &mappings)
            .unwrap_or_else(|err| panic!("{}: {}", case.name, err.message()));
        assert_eq!(plan.uv_args, owned(case.uv_args), "uv_args: {}", case.name);
        assert_eq!(
            plan.uvxy_flags,
            owned(case.uvxy_flags),
            "uvxy_flags: {}",
            case.name
        );
        assert_eq!(
            plan.command.as_deref(),
            case.command,
            "command: {}",
            case.name
        );
        let applied = case.applied.map(|(command, spec)| Applied {
            command: command.to_string(),
            spec: spec.to_string(),
        });
        assert_eq!(plan.applied, applied, "applied: {}", case.name);
    }
}

#[test]
fn two_pins_give_an_error() {
    let err = rewrite(&owned(&["pinned@1.2"]), Some(&table()), &mappings())
        .expect_err("two pins must give an error");
    let message = err.message();
    assert!(message.contains("acme-pinned==2.1"), "{message}");
    assert!(message.contains("1.2"), "{message}");
    assert!(message.contains("pinned"), "{message}");
}

#[test]
fn a_pinned_spec_without_a_typed_version_works() {
    let plan = rewrite(&owned(&["pinned", "run"]), Some(&table()), &mappings()).unwrap();
    assert_eq!(
        plan.uv_args,
        owned(&["--from", "acme-pinned==2.1", "pinned", "run"])
    );
}

#[test]
fn a_separator_at_the_end_gives_no_command() {
    let plan = rewrite(
        &owned(&["--with", "foo", "--"]),
        Some(&table()),
        &mappings(),
    )
    .unwrap();
    assert_eq!(plan.uv_args, owned(&["--with", "foo", "--"]));
    assert_eq!(plan.command, None);
    assert_eq!(plan.applied, None);
}

#[test]
fn a_short_flag_takes_its_value() {
    let plan = rewrite(
        &owned(&["-p", "3.12", "-w", "extra", "mytool"]),
        Some(&table()),
        &mappings(),
    )
    .unwrap();
    assert_eq!(
        plan.uv_args,
        owned(&[
            "-p",
            "3.12",
            "-w",
            "extra",
            "--from",
            "acme-mytool",
            "mytool"
        ])
    );
}

#[test]
fn rewrite_a_namespaced_flag_after_the_command_reaches_the_command() {
    let plan = rewrite(
        &owned(&["mytool", "--uvxy-foo"]),
        Some(&table()),
        &mappings(),
    )
    .unwrap();
    assert_eq!(
        plan.uv_args,
        owned(&["--from", "acme-mytool", "mytool", "--uvxy-foo"])
    );
    assert!(plan.uvxy_flags.is_empty());
}

#[test]
fn a_namespaced_flag_holds_its_order() {
    let plan = rewrite(
        &owned(&["--uvxy-explain", "--uvxy-version", "--with", "x", "mytool"]),
        Some(&table()),
        &mappings(),
    )
    .unwrap();
    assert_eq!(
        plan.uvxy_flags,
        owned(&["--uvxy-explain", "--uvxy-version"])
    );
    assert_eq!(
        plan.uv_args,
        owned(&["--with", "x", "--from", "acme-mytool", "mytool"])
    );
}

#[test]
fn no_table_removes_a_leading_namespaced_flag() {
    let plan = rewrite(&owned(&["--uvxy-explain", "mytool"]), None, &mappings()).unwrap();
    assert_eq!(plan.uvxy_flags, owned(&["--uvxy-explain"]));
    assert_eq!(plan.uv_args, owned(&["--from", "acme-mytool", "mytool"]));
}

#[test]
fn no_table_keeps_the_separator_rule() {
    let plan = rewrite(&owned(&["--", "mytool"]), None, &mappings()).unwrap();
    assert_eq!(
        plan.uv_args,
        owned(&["--from", "acme-mytool", "--", "mytool"])
    );
    assert_eq!(plan.command.as_deref(), Some("mytool"));
}

#[test]
fn a_version_after_the_command_reaches_the_command() {
    let plan = rewrite(
        &owned(&["mytool", "other@2.0"]),
        Some(&table()),
        &mappings(),
    )
    .unwrap();
    assert_eq!(
        plan.uv_args,
        owned(&["--from", "acme-mytool", "mytool", "other@2.0"])
    );
}

#[test]
fn an_unmapped_command_keeps_its_version() {
    let plan = rewrite(&owned(&["othertool@1.2"]), Some(&table()), &mappings()).unwrap();
    assert_eq!(plan.uv_args, owned(&["othertool@1.2"]));
    assert_eq!(plan.command.as_deref(), Some("othertool"));
    assert_eq!(plan.applied, None);
}

#[test]
fn a_rewritten_line_rewrites_to_itself() {
    for args in [
        &["--with", "sphinx-rtd-theme", "sphinx-build", "docs"][..],
        &["--uvxy-explain", "mytool@1.2", "--uvxy-x"][..],
        &["--", "black"][..],
        &["othertool"][..],
    ] {
        let first = rewrite(&owned(args), Some(&table()), &mappings()).unwrap();
        let second = rewrite(&first.uv_args, Some(&table()), &mappings()).unwrap();
        assert_eq!(second.uv_args, first.uv_args, "{args:?}");
        assert_eq!(second.applied, None, "{args:?}");
        assert!(second.uvxy_flags.is_empty(), "{args:?}");
    }
}

#[test]
fn without_a_mapping_uv_gets_the_arguments_less_the_namespaced_flags() {
    let args = owned(&["--uvxy-explain", "-p", "3.12", "--uvxy-version", "ruff", "--uvxy-y"]);
    let plan = rewrite(&args, Some(&table()), &mappings()).unwrap();
    assert_eq!(plan.applied, None);
    assert_eq!(plan.uv_args, owned(&["-p", "3.12", "ruff", "--uvxy-y"]));
    assert_eq!(plan.uvxy_flags, owned(&["--uvxy-explain", "--uvxy-version"]));

    let unmapped = rewrite(&args, Some(&table()), &Mappings::new()).unwrap();
    assert_eq!(unmapped.uv_args, plan.uv_args);
}

#[test]
fn a_user_from_gives_the_plan_of_no_mapping() {
    let args = owned(&["--from", "sphinx==7.0", "sphinx-build", "docs"]);
    let mapped = rewrite(&args, Some(&table()), &mappings()).unwrap();
    let unmapped = rewrite(&args, Some(&table()), &Mappings::new()).unwrap();
    assert_eq!(mapped.uv_args, unmapped.uv_args);
    assert_eq!(mapped.applied, None);
    assert_eq!(mapped.command.as_deref(), Some("sphinx-build"));
}

#[test]
fn the_default_plan_is_empty() {
    let plan = uvxy::rewrite::Plan::default();
    assert!(plan.uv_args.is_empty());
    assert!(plan.uvxy_flags.is_empty());
    assert_eq!(plan.command, None);
    assert_eq!(plan.applied, None);
    let plan = rewrite(&owned(&["mytool"]), Some(&table()), &mappings()).unwrap();
    assert_eq!(plan.clone(), plan);
}
