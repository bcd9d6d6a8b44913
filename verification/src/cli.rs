//! The decisions of the `uvxy` command: which namespaced flag answers, and
//! the text that `--uvxy-explain` prints.
use vstd::prelude::*;

use crate::config::Config;
use crate::flags::FlagTable;
use crate::rewrite::{rewrite, rewrite_spec, table_view, two_pins_message, Plan, views};
use crate::sorted::StrMap;
use crate::text::{chars_of, push_char};
use crate::uvbin::{Uv, UvKind};

verus! {

/// The version that `--uvxy-version` prints.
pub const VERSION: &'static str = "0.1.0";

/// The text that `--uvxy-help` prints.
pub const HELP: &'static str = "uvxy runs uv tool run, and it supplies the --from argument.

Usage: uvxy [UVX OPTIONS] <COMMAND> [ARGS]...

uvxy accepts every argument that uvx accepts, and passes it through.
uvxy reads its own flags from the --uvxy- namespace:

  --uvxy-help      Print this message
  --uvxy-version   Print the uvxy version
  --uvxy-explain   Print the command uvxy would run, and do not run it

uvxy reads mappings from the [commands] table of uvxy.toml:

  [commands]
  sphinx-build = \"sphinx\"
";

/// A character that a shell reads as itself outside quotes.
pub open spec fn is_safe_char(c: char) -> bool {
    ('a' <= c && c <= 'z') || ('A' <= c && c <= 'Z') || ('0' <= c && c <= '9') || c == '@' || c
        == '%' || c == '+' || c == '=' || c == ':' || c == ',' || c == '.' || c == '/' || c == '-'
        || c == '_'
}

/// An argument that a shell reads back unquoted: not empty, and made of safe
/// characters only.
pub open spec fn is_safe(a: Seq<char>) -> bool {
    a.len() > 0 && forall|i: int| 0 <= i < a.len() ==> is_safe_char(#[trigger] a[i])
}

/// The text between single quotes that stands for `a`: each `'` becomes
/// `'\''`, which closes the quotes, writes an escaped quote, and opens them
/// again.
pub open spec fn quote_body(a: Seq<char>) -> Seq<char>
    decreases a.len(),
{
    if a.len() == 0 {
        seq![]
    } else {
        quote_body(a.drop_last()) + if a.last() == '\'' {
            seq!['\'', '\\', '\'', '\'']
        } else {
            seq![a.last()]
        }
    }
}

/// One argument as a shell word.
pub open spec fn quote_word(a: Seq<char>) -> Seq<char> {
    if is_safe(a) {
        a
    } else {
        seq!['\''] + quote_body(a) + seq!['\'']
    }
}

/// The words, with one space between each two.
pub open spec fn join_words(ws: Seq<Seq<char>>) -> Seq<char>
    decreases ws.len(),
{
    if ws.len() == 0 {
        seq![]
    } else if ws.len() == 1 {
        ws[0]
    } else {
        join_words(ws.drop_last()) + seq![' '] + ws.last()
    }
}

/// The line that a shell reads back as `args`.
pub open spec fn shell_quote_spec(args: Seq<Seq<char>>) -> Seq<char> {
    join_words(args.map_values(|a: Seq<char>| quote_word(a)))
}

fn quote_word_exec(a: &str) -> (r: String)
    ensures
        r@ == quote_word(a@),
{
    let v = chars_of(a);
    let mut safe = v.len() > 0;
    let mut i: usize = 0;
    while i < v.len()
        invariant
            i <= v@.len(),
            safe == (v@.len() > 0 && forall|k: int| 0 <= k < i ==> is_safe_char(#[trigger] v@[k])),
        decreases v@.len() - i,
    {
        let c = v[i];
        if !(('a' <= c && c <= 'z') || ('A' <= c && c <= 'Z') || ('0' <= c && c <= '9') || c
            == '@' || c == '%' || c == '+' || c == '=' || c == ':' || c == ',' || c == '.' || c
            == '/' || c == '-' || c == '_') {
            safe = false;
        }
        i += 1;
    }
    if safe {
        return String::from_str(a);
    }
    let mut r = String::new();
    push_char(&mut r, '\'');
    let mut j: usize = 0;
    assert(v@.take(0) =~= Seq::<char>::empty());
    while j < v.len()
        invariant
            j <= v@.len(),
            r@ == seq!['\''] + quote_body(v@.take(j as int)),
        decreases v@.len() - j,
    {
        assert(v@.take(j + 1).drop_last() =~= v@.take(j as int));
        let ghost before = r@;
        if v[j] == '\'' {
            push_char(&mut r, '\'');
            push_char(&mut r, '\\');
            push_char(&mut r, '\'');
            push_char(&mut r, '\'');
            assert(r@ =~= before + seq!['\'', '\\', '\'', '\'']);
        } else {
            push_char(&mut r, v[j]);
            assert(r@ =~= before + seq![v@[j as int]]);
        }
        j += 1;
    }
    assert(v@.take(v@.len() as int) =~= v@);
    push_char(&mut r, '\'');
    assert(r@ =~= seq!['\''] + quote_body(v@) + seq!['\'']);
    r
}

/// Join arguments into one line that a shell reads back as the same
/// arguments.
pub fn shell_quote(args: &[String]) -> (r: String)
    ensures
        r@ == shell_quote_spec(views(args@)),
{
    let ghost ws = views(args@).map_values(|a: Seq<char>| quote_word(a));
    let mut r = String::new();
    let mut i: usize = 0;
    assert(ws.take(0) =~= Seq::<Seq<char>>::empty());
    while i < args.len()
        invariant
            i <= args@.len(),
            ws == views(args@).map_values(|a: Seq<char>| quote_word(a)),
            ws.len() == args@.len(),
            r@ == join_words(ws.take(i as int)),
        decreases args@.len() - i,
    {
        let w = quote_word_exec(args[i].as_str());
        assert(w@ == ws[i as int]);
        assert(ws.take(i + 1).drop_last() =~= ws.take(i as int));
        let ghost before = r@;
        if i > 0 {
            push_char(&mut r, ' ');
        } else {
            assert(before =~= Seq::<char>::empty());
        }
        r.append(w.as_str());
        assert(r@ =~= join_words(ws.take(i + 1)));
        i += 1;
    }
    assert(ws.take(args@.len() as int) =~= ws);
    r
}

/// What `uvxy` does once it has a plan.
#[derive(Debug, PartialEq, Eq)]
pub enum Action {
    /// Print the uvxy help.
    Help,
    /// Print the uvxy version.
    Version,
    /// Print the command that uvxy would run, and run nothing.
    Explain,
    /// Refuse a namespaced flag that uvxy does not know.
    Unknown(String),
    /// Hand the arguments to uv.
    Run,
}

fn eq_str(a: &str, b: &str) -> (r: bool)
    ensures
        r == (a@ == b@),
{
    crate::sorted::compare_strings(a, b) == 0
}

/// Decide what `uvxy` does with the namespaced flags of its plan.
///
/// The first namespaced flag decides: `--uvxy-help`, `--uvxy-version`,
/// `--uvxy-explain`, or an unknown flag. Without a namespaced flag, `uvxy`
/// runs uv.
pub fn action(uvxy_flags: &[String]) -> (r: Action)
    ensures
        uvxy_flags@.len() == 0 ==> r == Action::Run,
        uvxy_flags@.len() > 0 ==> {
            let first = uvxy_flags@[0]@;
            if first == "--uvxy-help"@ {
                r == Action::Help
            } else if first == "--uvxy-version"@ {
                r == Action::Version
            } else if first == "--uvxy-explain"@ {
                r == Action::Explain
            } else {
                r matches Action::Unknown(f) && f@ == first
            }
        },
{
    if uvxy_flags.len() == 0 {
        return Action::Run;
    }
    let first = uvxy_flags[0].as_str();
    if eq_str(first, "--uvxy-help") {
        Action::Help
    } else if eq_str(first, "--uvxy-version") {
        Action::Version
    } else if eq_str(first, "--uvxy-explain") {
        Action::Explain
    } else {
        Action::Unknown(String::from_str(first))
    }
}

/// The lines about the mapping: the mapping and its source, or that none
/// applied.
pub open spec fn mapping_lines(
    applied: Option<(Seq<char>, Seq<char>)>,
    sources: Map<Seq<char>, Seq<char>>,
) -> Seq<Seq<char>> {
    match applied {
        Some((c, s)) => seq![
            "mapping: "@ + c + " = \""@ + s + "\""@,
            if sources.contains_key(c) {
                "source:  "@ + sources[c]
            } else {
                "source:  unknown"@
            },
        ],
        None => seq!["mapping: none applied"@],
    }
}

/// The lines about the configuration files: the error that stopped the read,
/// or each file read, or that no file exists.
pub open spec fn config_lines(files_read: Seq<Seq<char>>, config_error: Option<Seq<char>>) -> Seq<
    Seq<char>,
> {
    match config_error {
        Some(e) => seq!["config:  "@ + e],
        None => if files_read.len() == 0 {
            seq!["config:  no file found"@]
        } else {
            files_read.map_values(|p: Seq<char>| "config:  "@ + p)
        },
    }
}

/// What `--uvxy-explain` prints, line by line: the command that `uvxy` would
/// run, the command it found, the mapping and where it came from, and the
/// configuration files.
pub open spec fn explain_spec(
    uv_path: Seq<char>,
    prefix: Seq<Seq<char>>,
    uv_args: Seq<Seq<char>>,
    command: Option<Seq<char>>,
    applied: Option<(Seq<char>, Seq<char>)>,
    sources: Map<Seq<char>, Seq<char>>,
    files_read: Seq<Seq<char>>,
    config_error: Option<Seq<char>>,
) -> Seq<Seq<char>> {
    seq![
        shell_quote_spec(seq![uv_path] + prefix + uv_args),
        match command {
            Some(c) => "command: "@ + c,
            None => "command: none found"@,
        },
    ] + mapping_lines(applied, sources) + config_lines(files_read, config_error)
}

fn cat(a: &str, b: &str) -> (r: String)
    ensures
        r@ == a@ + b@,
{
    let mut r = String::from_str(a);
    r.append(b);
    r
}

/// Build the lines that `--uvxy-explain` prints.
pub fn explain(
    uv_path: &str,
    prefix: &[&str],
    plan: &Plan,
    sources: &StrMap,
    files_read: &[String],
    config_error: Option<&str>,
) -> (r: Vec<String>)
    ensures
        views(r@) == explain_spec(
            uv_path@,
            prefix@.map_values(|p: &str| p@),
            views(plan.uv_args@),
            plan.view().command,
            plan.view().applied,
            sources@,
            views(files_read@),
            match config_error {
                Some(e) => Some(e@),
                None => None,
            },
        ),
{
    let mut words: Vec<String> = Vec::new();
    words.push(String::from_str(uv_path));
    let mut i: usize = 0;
    while i < prefix.len()
        invariant
            i <= prefix@.len(),
            views(words@) == seq![uv_path@] + prefix@.map_values(|p: &str| p@).take(i as int),
        decreases prefix@.len() - i,
    {
        let ghost before = views(words@);
        words.push(String::from_str(prefix[i]));
        assert(views(words@) =~= before.push(prefix@[i as int]@));
        assert(prefix@.map_values(|p: &str| p@).take(i + 1) =~= prefix@.map_values(|p: &str| p@).take(i as int).push(prefix@[i as int]@));
        i += 1;
    }
    assert(prefix@.map_values(|p: &str| p@).take(prefix@.len() as int) =~= prefix@.map_values(|p: &str| p@));
    let mut j: usize = 0;
    let ghost w0 = views(words@);
    while j < plan.uv_args.len()
        invariant
            j <= plan.uv_args@.len(),
            views(words@) == w0 + views(plan.uv_args@).take(j as int),
        decreases plan.uv_args@.len() - j,
    {
        let ghost before = views(words@);
        words.push(plan.uv_args[j].clone());
        assert(views(words@) =~= before.push(plan.uv_args@[j as int]@));
        assert(views(plan.uv_args@).take(j + 1) =~= views(plan.uv_args@).take(j as int).push(plan.uv_args@[j as int]@));
        j += 1;
    }
    assert(views(plan.uv_args@).take(plan.uv_args@.len() as int) =~= views(plan.uv_args@));
    let mut out: Vec<String> = Vec::new();
    out.push(shell_quote(words.as_slice()));
    match &plan.command {
        Some(c) => out.push(cat("command: ", c.as_str())),
        None => out.push(String::from_str("command: none found")),
    }
    let ghost head = views(out@);
    match &plan.applied {
        Some(a) => {
            let mut line = cat("mapping: ", a.command.as_str());
            line.append(" = \"");
            line.append(a.spec.as_str());
            line.append("\"");
            out.push(line);
            match sources.get(a.command.as_str()) {
                Some(p) => out.push(cat("source:  ", p.as_str())),
                None => out.push(String::from_str("source:  unknown")),
            }
        },
        None => out.push(String::from_str("mapping: none applied")),
    }
    let ghost mid = views(out@);
    assert(mid =~= head + mapping_lines(plan.view().applied, sources@));
    match config_error {
        Some(e) => out.push(cat("config:  ", e)),
        None => {
            if files_read.len() == 0 {
                out.push(String::from_str("config:  no file found"));
            } else {
                let mut k: usize = 0;
                while k < files_read.len()
                    invariant
                        k <= files_read@.len(),
                        views(out@) == mid + views(files_read@).take(k as int).map_values(
                            |p: Seq<char>| "config:  "@ + p,
                        ),
                    decreases files_read@.len() - k,
                {
                    let ghost before = views(out@);
                    out.push(cat("config:  ", files_read[k].as_str()));
                    assert(views(out@) =~= before.push("config:  "@ + files_read@[k as int]@));
                    assert(views(files_read@).take(k + 1).map_values(|p: Seq<char>| "config:  "@ + p)
                        =~= views(files_read@).take(k as int).map_values(|p: Seq<char>| "config:  "@ + p).push("config:  "@ + files_read@[k as int]@));
                    k += 1;
                }
                assert(views(files_read@).take(files_read@.len() as int) =~= views(files_read@));
            }
        },
    }
    proof {
        let cfg = match config_error {
            Some(e) => Some(e@),
            None => None,
        };
        assert(views(out@) =~= mid + config_lines(views(files_read@), cfg));
        assert(views(words@) =~= seq![uv_path@] + prefix@.map_values(|p: &str| p@) + views(plan.uv_args@));
    }
    out
}

/// What `uvxy` does in the end.
#[derive(Debug, PartialEq, Eq)]
pub enum Outcome {
    /// Write this text to standard output, and exit with success.
    Print(String),
    /// Write this message to standard error, and exit with failure.
    Fail(String),
    /// Hand `args` to the binary at `program`.
    Exec { program: String, args: Vec<String> },
}

/// An outcome, read as text.
pub enum OutcomeView {
    Print(Seq<char>),
    Fail(Seq<char>),
    Exec(Seq<char>, Seq<Seq<char>>),
}

impl Outcome {
    pub open spec fn view(&self) -> OutcomeView {
        match self {
            Outcome::Print(t) => OutcomeView::Print(t@),
            Outcome::Fail(m) => OutcomeView::Fail(m@),
            Outcome::Exec { program, args } => OutcomeView::Exec(program@, views(args@)),
        }
    }
}

/// The configuration as text: the mappings, the source of each, and the
/// files read; or the message of the error that stopped the read.
pub open spec fn config_view(config: &Result<Config, String>) -> Result<
    (Map<Seq<char>, Seq<char>>, Map<Seq<char>, Seq<char>>, Seq<Seq<char>>),
    Seq<char>,
> {
    match config {
        Ok(c) => Ok((c.mappings@, c.sources@, views(c.files_read@))),
        Err(e) => Err(e@),
    }
}

/// The arguments that come before the user's: `tool run` for `uv`, none
/// for `uvx`.
pub open spec fn prefix_of(kind: UvKind) -> Seq<Seq<char>> {
    match kind {
        UvKind::Uv => seq!["tool"@, "run"@],
        UvKind::Uvx => seq![],
    }
}

/// The message for a namespaced flag that `uvxy` does not know.
pub open spec fn unknown_flag_message(flag: Seq<char>) -> Seq<char> {
    "unknown flag `"@ + flag + "`. Run `uvxy --uvxy-help`."@
}

/// Each line, followed by a line break.
pub open spec fn text_of_lines(ls: Seq<Seq<char>>) -> Seq<char>
    decreases ls.len(),
{
    if ls.len() == 0 {
        seq![]
    } else {
        text_of_lines(ls.drop_last()) + ls.last().push('\n')
    }
}

/// What `uvxy` does with its arguments, given the binary at `uv_path`, the
/// flag table when one could be built, and the configuration.
///
/// A configuration that did not read counts as no mapping, and it stops a
/// run only: the help, the version and the explanation still answer, and the
/// explanation reports the error. A contradicting pin and an unknown
/// namespaced flag fail. Without a namespaced flag, uv gets the plan.
pub open spec fn outcome_spec(
    args: Seq<Seq<char>>,
    uv_path: Seq<char>,
    kind: UvKind,
    table: Option<Set<Seq<char>>>,
    config: Result<(Map<Seq<char>, Seq<char>>, Map<Seq<char>, Seq<char>>, Seq<Seq<char>>), Seq<char>>,
) -> OutcomeView {
    let mappings = match config {
        Ok((m, _, _)) => m,
        Err(_) => Map::empty(),
    };
    match rewrite_spec(args, table, mappings) {
        Err((c, s, v)) => OutcomeView::Fail(two_pins_message(c, s, v)),
        Ok(p) => if p.uvxy_flags.len() == 0 {
            match config {
                Err(e) => OutcomeView::Fail(e),
                Ok(_) => OutcomeView::Exec(uv_path, prefix_of(kind) + p.uv_args),
            }
        } else {
            let f = p.uvxy_flags[0];
            if f == "--uvxy-help"@ {
                OutcomeView::Print(HELP@)
            } else if f == "--uvxy-version"@ {
                OutcomeView::Print("uvxy "@ + VERSION@ + "\n"@)
            } else if f == "--uvxy-explain"@ {
                let (sources, files, error) = match config {
                    Ok((_, s, fs)) => (s, fs, None),
                    Err(e) => (Map::empty(), Seq::empty(), Some(e)),
                };
                OutcomeView::Print(
                    text_of_lines(
                        explain_spec(
                            uv_path,
                            prefix_of(kind),
                            p.uv_args,
                            p.command,
                            p.applied,
                            sources,
                            files,
                            error,
                        ),
                    ),
                )
            } else {
                OutcomeView::Fail(unknown_flag_message(f))
            }
        },
    }
}

/// A configuration that does not read stops a run, and nothing else: where
/// `uvxy` would hand the arguments to uv with no configuration at all, it
/// fails with the error's message; every other failure stays as it is; the
/// explanation still prints; and every namespaced flag but `--uvxy-explain`
/// answers exactly as with no configuration.
pub proof fn law_config_error_stops_only_a_run(
    args: Seq<Seq<char>>,
    uv_path: Seq<char>,
    kind: UvKind,
    table: Option<Set<Seq<char>>>,
    error: Seq<char>,
)
    ensures
        ({
            let bad = outcome_spec(args, uv_path, kind, table, Err(error));
            let none = outcome_spec(
                args,
                uv_path,
                kind,
                table,
                Ok((Map::empty(), Map::empty(), Seq::empty())),
            );
            &&& none is Exec ==> bad == OutcomeView::Fail(error)
            &&& none is Fail ==> bad == none
            &&& none is Print ==> bad is Print
            &&& (rewrite_spec(args, table, Map::empty()) matches Ok(p) && p.uvxy_flags.len() > 0
                && p.uvxy_flags[0] != "--uvxy-explain"@) ==> bad == none
        }),
{
}

/// Each line, followed by a line break, as one text.
fn join_lines(ls: &Vec<String>) -> (r: String)
    ensures
        r@ == text_of_lines(views(ls@)),
{
    let mut r = String::new();
    let mut i: usize = 0;
    while i < ls.len()
        invariant
            i <= ls@.len(),
            r@ == text_of_lines(views(ls@).take(i as int)),
        decreases ls@.len() - i,
    {
        assert(views(ls@).take(i + 1).drop_last() =~= views(ls@).take(i as int));
        r.append(ls[i].as_str());
        push_char(&mut r, '\n');
        i += 1;
    }
    assert(views(ls@).take(ls@.len() as int) =~= views(ls@));
    r
}

/// Decide what `uvxy` does with its arguments: print, fail, or hand the
/// arguments to uv. See `outcome_spec`.
pub fn finish(args: &[String], uv: &Uv, table: Option<&FlagTable>, config: &Result<Config, String>) -> (r:
    Outcome)
    ensures
        r.view() == outcome_spec(views(args@), uv.path@, uv.kind, table_view(table), config_view(config)),
{
    let no_mappings = StrMap::new();
    let mappings = match config {
        Ok(c) => &c.mappings,
        Err(_) => &no_mappings,
    };
    let plan = match rewrite(args, table, mappings) {
        Ok(p) => p,
        Err(e) => {
            return Outcome::Fail(e.message());
        },
    };
    let prefix = uv.prefix_args();
    let ghost pv = prefix@.map_values(|p: &str| p@);
    assert(pv =~= prefix_of(uv.kind));
    match action(plan.uvxy_flags.as_slice()) {
        Action::Run => match config {
            Err(e) => Outcome::Fail(e.clone()),
            Ok(_) => {
                let mut out: Vec<String> = Vec::new();
                let mut i: usize = 0;
                while i < prefix.len()
                    invariant
                        i <= prefix@.len(),
                        pv == prefix@.map_values(|p: &str| p@),
                        views(out@) == pv.take(i as int),
                    decreases prefix@.len() - i,
                {
                    out.push(String::from_str(prefix[i]));
                    assert(pv.take(i + 1) =~= pv.take(i as int).push(prefix@[i as int]@));
                    assert(views(out@) =~= pv.take(i + 1));
                    i += 1;
                }
                assert(pv.take(prefix@.len() as int) =~= pv);
                let ghost mid = views(out@);
                let mut j: usize = 0;
                while j < plan.uv_args.len()
                    invariant
                        j <= plan.uv_args@.len(),
                        views(out@) == mid + views(plan.uv_args@).take(j as int),
                    decreases plan.uv_args@.len() - j,
                {
                    let ghost before = views(out@);
                    out.push(plan.uv_args[j].clone());
                    assert(views(out@) =~= before.push(plan.uv_args@[j as int]@));
                    assert(views(plan.uv_args@).take(j + 1) =~= views(plan.uv_args@).take(
                        j as int,
                    ).push(plan.uv_args@[j as int]@));
                    j += 1;
                }
                assert(views(plan.uv_args@).take(plan.uv_args@.len() as int) =~= views(
                    plan.uv_args@,
                ));
                Outcome::Exec { program: uv.path.clone(), args: out }
            },
        },
        Action::Help => Outcome::Print(String::from_str(HELP)),
        Action::Version => {
            let mut t = String::from_str("uvxy ");
            t.append(VERSION);
            t.append("\n");
            Outcome::Print(t)
        },
        Action::Explain => {
            let no_sources = StrMap::new();
            let no_files: Vec<String> = Vec::new();
            let lines = match config {
                Ok(c) => explain(
                    uv.path.as_str(),
                    prefix.as_slice(),
                    &plan,
                    &c.sources,
                    c.files_read.as_slice(),
                    None,
                ),
                Err(e) => explain(
                    uv.path.as_str(),
                    prefix.as_slice(),
                    &plan,
                    &no_sources,
                    no_files.as_slice(),
                    Some(e.as_str()),
                ),
            };
            Outcome::Print(join_lines(&lines))
        },
        Action::Unknown(f) => {
            let mut m = String::from_str("unknown flag `");
            m.append(f.as_str());
            m.append("`. Run `uvxy --uvxy-help`.");
            Outcome::Fail(m)
        },
    }
}

/// The state of a POSIX shell that reads words: the words read, the word being
/// read, whether a word has started, and whether the shell stands inside
/// single quotes or after a backslash.
#[verifier::ext_equal]
pub struct ShellState {
    pub words: Seq<Seq<char>>,
    pub cur: Seq<char>,
    pub started: bool,
    pub quote: bool,
    pub escape: bool,
}

/// The shell reads one character. Inside single quotes every character but
/// `'` stands for itself. Outside them a space ends a word, `'` opens quotes,
/// and `\` makes the next character stand for itself.
pub open spec fn shell_step(st: ShellState, c: char) -> ShellState {
    if st.escape {
        ShellState { words: st.words, cur: st.cur.push(c), started: true, quote: false, escape: false }
    } else if st.quote {
        if c == '\'' {
            ShellState { words: st.words, cur: st.cur, started: st.started, quote: false, escape: false }
        } else {
            ShellState { words: st.words, cur: st.cur.push(c), started: st.started, quote: true, escape: false }
        }
    } else if c == ' ' {
        if st.started {
            ShellState { words: st.words.push(st.cur), cur: seq![], started: false, quote: false, escape: false }
        } else {
            st
        }
    } else if c == '\'' {
        ShellState { words: st.words, cur: st.cur, started: true, quote: true, escape: false }
    } else if c == '\\' {
        ShellState { words: st.words, cur: st.cur, started: true, quote: false, escape: true }
    } else {
        ShellState { words: st.words, cur: st.cur.push(c), started: true, quote: false, escape: false }
    }
}

/// The shell reads the characters of `s`.
pub open spec fn shell_run(s: Seq<char>, st: ShellState) -> ShellState
    decreases s.len(),
{
    if s.len() == 0 {
        st
    } else {
        shell_step(shell_run(s.drop_last(), st), s.last())
    }
}

/// The words that a shell reads out of `s`.
pub open spec fn shell_words(s: Seq<char>) -> Seq<Seq<char>> {
    let st = shell_run(
        s,
        ShellState { words: seq![], cur: seq![], started: false, quote: false, escape: false },
    );
    if st.started {
        st.words.push(st.cur)
    } else {
        st.words
    }
}

proof fn lemma_shell_run_one(c: char, st: ShellState)
    ensures
        shell_run(seq![c], st) == shell_step(st, c),
{
    assert(seq![c].drop_last() =~= Seq::<char>::empty());
    assert(shell_run(seq![c].drop_last(), st) == st);
}

proof fn lemma_shell_run_append(a: Seq<char>, b: Seq<char>, st: ShellState)
    ensures
        shell_run(a + b, st) == shell_run(b, shell_run(a, st)),
    decreases b.len(),
{
    if b.len() == 0 {
        assert(a + b =~= a);
    } else {
        lemma_shell_run_append(a, b.drop_last(), st);
        assert((a + b).drop_last() =~= a + b.drop_last());
        assert((a + b).last() == b.last());
    }
}

proof fn lemma_shell_run_push(a: Seq<char>, c: char, st: ShellState)
    ensures
        shell_run(a.push(c), st) == shell_step(shell_run(a, st), c),
{
    assert(a.push(c).drop_last() =~= a);
}

proof fn lemma_quote_body(a: Seq<char>, words: Seq<Seq<char>>, cur: Seq<char>)
    ensures
        shell_run(
            quote_body(a),
            ShellState { words, cur, started: true, quote: true, escape: false },
        ) =~= (ShellState { words, cur: cur + a, started: true, quote: true, escape: false }),
    decreases a.len(),
{
    let init = ShellState { words, cur, started: true, quote: true, escape: false };
    if a.len() == 0 {
        assert(cur + a =~= cur);
        assert(quote_body(a) =~= Seq::<char>::empty());
    } else {
        lemma_quote_body(a.drop_last(), words, cur);
        let mid = ShellState {
            words,
            cur: cur + a.drop_last(),
            started: true,
            quote: true,
            escape: false,
        };
        assert(shell_run(quote_body(a.drop_last()), init) == mid);
        let piece: Seq<char> = if a.last() == '\'' {
            seq!['\'', '\\', '\'', '\'']
        } else {
            seq![a.last()]
        };
        assert(quote_body(a) == quote_body(a.drop_last()) + piece);
        lemma_shell_run_append(quote_body(a.drop_last()), piece, init);
        assert(shell_run(quote_body(a), init) == shell_run(piece, mid));
        if a.last() == '\'' {
            let p1: Seq<char> = seq!['\''];
            let p2: Seq<char> = seq!['\'', '\\'];
            let p3: Seq<char> = seq!['\'', '\\', '\''];
            assert(p1 == Seq::<char>::empty().push('\''));
            assert(p2 == p1.push('\\'));
            assert(p3 == p2.push('\''));
            assert(piece == p3.push('\''));
            lemma_shell_run_push(Seq::<char>::empty(), '\'', mid);
            lemma_shell_run_push(p1, '\\', mid);
            lemma_shell_run_push(p2, '\'', mid);
            lemma_shell_run_push(p3, '\'', mid);
            assert((cur + a.drop_last()).push('\'') =~= cur + a);
        } else {
            lemma_shell_run_one(a.last(), mid);
            assert((cur + a.drop_last()).push(a.last()) =~= cur + a);
        }
    }
}

proof fn lemma_safe_run(a: Seq<char>, k: int, words: Seq<Seq<char>>)
    requires
        0 < k <= a.len(),
        forall|i: int| 0 <= i < a.len() ==> is_safe_char(#[trigger] a[i]),
    ensures
        shell_run(
            a.take(k),
            ShellState { words, cur: seq![], started: false, quote: false, escape: false },
        ) =~= (ShellState { words, cur: a.take(k), started: true, quote: false, escape: false }),
    decreases k,
{
    let init = ShellState { words, cur: seq![], started: false, quote: false, escape: false };
    assert(a.take(k) =~= a.take(k - 1).push(a[k - 1]));
    lemma_shell_run_push(a.take(k - 1), a[k - 1], init);
    assert(is_safe_char(a[k - 1]));
    if k == 1 {
        assert(a.take(0) =~= Seq::<char>::empty());
        assert(shell_run(a.take(0), init) == init);
        assert(seq![].push(a[0]) =~= a.take(1));
    } else {
        lemma_safe_run(a, k - 1, words);
        assert(a.take(k - 1).push(a[k - 1]) =~= a.take(k));
    }
}

/// After a shell reads one quoted word from the start of a word, it holds
/// the argument as the word being read.
proof fn lemma_quote_word(a: Seq<char>, words: Seq<Seq<char>>)
    ensures
        shell_run(
            quote_word(a),
            ShellState { words, cur: seq![], started: false, quote: false, escape: false },
        ) =~= (ShellState { words, cur: a, started: true, quote: false, escape: false }),
{
    let init = ShellState { words, cur: seq![], started: false, quote: false, escape: false };
    if is_safe(a) {
        lemma_safe_run(a, a.len() as int, words);
        assert(a.take(a.len() as int) =~= a);
    } else {
        let open: Seq<char> = seq!['\''];
        let opened = ShellState { words, cur: seq![], started: true, quote: true, escape: false };
        lemma_shell_run_one('\'', init);
        assert(shell_run(open, init) =~= opened);
        lemma_shell_run_append(open, quote_body(a), init);
        lemma_quote_body(a, words, seq![]);
        assert(Seq::<char>::empty() + a =~= a);
        let inside = ShellState { words, cur: a, started: true, quote: true, escape: false };
        assert(shell_run(open + quote_body(a), init) =~= inside);
        lemma_shell_run_append(open + quote_body(a), seq!['\''], init);
        lemma_shell_run_one('\'', inside);
        assert(quote_word(a) == open + quote_body(a) + seq!['\'']);
    }
}

proof fn lemma_join_words_run(args: Seq<Seq<char>>)
    requires
        args.len() > 0,
    ensures
        shell_run(
            join_words(args.map_values(|a: Seq<char>| quote_word(a))),
            ShellState { words: seq![], cur: seq![], started: false, quote: false, escape: false },
        ) =~= (ShellState {
            words: args.drop_last(),
            cur: args.last(),
            started: true,
            quote: false,
            escape: false,
        }),
    decreases args.len(),
{
    let init = ShellState { words: seq![], cur: seq![], started: false, quote: false, escape: false };
    let ws = args.map_values(|a: Seq<char>| quote_word(a));
    if args.len() == 1 {
        lemma_quote_word(args[0], seq![]);
        assert(args.drop_last() =~= Seq::<Seq<char>>::empty());
    } else {
        let prev = args.drop_last();
        assert(ws.drop_last() =~= prev.map_values(|a: Seq<char>| quote_word(a)));
        lemma_join_words_run(prev);
        let after_prev = ShellState {
            words: prev.drop_last(),
            cur: prev.last(),
            started: true,
            quote: false,
            escape: false,
        };
        let j = join_words(ws.drop_last());
        lemma_shell_run_append(j, seq![' '], init);
        lemma_shell_run_one(' ', after_prev);
        let spaced = ShellState {
            words: prev.drop_last().push(prev.last()),
            cur: seq![],
            started: false,
            quote: false,
            escape: false,
        };
        assert(shell_run(j + seq![' '], init) == spaced);
        lemma_shell_run_append(j + seq![' '], ws.last(), init);
        assert(ws.last() == quote_word(args.last()));
        lemma_quote_word(args.last(), prev.drop_last().push(prev.last()));
        assert(prev.drop_last().push(prev.last()) =~= prev);
    }
}

/// A shell reads the line that `shell_quote` builds back as the same
/// arguments.
pub proof fn law_shell_quote_roundtrip(args: Seq<Seq<char>>)
    ensures
        shell_words(shell_quote_spec(args)) == args,
{
    if args.len() == 0 {
        assert(args.map_values(|a: Seq<char>| quote_word(a)) =~= Seq::<Seq<char>>::empty());
        assert(args =~= Seq::<Seq<char>>::empty());
    } else {
        lemma_join_words_run(args);
        assert(args.drop_last().push(args.last()) =~= args);
    }
}

proof fn lemma_quote_body_len(a: Seq<char>)
    ensures
        quote_body(a).len() >= a.len(),
    decreases a.len(),
{
    if a.len() > 0 {
        lemma_quote_body_len(a.drop_last());
    }
}

/// A word stays bare exactly when it is not empty and holds only ASCII
/// letters, ASCII digits and the characters `@ % + = : , . / - _`, none of
/// which a shell reads as special; every other word, such as `httpie>=3`,
/// `a b` or the empty word, comes out quoted and so differs from itself.
pub proof fn law_bare_words(a: Seq<char>)
    ensures
        quote_word(a) == a <==> (a.len() > 0 && forall|i: int|
            0 <= i < a.len() ==> ('a' <= #[trigger] a[i] && a[i] <= 'z') || ('A' <= a[i] && a[i]
                <= 'Z') || ('0' <= a[i] && a[i] <= '9') || a[i] == '@' || a[i] == '%' || a[i]
                == '+' || a[i] == '=' || a[i] == ':' || a[i] == ',' || a[i] == '.' || a[i] == '/'
                || a[i] == '-' || a[i] == '_'),
{
    if !is_safe(a) {
        lemma_quote_body_len(a);
        assert(quote_word(a).len() == quote_body(a).len() + 2);
    }
}

} // verus!
