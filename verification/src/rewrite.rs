//! Find the command, and build the arguments for uv.
//!
//! This module reads no file and starts no process.
use vstd::prelude::*;

use crate::flags::FlagTable;
use crate::sorted::StrMap;
use crate::text::{
    chars_of, copy_string, find_char, find_char_exec, lemma_find_char, push_char, string_of,
    string_of_all,
};

verus! {

/// A command name, mapped to a package spec.
pub type Mappings = StrMap;

/// The mapping that `uvxy` used.
#[derive(Debug, Clone, PartialEq, Eq)]
pub struct Applied {
    /// The command that the user typed, without any `@version` part.
    pub command: String,
    /// The value that `uvxy` gave to `--from`.
    pub spec: String,
}

/// What `uvxy` will do.
#[derive(Debug, Clone, PartialEq, Eq)]
pub struct Plan {
    /// The arguments for `uv tool run`. This list excludes `tool` and `run`.
    pub uv_args: Vec<String>,
    /// The `--uvxy-` flags that `uvxy` removed.
    pub uvxy_flags: Vec<String>,
    /// The command, when `uvxy` found one.
    pub command: Option<String>,
    /// The mapping, when `uvxy` applied one.
    pub applied: Option<Applied>,
}

impl Default for Plan {
    /// The plan with no argument, no namespaced flag, no command and no
    /// mapping.
    fn default() -> (r: Self)
        ensures
            r.uv_args@.len() == 0,
            r.uvxy_flags@.len() == 0,
            r.command is None,
            r.applied is None,
    {
        Plan { uv_args: Vec::new(), uvxy_flags: Vec::new(), command: None, applied: None }
    }
}

/// Why no plan came out.
#[derive(Debug, PartialEq, Eq)]
pub enum RewriteError {
    /// The mapping for `command` holds the version pin in `spec`, and the
    /// command line holds the pin `@version`.
    TwoPins { command: String, spec: String, version: String },
}

/// The message that names both pins of `command`.
pub open spec fn two_pins_message(command: Seq<char>, spec: Seq<char>, version: Seq<char>) -> Seq<
    char,
> {
    "the mapping for `"@ + command + "` holds the version pin `"@ + spec
        + "`, and the command holds the version pin `@"@ + version
        + "`. Remove one of the two pins."@
}

impl RewriteError {
    /// The message that names both pins.
    pub fn message(&self) -> (r: String)
        ensures
            match self {
                RewriteError::TwoPins { command, spec, version } => r@ == two_pins_message(
                    command@,
                    spec@,
                    version@,
                ),
            },
    {
        match self {
            RewriteError::TwoPins { command, spec, version } => {
                let mut r = String::from_str("the mapping for `");
                r.append(command.as_str());
                r.append("` holds the version pin `");
                r.append(spec.as_str());
                r.append("`, and the command holds the version pin `@");
                r.append(version.as_str());
                r.append("`. Remove one of the two pins.");
                r
            },
        }
    }
}

/// A plan, read as text.
#[verifier::ext_equal]
pub struct PlanView {
    pub uv_args: Seq<Seq<char>>,
    pub uvxy_flags: Seq<Seq<char>>,
    pub command: Option<Seq<char>>,
    pub applied: Option<(Seq<char>, Seq<char>)>,
}

/// The text of each string.
pub open spec fn views(v: Seq<String>) -> Seq<Seq<char>> {
    v.map_values(|s: String| s@)
}

impl Plan {
    pub open spec fn view(&self) -> PlanView {
        PlanView {
            uv_args: views(self.uv_args@),
            uvxy_flags: views(self.uvxy_flags@),
            command: match self.command {
                Some(c) => Some(c@),
                None => None,
            },
            applied: match self.applied {
                Some(a) => Some((a.command@, a.spec@)),
                None => None,
            },
        }
    }
}

/// The flags that a table holds, when there is a table.
pub open spec fn table_view(table: Option<&FlagTable>) -> Option<Set<Seq<char>>> {
    match table {
        Some(t) => Some(t@),
        None => None,
    }
}

/// `--`, the separator that ends the uv flags.
pub open spec fn separator() -> Seq<char> {
    seq!['-', '-']
}

/// `--uvxy-`, the prefix of a namespaced flag.
pub open spec fn namespace() -> Seq<char> {
    seq!['-', '-', 'u', 'v', 'x', 'y', '-']
}

/// `--from`.
pub open spec fn from_flag() -> Seq<char> {
    seq!['-', '-', 'f', 'r', 'o', 'm']
}

/// `--from=`.
pub open spec fn from_eq() -> Seq<char> {
    seq!['-', '-', 'f', 'r', 'o', 'm', '=']
}

/// Whether `a` starts with `p`.
pub open spec fn starts_with(a: Seq<char>, p: Seq<char>) -> bool {
    p.len() <= a.len() && a.take(p.len() as int) == p
}

/// A namespaced flag: it starts with `--uvxy-`.
pub open spec fn is_namespaced(a: Seq<char>) -> bool {
    starts_with(a, namespace())
}

/// A flag: a `-` and at least one more character.
pub open spec fn is_flag(a: Seq<char>) -> bool {
    a.len() > 1 && a[0] == '-'
}

/// A long flag that holds its own value, as in `--python=3.12`.
pub open spec fn carries_value(a: Seq<char>) -> bool {
    starts_with(a, separator()) && a.contains('=')
}

/// The user's own `--from`, as `--from` or `--from=value`.
pub open spec fn is_user_from(a: Seq<char>) -> bool {
    a == from_flag() || starts_with(a, from_eq())
}

/// Split `name@version` at the first `@`. A leading or a trailing `@` names
/// no version.
pub open spec fn split_version(a: Seq<char>) -> (Seq<char>, Option<Seq<char>>) {
    let at = find_char(a, '@', 0);
    if 0 < at && at + 1 < a.len() {
        (a.take(at), Some(a.skip(at + 1)))
    } else {
        (a, None)
    }
}

/// A character that marks a version constraint inside a package spec.
pub open spec fn is_constraint_char(c: char) -> bool {
    c == '=' || c == '<' || c == '>' || c == '!' || c == '~' || c == '@'
}

/// Whether a package spec already carries a version constraint.
pub open spec fn has_constraint(spec: Seq<char>) -> bool {
    exists|i: int| 0 <= i < spec.len() && is_constraint_char(#[trigger] spec[i])
}

/// The state of the left to right read of the arguments.
#[verifier::ext_equal]
pub struct ScanView {
    /// Every argument read so far, except a namespaced flag.
    pub uv_args: Seq<Seq<char>>,
    /// The namespaced flags, in the order of the arguments.
    pub uvxy_flags: Seq<Seq<char>>,
    /// The index of the command inside `uv_args`.
    pub command_at: Option<int>,
    /// The index inside `uv_args` that receives `--from`.
    pub insert_at: int,
    /// Whether the user passed `--from`.
    pub user_from: bool,
}

/// The read of the arguments from index `i` on, after the state `acc`.
///
/// A `--` ends the flags, and the argument after it is the command. A
/// namespaced flag leaves the arguments. A flag stays, and so does the
/// argument after it when the table says that the flag takes a value and the
/// flag does not hold its own. Without a table a flag ends the read with no
/// command. The first other argument is the command, and every argument after
/// it stays as it is.
pub open spec fn scan_from(
    args: Seq<Seq<char>>,
    table: Option<Set<Seq<char>>>,
    i: int,
    acc: ScanView,
) -> ScanView
    decreases args.len() - i,
{
    if i < 0 || i >= args.len() {
        acc
    } else {
        let arg = args[i];
        let n = acc.uv_args.len() as int;
        if arg == separator() {
            ScanView {
                uv_args: acc.uv_args + args.skip(i),
                uvxy_flags: acc.uvxy_flags,
                command_at: if i + 1 < args.len() {
                    Some(n + 1)
                } else {
                    None
                },
                insert_at: n,
                user_from: acc.user_from,
            }
        } else if is_namespaced(arg) {
            scan_from(
                args,
                table,
                i + 1,
                ScanView {
                    uv_args: acc.uv_args,
                    uvxy_flags: acc.uvxy_flags.push(arg),
                    command_at: acc.command_at,
                    insert_at: acc.insert_at,
                    user_from: acc.user_from,
                },
            )
        } else if is_flag(arg) {
            match table {
                None => ScanView {
                    uv_args: acc.uv_args + args.skip(i),
                    uvxy_flags: acc.uvxy_flags,
                    command_at: acc.command_at,
                    insert_at: acc.insert_at,
                    user_from: acc.user_from,
                },
                Some(t) => {
                    let uf = acc.user_from || is_user_from(arg);
                    if !carries_value(arg) && t.contains(arg) && i + 1 < args.len() {
                        scan_from(
                            args,
                            table,
                            i + 2,
                            ScanView {
                                uv_args: acc.uv_args.push(arg).push(args[i + 1]),
                                uvxy_flags: acc.uvxy_flags,
                                command_at: acc.command_at,
                                insert_at: acc.insert_at,
                                user_from: uf,
                            },
                        )
                    } else {
                        scan_from(
                            args,
                            table,
                            i + 1,
                            ScanView {
                                uv_args: acc.uv_args.push(arg),
                                uvxy_flags: acc.uvxy_flags,
                                command_at: acc.command_at,
                                insert_at: acc.insert_at,
                                user_from: uf,
                            },
                        )
                    }
                },
            }
        } else {
            ScanView {
                uv_args: acc.uv_args + args.skip(i),
                uvxy_flags: acc.uvxy_flags,
                command_at: Some(n),
                insert_at: n,
                user_from: acc.user_from,
            }
        }
    }
}

/// The state before the read.
pub open spec fn scan_start() -> ScanView {
    ScanView {
        uv_args: Seq::empty(),
        uvxy_flags: Seq::empty(),
        command_at: None,
        insert_at: 0,
        user_from: false,
    }
}

/// The read of all the arguments.
pub open spec fn scan(args: Seq<Seq<char>>, table: Option<Set<Seq<char>>>) -> ScanView {
    scan_from(args, table, 0, scan_start())
}

/// What `rewrite` gives: the plan, or the command, the spec and the version
/// of two contradicting pins.
pub open spec fn rewrite_spec(
    args: Seq<Seq<char>>,
    table: Option<Set<Seq<char>>>,
    mappings: Map<Seq<char>, Seq<char>>,
) -> Result<PlanView, (Seq<char>, Seq<char>, Seq<char>)> {
    let s = scan(args, table);
    match s.command_at {
        None => Ok(
            PlanView {
                uv_args: s.uv_args,
                uvxy_flags: s.uvxy_flags,
                command: None,
                applied: None,
            },
        ),
        Some(c) => {
            let name = split_version(s.uv_args[c]).0;
            let version = split_version(s.uv_args[c]).1;
            if s.user_from || !mappings.contains_key(name) {
                Ok(
                    PlanView {
                        uv_args: s.uv_args,
                        uvxy_flags: s.uvxy_flags,
                        command: Some(name),
                        applied: None,
                    },
                )
            } else {
                let spec = mappings[name];
                match version {
                    None => Ok(
                        PlanView {
                            uv_args: s.uv_args.insert(s.insert_at, spec).insert(
                                s.insert_at,
                                from_flag(),
                            ),
                            uvxy_flags: s.uvxy_flags,
                            command: Some(name),
                            applied: Some((name, spec)),
                        },
                    ),
                    Some(v) => if has_constraint(spec) {
                        Err((name, spec, v))
                    } else {
                        let pinned = spec + seq!['@'] + v;
                        Ok(
                            PlanView {
                                uv_args: s.uv_args.update(c, name).insert(
                                    s.insert_at,
                                    pinned,
                                ).insert(s.insert_at, from_flag()),
                                uvxy_flags: s.uvxy_flags,
                                command: Some(name),
                                applied: Some((name, pinned)),
                            },
                        )
                    },
                }
            }
        },
    }
}

/// Whether `v` starts with `p`.
fn starts_with_exec(v: &Vec<char>, p: &Vec<char>) -> (r: bool)
    ensures
        r == starts_with(v@, p@),
{
    if v.len() < p.len() {
        return false;
    }
    let mut i: usize = 0;
    while i < p.len()
        invariant
            p@.len() <= v@.len(),
            i <= p@.len(),
            forall|k: int| 0 <= k < i ==> v@[k] == p@[k],
        decreases p@.len() - i,
    {
        if v[i] != p[i] {
            assert(v@.take(p@.len() as int)[i as int] != p@[i as int]);
            return false;
        }
        i += 1;
    }
    assert(v@.take(p@.len() as int) =~= p@);
    true
}

fn eq_chars(v: &Vec<char>, p: &Vec<char>) -> (r: bool)
    ensures
        r == (v@ == p@),
{
    if v.len() != p.len() {
        return false;
    }
    let r = starts_with_exec(v, p);
    assert(v@.take(p@.len() as int) =~= v@);
    r
}

fn contains_char(v: &Vec<char>, c: char) -> (r: bool)
    ensures
        r == v@.contains(c),
{
    let j = find_char_exec(v, c, 0);
    proof {
        lemma_find_char(v@, c, 0);
    }
    j < v.len()
}

/// Report whether the argument reads as a flag.
fn is_flag_exec(a: &Vec<char>) -> (r: bool)
    ensures
        r == is_flag(a@),
{
    a.len() > 1 && a[0] == '-'
}

/// Report whether a long flag holds its own value, as in `--python=3.12`.
fn carries_value_exec(a: &Vec<char>) -> (r: bool)
    ensures
        r == carries_value(a@),
{
    let sep = vec!['-', '-'];
    assert(sep@ == separator());
    starts_with_exec(a, &sep) && contains_char(a, '=')
}

/// Split `name@version` at the first `@`.
fn split_version_exec(a: &Vec<char>) -> (r: (String, Option<String>))
    ensures
        r.0@ == split_version(a@).0,
        match split_version(a@).1 {
            None => r.1 is None,
            Some(v) => r.1 matches Some(w) && w@ == v,
        },
{
    let at = find_char_exec(a, '@', 0);
    proof {
        lemma_find_char(a@, '@', 0);
    }
    if 0 < at && at < a.len() && a.len() - at > 1 {
        let name = string_of(a, 0, at);
        let version = string_of(a, at + 1, a.len());
        assert(a@.subrange(0, at as int) == a@.take(at as int));
        assert(a@.subrange(at + 1, a@.len() as int) == a@.skip(at + 1));
        (name, Some(version))
    } else {
        let whole = string_of(a, 0, a.len());
        assert(a@.subrange(0, a@.len() as int) == a@);
        (whole, None)
    }
}

fn has_constraint_exec(spec: &Vec<char>) -> (r: bool)
    ensures
        r == has_constraint(spec@),
{
    let mut i: usize = 0;
    while i < spec.len()
        invariant
            i <= spec@.len(),
            forall|k: int| 0 <= k < i ==> !is_constraint_char(#[trigger] spec@[k]),
        decreases spec@.len() - i,
    {
        let c = spec[i];
        if c == '=' || c == '<' || c == '>' || c == '!' || c == '~' || c == '@' {
            return true;
        }
        i += 1;
    }
    false
}

/// Push clones of `args[i..]` onto `out`.
fn extend_from(out: &mut Vec<String>, args: &[String], i: usize)
    requires
        i <= args@.len(),
    ensures
        views(final(out)@) == views(old(out)@) + views(args@).skip(i as int),
        final(out)@.len() == old(out)@.len() + args@.len() - i,
{
    let ghost start = views(out@);
    let mut j = i;
    while j < args.len()
        invariant
            i <= j <= args@.len(),
            views(out@) == start + views(args@).subrange(i as int, j as int),
            out@.len() == old(out)@.len() + j - i,
        decreases args@.len() - j,
    {
        let ghost before = out@;
        out.push(args[j].clone());
        assert(views(out@) =~= views(before).push(args@[j as int]@));
        assert(views(args@).subrange(i as int, j + 1) =~= views(args@).subrange(
            i as int,
            j as int,
        ).push(args@[j as int]@));
        j += 1;
    }
    assert(views(args@).subrange(i as int, args@.len() as int) =~= views(args@).skip(i as int));
}

/// The result of one left to right read of the arguments.
struct Scan {
    uv_args: Vec<String>,
    uvxy_flags: Vec<String>,
    command_at: Option<usize>,
    insert_at: usize,
    user_from: bool,
}

impl Scan {
    spec fn view(&self) -> ScanView {
        ScanView {
            uv_args: views(self.uv_args@),
            uvxy_flags: views(self.uvxy_flags@),
            command_at: match self.command_at {
                Some(c) => Some(c as int),
                None => None,
            },
            insert_at: self.insert_at as int,
            user_from: self.user_from,
        }
    }
}

/// Read the arguments from left to right, and find the command.
fn scan_exec(args: &[String], table: Option<&FlagTable>) -> (r: Scan)
    ensures
        r.view() == scan(views(args@), table_view(table)),
        r.command_at matches Some(c) ==> c < r.uv_args@.len() && r.insert_at <= c,
        r.insert_at <= r.uv_args@.len(),
{
    let ghost av = views(args@);
    let ghost tv = table_view(table);
    let sep = vec!['-', '-'];
    let ns = vec!['-', '-', 'u', 'v', 'x', 'y', '-'];
    let from = vec!['-', '-', 'f', 'r', 'o', 'm'];
    let from_eq_v = vec!['-', '-', 'f', 'r', 'o', 'm', '='];
    assert(sep@ == separator());
    assert(ns@ == namespace());
    assert(from@ == from_flag());
    assert(from_eq_v@ == from_eq());
    let mut out = Scan {
        uv_args: Vec::new(),
        uvxy_flags: Vec::new(),
        command_at: None,
        insert_at: 0,
        user_from: false,
    };
    assert(views(out.uv_args@) =~= Seq::<Seq<char>>::empty());
    assert(views(out.uvxy_flags@) =~= Seq::<Seq<char>>::empty());
    assert(out.view() =~= scan_start());
    let mut i: usize = 0;
    while i < args.len()
        invariant
            i <= args@.len(),
            av == views(args@),
            tv == table_view(table),
            sep@ == separator(),
            ns@ == namespace(),
            from@ == from_flag(),
            from_eq_v@ == from_eq(),
            out.command_at is None,
            out.insert_at == 0,
            out.uv_args@.len() <= i,
            scan(av, tv) == scan_from(av, tv, i as int, out.view()),
        decreases args@.len() - i,
    {
        let arg = chars_of(args[i].as_str());
        assert(arg@ == av[i as int]);
        let ghost pre = out.view();
        if eq_chars(&arg, &sep) {
            let n = out.uv_args.len();
            extend_from(&mut out.uv_args, args, i);
            out.insert_at = n;
            if i + 1 < args.len() {
                out.command_at = Some(n + 1);
            }
            assert(out.view() =~= scan_from(av, tv, i as int, pre));
            return out;
        }
        if starts_with_exec(&arg, &ns) {
            let ghost before = out.uvxy_flags@;
            out.uvxy_flags.push(args[i].clone());
            assert(views(out.uvxy_flags@) =~= views(before).push(av[i as int]));
            i += 1;
            continue;
        }
        if is_flag_exec(&arg) {
            match table {
                None => {
                    extend_from(&mut out.uv_args, args, i);
                    assert(out.view() =~= scan_from(av, tv, i as int, pre));
                    return out;
                },
                Some(t) => {
                    if eq_chars(&arg, &from) || starts_with_exec(&arg, &from_eq_v) {
                        out.user_from = true;
                    }
                    let ghost b0 = out.uv_args@;
                    out.uv_args.push(args[i].clone());
                    assert(views(out.uv_args@) =~= views(b0).push(av[i as int]));
                    i += 1;
                    if !carries_value_exec(&arg) && t.takes_value(args[i - 1].as_str()) && i
                        < args.len() {
                        let ghost b1 = out.uv_args@;
                        out.uv_args.push(args[i].clone());
                        assert(views(out.uv_args@) =~= views(b1).push(av[i as int]));
                        i += 1;
                    }
                    continue;
                },
            }
        }
        let n = out.uv_args.len();
        extend_from(&mut out.uv_args, args, i);
        out.insert_at = n;
        out.command_at = Some(n);
        assert(out.view() =~= scan_from(av, tv, i as int, pre));
        return out;
    }
    out
}

/// Build the arguments for uv.
///
/// `table` holds the uv flags that take a value. Without a table `uvxy` reads
/// the first argument as the command.
///
/// The rules:
///
/// 1. Read the arguments from left to right.
/// 2. Remove an argument that starts with `--uvxy-`, record it in
///    `uvxy_flags`, and never send it to uv.
/// 3. Skip a flag. Skip the argument after it when the table says that the
///    flag takes a value. A `--flag=value` argument carries its own value.
/// 4. Stop at `--`. The argument after `--` is the command.
/// 5. The first argument that is neither a flag nor a flag value is the
///    command.
/// 6. Copy every argument after the command without a change.
/// 7. Insert `--from <spec>` directly before the command, or before a `--`
///    separator when one is present.
/// 8. Insert nothing when the user already passed `--from`.
/// 9. Split a command that reads `name@version`, look up `name`, build
///    `--from <spec>@<version>`, and pass `name` as the command.
/// 10. Refuse a spec that already holds a version when the user also passed
///     `@version`.
pub fn rewrite(args: &[String], table: Option<&FlagTable>, mappings: &Mappings) -> (r: Result<
    Plan,
    RewriteError,
>)
    ensures
        match rewrite_spec(views(args@), table_view(table), mappings@) {
            Ok(p) => r matches Ok(q) && q.view() == p,
            Err((c, s, v)) => r matches Err(RewriteError::TwoPins { command, spec, version })
                && command@ == c && spec@ == s && version@ == v,
        },
{
    let sc = scan_exec(args, table);
    let Scan { uv_args, uvxy_flags, command_at, insert_at, user_from } = sc;
    let mut uv_args = uv_args;
    let c = match command_at {
        None => {
            let plan = Plan { uv_args, uvxy_flags, command: None, applied: None };
            assert(plan.view() =~= rewrite_spec(views(args@), table_view(table), mappings@)->Ok_0);
            return Ok(plan);
        },
        Some(c) => c,
    };
    let typed = chars_of(uv_args[c].as_str());
    let (name, version) = split_version_exec(&typed);
    if user_from {
        let plan = Plan { uv_args, uvxy_flags, command: Some(name), applied: None };
        assert(plan.view() =~= rewrite_spec(views(args@), table_view(table), mappings@)->Ok_0);
        return Ok(plan);
    }
    let spec = match mappings.get(name.as_str()) {
        None => {
            let plan = Plan { uv_args, uvxy_flags, command: Some(name), applied: None };
            assert(plan.view() =~= rewrite_spec(views(args@), table_view(table), mappings@)->Ok_0);
            return Ok(plan);
        },
        Some(s) => copy_string(s),
    };
    let ghost before = views(uv_args@);
    let ghost spec0 = spec@;
    let spec = match version {
        None => spec,
        Some(v) => {
            let spec_chars = chars_of(spec.as_str());
            if has_constraint_exec(&spec_chars) {
                return Err(RewriteError::TwoPins { command: name, spec, version: v });
            }
            uv_args.set(c, copy_string(&name));
            assert(views(uv_args@) =~= before.update(c as int, name@));
            let mut pinned = spec;
            push_char(&mut pinned, '@');
            pinned.append(v.as_str());
            assert(pinned@ =~= spec0 + seq!['@'] + v@);
            pinned
        },
    };
    let ghost mid = views(uv_args@);
    uv_args.insert(insert_at, copy_string(&spec));
    let from = string_of_all(&vec!['-', '-', 'f', 'r', 'o', 'm']);
    uv_args.insert(insert_at, from);
    assert(views(uv_args@) =~= mid.insert(insert_at as int, spec@).insert(insert_at as int, from_flag()));
    let plan = Plan {
        uv_args,
        uvxy_flags,
        command: Some(copy_string(&name)),
        applied: Some(Applied { command: name, spec }),
    };
    assert(plan.view() =~= rewrite_spec(views(args@), table_view(table), mappings@)->Ok_0);
    Ok(plan)
}

/// `x` is an interleaving of `a` and `b`: both keep their order, and
/// together they hold each element of `x` once.
pub open spec fn interleaved(x: Seq<Seq<char>>, a: Seq<Seq<char>>, b: Seq<Seq<char>>) -> bool
    decreases x.len(),
{
    if x.len() == 0 {
        a.len() == 0 && b.len() == 0
    } else {
        (a.len() > 0 && a.last() == x.last() && interleaved(x.drop_last(), a.drop_last(), b)) || (
        b.len() > 0 && b.last() == x.last() && interleaved(x.drop_last(), a, b.drop_last()))
    }
}

proof fn lemma_interleaved_push_a(x: Seq<Seq<char>>, a: Seq<Seq<char>>, b: Seq<Seq<char>>, e: Seq<char>)
    requires
        interleaved(x, a, b),
    ensures
        interleaved(x.push(e), a.push(e), b),
{
    assert(x.push(e).drop_last() =~= x);
    assert(a.push(e).drop_last() =~= a);
}

proof fn lemma_interleaved_push_b(x: Seq<Seq<char>>, a: Seq<Seq<char>>, b: Seq<Seq<char>>, e: Seq<char>)
    requires
        interleaved(x, a, b),
    ensures
        interleaved(x.push(e), a, b.push(e)),
{
    assert(x.push(e).drop_last() =~= x);
    assert(b.push(e).drop_last() =~= b);
}

proof fn lemma_interleaved_append(x: Seq<Seq<char>>, a: Seq<Seq<char>>, b: Seq<Seq<char>>, y: Seq<Seq<char>>)
    requires
        interleaved(x, a, b),
    ensures
        interleaved(x + y, a + y, b),
    decreases y.len(),
{
    if y.len() == 0 {
        assert(x + y =~= x);
        assert(a + y =~= a);
    } else {
        let z = y.drop_last();
        lemma_interleaved_append(x, a, b, z);
        lemma_interleaved_push_a(x + z, a + z, b, y.last());
        assert((x + z).push(y.last()) =~= x + y);
        assert((a + z).push(y.last()) =~= a + y);
    }
}

/// An interleaving holds as many elements as its two parts together.
pub proof fn lemma_interleaved_len(x: Seq<Seq<char>>, a: Seq<Seq<char>>, b: Seq<Seq<char>>)
    requires
        interleaved(x, a, b),
    ensures
        x.len() == a.len() + b.len(),
    decreases x.len(),
{
    if x.len() > 0 {
        if a.len() > 0 && a.last() == x.last() && interleaved(x.drop_last(), a.drop_last(), b) {
            lemma_interleaved_len(x.drop_last(), a.drop_last(), b);
        } else {
            lemma_interleaved_len(x.drop_last(), a, b.drop_last());
        }
    }
}

/// Every element of `s` is a namespaced flag.
pub open spec fn all_namespaced(s: Seq<Seq<char>>) -> bool {
    forall|i: int| 0 <= i < s.len() ==> is_namespaced(#[trigger] s[i])
}

/// What the read of the arguments keeps: the arguments split into those for
/// uv and the namespaced flags, and the command found right at the insertion
/// point or right after a `--` there.
proof fn lemma_scan_shape(
    args: Seq<Seq<char>>,
    table: Option<Set<Seq<char>>>,
    i: int,
    acc: ScanView,
)
    requires
        0 <= i <= args.len(),
        acc.command_at is None,
        interleaved(args.take(i), acc.uv_args, acc.uvxy_flags),
        all_namespaced(acc.uvxy_flags),
    ensures
        ({
            let s = scan_from(args, table, i, acc);
            &&& interleaved(args, s.uv_args, s.uvxy_flags)
            &&& all_namespaced(s.uvxy_flags)
            &&& s.command_at matches Some(c) ==> {
                &&& 0 <= s.insert_at <= c < s.uv_args.len()
                &&& (c == s.insert_at || (c == s.insert_at + 1 && s.uv_args[s.insert_at]
                    == separator()))
                &&& (c == s.insert_at ==> s.uv_args[c] != separator() && !is_namespaced(
                    s.uv_args[c],
                ) && !is_flag(s.uv_args[c]))
            }
        }),
    decreases args.len() - i,
{
    if i < args.len() {
        let arg = args[i];
        let n = acc.uv_args.len() as int;
        assert(args.take(i) + args.skip(i) =~= args);
        assert(args.take(i + 1) =~= args.take(i).push(arg));
        if arg == separator() {
            lemma_interleaved_append(args.take(i), acc.uv_args, acc.uvxy_flags, args.skip(i));
        } else if is_namespaced(arg) {
            lemma_interleaved_push_b(args.take(i), acc.uv_args, acc.uvxy_flags, arg);
            lemma_scan_shape(
                args,
                table,
                i + 1,
                ScanView {
                    uv_args: acc.uv_args,
                    uvxy_flags: acc.uvxy_flags.push(arg),
                    command_at: acc.command_at,
                    insert_at: acc.insert_at,
                    user_from: acc.user_from,
                },
            );
        } else if is_flag(arg) {
            match table {
                None => {
                    lemma_interleaved_append(args.take(i), acc.uv_args, acc.uvxy_flags, args.skip(i));
                },
                Some(t) => {
                    let uf = acc.user_from || is_user_from(arg);
                    lemma_interleaved_push_a(args.take(i), acc.uv_args, acc.uvxy_flags, arg);
                    if !carries_value(arg) && t.contains(arg) && i + 1 < args.len() {
                        assert(args.take(i + 2) =~= args.take(i + 1).push(args[i + 1]));
                        lemma_interleaved_push_a(
                            args.take(i + 1),
                            acc.uv_args.push(arg),
                            acc.uvxy_flags,
                            args[i + 1],
                        );
                        lemma_scan_shape(
                            args,
                            table,
                            i + 2,
                            ScanView {
                                uv_args: acc.uv_args.push(arg).push(args[i + 1]),
                                uvxy_flags: acc.uvxy_flags,
                                command_at: acc.command_at,
                                insert_at: acc.insert_at,
                                user_from: uf,
                            },
                        );
                    } else {
                        lemma_scan_shape(
                            args,
                            table,
                            i + 1,
                            ScanView {
                                uv_args: acc.uv_args.push(arg),
                                uvxy_flags: acc.uvxy_flags,
                                command_at: acc.command_at,
                                insert_at: acc.insert_at,
                                user_from: uf,
                            },
                        );
                    }
                },
            }
        } else {
            lemma_interleaved_append(args.take(i), acc.uv_args, acc.uvxy_flags, args.skip(i));
        }
    } else {
        assert(args.take(i) =~= args);
    }
}

/// The arguments for uv and the namespaced flags split the arguments, both in
/// their order, and every removed argument is a namespaced flag. With no
/// mapping applied, the arguments for uv are exactly the arguments without
/// those flags.
pub proof fn law_passthrough(
    args: Seq<Seq<char>>,
    table: Option<Set<Seq<char>>>,
    mappings: Map<Seq<char>, Seq<char>>,
)
    requires
        rewrite_spec(args, table, mappings) matches Ok(p) && p.applied is None,
    ensures
        ({
            let p = rewrite_spec(args, table, mappings)->Ok_0;
            &&& interleaved(args, p.uv_args, p.uvxy_flags)
            &&& all_namespaced(p.uvxy_flags)
            &&& p.uv_args.len() + p.uvxy_flags.len() == args.len()
        }),
{
    assert(args.take(0) =~= Seq::<Seq<char>>::empty());
    lemma_scan_shape(args, table, 0, scan_start());
    let p = rewrite_spec(args, table, mappings)->Ok_0;
    lemma_interleaved_len(args, p.uv_args, p.uvxy_flags);
}

/// With a mapping applied, `--from <spec>` stands directly before the
/// command, or directly before the `--` that precedes it; the namespaced
/// flags are arguments that left; and uv gets two arguments more than the
/// user typed, less those flags.
pub proof fn law_from_before_command(
    args: Seq<Seq<char>>,
    table: Option<Set<Seq<char>>>,
    mappings: Map<Seq<char>, Seq<char>>,
)
    requires
        rewrite_spec(args, table, mappings) matches Ok(p) && p.applied is Some,
    ensures
        ({
            let p = rewrite_spec(args, table, mappings)->Ok_0;
            let (command, spec) = p.applied->Some_0;
            &&& p.command == Some(command)
            &&& exists|j: int|
                #![trigger p.uv_args[j]]
                0 <= j && j + 2 < p.uv_args.len() && p.uv_args[j] == from_flag() && p.uv_args[j
                    + 1] == spec && (p.uv_args[j + 2] == command || (p.uv_args[j + 2] == separator()
                    && j + 3 < p.uv_args.len() && p.uv_args[j + 3] == command))
            &&& all_namespaced(p.uvxy_flags)
            &&& p.uv_args.len() + p.uvxy_flags.len() == args.len() + 2
        }),
{
    assert(args.take(0) =~= Seq::<Seq<char>>::empty());
    lemma_scan_shape(args, table, 0, scan_start());
    let s = scan(args, table);
    lemma_interleaved_len(args, s.uv_args, s.uvxy_flags);
    let c = s.command_at->Some_0;
    let typed = s.uv_args[c];
    let name = split_version(typed).0;
    let p = rewrite_spec(args, table, mappings)->Ok_0;
    let j = s.insert_at;
    let u = if split_version(typed).1 is None {
        s.uv_args
    } else {
        s.uv_args.update(c, name)
    };
    assert(p.uv_args == u.insert(j, p.applied->Some_0.1).insert(j, from_flag()));
    assert(p.uv_args[j] == from_flag());
    assert(p.uv_args[j + 1] == p.applied->Some_0.1);
    assert(p.uv_args[j + 2] == u[j]);
    if c == j {
        assert(u[c] == name);
    } else {
        assert(p.uv_args[j + 3] == u[j + 1]);
        assert(u[c] == name);
    }
}

/// `name@version` splits into a non-empty name without `@` and a non-empty
/// version, and the two with the `@` give the argument back. An argument
/// that does not split stays whole.
pub proof fn law_split_version(a: Seq<char>)
    ensures
        match split_version(a) {
            (name, Some(version)) => {
                &&& name + seq!['@'] + version == a
                &&& name.len() > 0 && version.len() > 0
                &&& !name.contains('@')
                &&& name[0] == a[0]
            },
            (name, None) => name == a,
        },
{
    lemma_find_char(a, '@', 0);
    let at = find_char(a, '@', 0);
    if 0 < at && at + 1 < a.len() {
        assert(a.take(at) + seq!['@'] + a.skip(at + 1) =~= a);
        if a.take(at).contains('@') {
            let k = choose|k: int| 0 <= k < a.take(at).len() && a.take(at)[k] == '@';
            assert(a[k] == '@');
        }
    }
}

/// The read keeps what it read: the arguments for uv only grow at the end,
/// and a command found lies at or after the arguments read before.
proof fn lemma_scan_grows(
    args: Seq<Seq<char>>,
    table: Option<Set<Seq<char>>>,
    i: int,
    acc: ScanView,
)
    requires
        0 <= i,
        acc.command_at is None,
    ensures
        ({
            let s = scan_from(args, table, i, acc);
            &&& s.uv_args.len() >= acc.uv_args.len()
            &&& s.uv_args.take(acc.uv_args.len() as int) == acc.uv_args
            &&& s.command_at is Some ==> acc.uv_args.len() <= s.insert_at < s.uv_args.len()
        }),
    decreases args.len() - i,
{
    if i < args.len() {
        let arg = args[i];
        let n = acc.uv_args.len() as int;
        if arg == separator() {
            assert((acc.uv_args + args.skip(i)).take(n) =~= acc.uv_args);
        } else if is_namespaced(arg) {
            lemma_scan_grows(
                args,
                table,
                i + 1,
                ScanView {
                    uv_args: acc.uv_args,
                    uvxy_flags: acc.uvxy_flags.push(arg),
                    command_at: acc.command_at,
                    insert_at: acc.insert_at,
                    user_from: acc.user_from,
                },
            );
        } else if is_flag(arg) {
            match table {
                None => {
                    assert((acc.uv_args + args.skip(i)).take(n) =~= acc.uv_args);
                },
                Some(t) => {
                    let uf = acc.user_from || is_user_from(arg);
                    if !carries_value(arg) && t.contains(arg) && i + 1 < args.len() {
                        let next = ScanView {
                            uv_args: acc.uv_args.push(arg).push(args[i + 1]),
                            uvxy_flags: acc.uvxy_flags,
                            command_at: acc.command_at,
                            insert_at: acc.insert_at,
                            user_from: uf,
                        };
                        lemma_scan_grows(args, table, i + 2, next);
                        let r = scan_from(args, table, i + 2, next);
                        assert(r.uv_args.take(n) =~= r.uv_args.take(n + 2).take(n));
                        assert(next.uv_args.take(n) =~= acc.uv_args);
                    } else {
                        let next = ScanView {
                            uv_args: acc.uv_args.push(arg),
                            uvxy_flags: acc.uvxy_flags,
                            command_at: acc.command_at,
                            insert_at: acc.insert_at,
                            user_from: uf,
                        };
                        lemma_scan_grows(args, table, i + 1, next);
                        let r = scan_from(args, table, i + 1, next);
                        assert(r.uv_args.take(n) =~= r.uv_args.take(n + 1).take(n));
                        assert(next.uv_args.take(n) =~= acc.uv_args);
                    }
                },
            }
        } else {
            assert((acc.uv_args + args.skip(i)).take(n) =~= acc.uv_args);
        }
    } else {
        assert(acc.uv_args.take(acc.uv_args.len() as int) =~= acc.uv_args);
    }
}

/// A second read of a sequence that agrees with the arguments for uv up to
/// the insertion point reaches the insertion point in the state in which the
/// first read found its command: the same arguments for uv, no namespaced
/// flag more, no command yet, and the same `--from` seen.
proof fn lemma_scan_replay(
    args: Seq<Seq<char>>,
    table: Option<Set<Seq<char>>>,
    i: int,
    acc: ScanView,
    y: Seq<Seq<char>>,
    acc2: ScanView,
)
    requires
        0 <= i,
        acc.command_at is None,
        scan_from(args, table, i, acc).command_at is Some,
        scan_from(args, table, i, acc).insert_at <= y.len(),
        y.take(scan_from(args, table, i, acc).insert_at) == scan_from(
            args,
            table,
            i,
            acc,
        ).uv_args.take(scan_from(args, table, i, acc).insert_at),
        acc2.uv_args == acc.uv_args,
        acc2.command_at is None,
        acc2.user_from == acc.user_from,
    ensures
        ({
            let s = scan_from(args, table, i, acc);
            scan_from(y, table, acc.uv_args.len() as int, acc2) == scan_from(
                y,
                table,
                s.insert_at,
                ScanView {
                    uv_args: y.take(s.insert_at),
                    uvxy_flags: acc2.uvxy_flags,
                    command_at: None,
                    insert_at: acc2.insert_at,
                    user_from: s.user_from,
                },
            )
        }),
    decreases args.len() - i,
{
    let s = scan_from(args, table, i, acc);
    let n = acc.uv_args.len() as int;
    lemma_scan_grows(args, table, i, acc);
    if i < args.len() {
        let arg = args[i];
        if arg == separator() || (!is_namespaced(arg) && !is_flag(arg)) {
            assert(s.insert_at == n);
            assert(y.take(n) =~= s.uv_args.take(n));
            assert(acc2 == ScanView {
                uv_args: y.take(s.insert_at),
                uvxy_flags: acc2.uvxy_flags,
                command_at: None,
                insert_at: acc2.insert_at,
                user_from: s.user_from,
            });
        } else if is_namespaced(arg) {
            let next = ScanView {
                uv_args: acc.uv_args,
                uvxy_flags: acc.uvxy_flags.push(arg),
                command_at: acc.command_at,
                insert_at: acc.insert_at,
                user_from: acc.user_from,
            };
            lemma_scan_replay(args, table, i + 1, next, y, acc2);
        } else {
            match table {
                None => {},
                Some(t) => {
                    let uf = acc.user_from || is_user_from(arg);
                    assert(s.uv_args.take(n) == acc.uv_args);
                    if !carries_value(arg) && t.contains(arg) && i + 1 < args.len() {
                        let next = ScanView {
                            uv_args: acc.uv_args.push(arg).push(args[i + 1]),
                            uvxy_flags: acc.uvxy_flags,
                            command_at: acc.command_at,
                            insert_at: acc.insert_at,
                            user_from: uf,
                        };
                        lemma_scan_grows(args, table, i + 2, next);
                        assert(s == scan_from(args, table, i + 2, next));
                        assert(s.uv_args.take(n + 2) == next.uv_args);
                        assert(s.insert_at >= n + 2);
                        assert(y[n] == y.take(s.insert_at)[n]);
                        assert(y[n + 1] == y.take(s.insert_at)[n + 1]);
                        assert(s.uv_args.take(s.insert_at)[n] == s.uv_args[n]);
                        assert(s.uv_args.take(s.insert_at)[n + 1] == s.uv_args[n + 1]);
                        assert(s.uv_args[n] == s.uv_args.take(n + 2)[n]);
                        assert(s.uv_args[n + 1] == s.uv_args.take(n + 2)[n + 1]);
                        assert(next.uv_args[n] == arg);
                        assert(next.uv_args[n + 1] == args[i + 1]);
                        assert(y[n] == arg);
                        assert(y[n + 1] == args[i + 1]);
                        let next2 = ScanView {
                            uv_args: acc2.uv_args.push(y[n]).push(y[n + 1]),
                            uvxy_flags: acc2.uvxy_flags,
                            command_at: acc2.command_at,
                            insert_at: acc2.insert_at,
                            user_from: acc2.user_from || is_user_from(y[n]),
                        };
                        lemma_scan_replay(args, table, i + 2, next, y, next2);
                    } else if !carries_value(arg) && t.contains(arg) {
                        // The flag lacks its value, so the read found no command.
                        let next = ScanView {
                            uv_args: acc.uv_args.push(arg),
                            uvxy_flags: acc.uvxy_flags,
                            command_at: acc.command_at,
                            insert_at: acc.insert_at,
                            user_from: uf,
                        };
                        assert(scan_from(args, table, i + 1, next) == next);
                    } else {
                        let next = ScanView {
                            uv_args: acc.uv_args.push(arg),
                            uvxy_flags: acc.uvxy_flags,
                            command_at: acc.command_at,
                            insert_at: acc.insert_at,
                            user_from: uf,
                        };
                        lemma_scan_grows(args, table, i + 1, next);
                        assert(s == scan_from(args, table, i + 1, next));
                        assert(s.uv_args.take(n + 1) == next.uv_args);
                        assert(s.insert_at >= n + 1);
                        assert(y[n] == y.take(s.insert_at)[n]);
                        assert(s.uv_args.take(s.insert_at)[n] == s.uv_args[n]);
                        assert(s.uv_args[n] == s.uv_args.take(n + 1)[n]);
                        assert(next.uv_args[n] == arg);
                        assert(y[n] == arg);
                        let next2 = ScanView {
                            uv_args: acc2.uv_args.push(y[n]),
                            uvxy_flags: acc2.uvxy_flags,
                            command_at: acc2.command_at,
                            insert_at: acc2.insert_at,
                            user_from: acc2.user_from || is_user_from(y[n]),
                        };
                        lemma_scan_replay(args, table, i + 1, next, y, next2);
                    }
                },
            }
        }
    }
}

/// When the read finds no command, a second read of the arguments for uv
/// finds no command either, keeps them as they are, and removes nothing.
proof fn lemma_scan_fixpoint_none(
    args: Seq<Seq<char>>,
    table: Option<Set<Seq<char>>>,
    i: int,
    acc: ScanView,
    acc2: ScanView,
)
    requires
        0 <= i,
        acc.command_at is None,
        scan_from(args, table, i, acc).command_at is None,
        acc2.uv_args == acc.uv_args,
        acc2.command_at is None,
    ensures
        ({
            let y = scan_from(args, table, i, acc).uv_args;
            let r = scan_from(y, table, acc.uv_args.len() as int, acc2);
            &&& r.command_at is None
            &&& r.uv_args == y
            &&& r.uvxy_flags == acc2.uvxy_flags
        }),
    decreases args.len() - i,
{
    let s = scan_from(args, table, i, acc);
    let y = s.uv_args;
    let n = acc.uv_args.len() as int;
    lemma_scan_grows(args, table, i, acc);
    if i < args.len() {
        let arg = args[i];
        if arg == separator() {
            assert(y =~= acc.uv_args + args.skip(i));
            assert(y[n] == arg);
            assert(y.take(n) =~= acc.uv_args);
            assert(acc2.uv_args + y.skip(n) =~= y);
        } else if is_namespaced(arg) {
            let next = ScanView {
                uv_args: acc.uv_args,
                uvxy_flags: acc.uvxy_flags.push(arg),
                command_at: acc.command_at,
                insert_at: acc.insert_at,
                user_from: acc.user_from,
            };
            lemma_scan_fixpoint_none(args, table, i + 1, next, acc2);
        } else if is_flag(arg) {
            match table {
                None => {
                    assert(y =~= acc.uv_args + args.skip(i));
                    assert(y[n] == arg);
                    assert(acc2.uv_args + y.skip(n) =~= y);
                },
                Some(t) => {
                    let uf = acc.user_from || is_user_from(arg);
                    if !carries_value(arg) && t.contains(arg) && i + 1 < args.len() {
                        let next = ScanView {
                            uv_args: acc.uv_args.push(arg).push(args[i + 1]),
                            uvxy_flags: acc.uvxy_flags,
                            command_at: acc.command_at,
                            insert_at: acc.insert_at,
                            user_from: uf,
                        };
                        lemma_scan_grows(args, table, i + 2, next);
                        assert(s == scan_from(args, table, i + 2, next));
                        assert(y.take(n + 2) == next.uv_args);
                        assert(y[n] == y.take(n + 2)[n]);
                        assert(y[n + 1] == y.take(n + 2)[n + 1]);
                        let next2 = ScanView {
                            uv_args: acc2.uv_args.push(y[n]).push(y[n + 1]),
                            uvxy_flags: acc2.uvxy_flags,
                            command_at: acc2.command_at,
                            insert_at: acc2.insert_at,
                            user_from: acc2.user_from || is_user_from(y[n]),
                        };
                        lemma_scan_fixpoint_none(args, table, i + 2, next, next2);
                    } else {
                        let next = ScanView {
                            uv_args: acc.uv_args.push(arg),
                            uvxy_flags: acc.uvxy_flags,
                            command_at: acc.command_at,
                            insert_at: acc.insert_at,
                            user_from: uf,
                        };
                        lemma_scan_grows(args, table, i + 1, next);
                        assert(s == scan_from(args, table, i + 1, next));
                        assert(y.take(n + 1) == next.uv_args);
                        assert(y[n] == y.take(n + 1)[n]);
                        if !carries_value(arg) && t.contains(arg) {
                            assert(s == next);
                            assert(y.len() == n + 1);
                        }
                        let next2 = ScanView {
                            uv_args: acc2.uv_args.push(y[n]),
                            uvxy_flags: acc2.uvxy_flags,
                            command_at: acc2.command_at,
                            insert_at: acc2.insert_at,
                            user_from: acc2.user_from || is_user_from(y[n]),
                        };
                        lemma_scan_fixpoint_none(args, table, i + 1, next, next2);
                    }
                },
            }
        }
    }
}

/// A second read of the arguments for uv, from the insertion point on, in the
/// state in which the first read found its command, ends as the first one did.
proof fn lemma_scan_terminal(y: Seq<Seq<char>>, table: Option<Set<Seq<char>>>, s: ScanView)
    requires
        s.command_at matches Some(c) && 0 <= s.insert_at <= c < s.uv_args.len() && (c
            == s.insert_at || (c == s.insert_at + 1 && s.uv_args[s.insert_at] == separator())) && (c
            == s.insert_at ==> s.uv_args[c] != separator() && !is_namespaced(s.uv_args[c])
            && !is_flag(s.uv_args[c])),
        y == s.uv_args,
    ensures
        scan_from(
            y,
            table,
            s.insert_at,
            ScanView {
                uv_args: y.take(s.insert_at),
                uvxy_flags: Seq::empty(),
                command_at: None,
                insert_at: 0,
                user_from: s.user_from,
            },
        ) == (ScanView {
            uv_args: s.uv_args,
            uvxy_flags: Seq::empty(),
            command_at: s.command_at,
            insert_at: s.insert_at,
            user_from: s.user_from,
        }),
{
    assert(y.take(s.insert_at) + y.skip(s.insert_at) =~= y);
}

proof fn lemma_from_flag_facts()
    ensures
        !is_namespaced(from_flag()),
        from_flag() != separator(),
        !carries_value(from_flag()),
        is_flag(from_flag()),
        is_user_from(from_flag()),
{
    assert(from_flag().len() != separator().len());
    if from_flag().contains('=') {
        let k = choose|k: int| 0 <= k < from_flag().len() && from_flag()[k] == '=';
    }
}

/// The name part of a command that the read found is itself read as a
/// command.
proof fn lemma_name_is_command(typed: Seq<char>)
    requires
        typed != separator(),
        !is_namespaced(typed),
        !is_flag(typed),
    ensures
        ({
            let name = split_version(typed).0;
            name != separator() && !is_namespaced(name) && !is_flag(name)
        }),
{
    law_split_version(typed);
    let name = split_version(typed).0;
    if split_version(typed).1 is Some {
        assert(typed.len() > 1);
        assert(typed[0] != '-');
        if name == separator() {
            assert(name[0] == '-');
        }
        if is_namespaced(name) {
            assert(name.take(7)[0] == '-');
        }
    }
}

/// The second read of an output that holds `--from <spec>` at the insertion
/// point, followed by the command or by `--` and the command.
proof fn lemma_second_read_applied(
    y: Seq<Seq<char>>,
    table: Option<Set<Seq<char>>>,
    ia: int,
    at: ScanView,
)
    requires
        0 <= ia,
        ia + 2 < y.len(),
        y[ia] == from_flag(),
        table matches Some(t) ==> t.contains(from_flag()),
        at.uv_args == y.take(ia),
        at.command_at is None,
        at.uvxy_flags.len() == 0,
        (y[ia + 2] != separator() && !is_namespaced(y[ia + 2]) && !is_flag(y[ia + 2])) || (y[ia
            + 2] == separator()),
    ensures
        ({
            let r = scan_from(y, table, ia, at);
            &&& r.uv_args == y
            &&& r.uvxy_flags.len() == 0
            &&& (table is Some ==> r.user_from)
            &&& (table is None ==> r.command_at is None)
        }),
{
    lemma_from_flag_facts();
    match table {
        None => {
            assert(y.take(ia) + y.skip(ia) =~= y);
        },
        Some(t) => {
            let at2 = ScanView {
                uv_args: at.uv_args.push(y[ia]).push(y[ia + 1]),
                uvxy_flags: at.uvxy_flags,
                command_at: at.command_at,
                insert_at: at.insert_at,
                user_from: true,
            };
            assert(scan_from(y, table, ia, at) == scan_from(y, table, ia + 2, at2));
            assert(at2.uv_args =~= y.take(ia + 2));
            assert(y.take(ia + 2) + y.skip(ia + 2) =~= y);
        },
    }
}

proof fn lemma_idempotent_applied(
    args: Seq<Seq<char>>,
    table: Option<Set<Seq<char>>>,
    mappings: Map<Seq<char>, Seq<char>>,
)
    requires
        rewrite_spec(args, table, mappings) matches Ok(p) && p.applied is Some,
        table matches Some(t) ==> t.contains(from_flag()),
    ensures
        ({
            let p = rewrite_spec(args, table, mappings)->Ok_0;
            let q = rewrite_spec(p.uv_args, table, mappings);
            &&& q is Ok
            &&& q->Ok_0.uv_args == p.uv_args
            &&& q->Ok_0.applied is None
            &&& q->Ok_0.uvxy_flags.len() == 0
        }),
{
    let s = scan(args, table);
    let p = rewrite_spec(args, table, mappings)->Ok_0;
    assert(args.take(0) =~= Seq::<Seq<char>>::empty());
    lemma_scan_shape(args, table, 0, scan_start());
    lemma_scan_grows(args, table, 0, scan_start());
    let c = s.command_at->Some_0;
    let ia = s.insert_at;
    let typed = s.uv_args[c];
    let name = split_version(typed).0;
    let version = split_version(typed).1;
    let spec = mappings[name];
    let pinned = match version {
        None => spec,
        Some(v) => spec + seq!['@'] + v,
    };
    let u = match version {
        None => s.uv_args,
        Some(v) => s.uv_args.update(c, name),
    };
    law_split_version(typed);
    let y = p.uv_args;
    assert(y == u.insert(ia, pinned).insert(ia, from_flag()));
    assert(y.take(ia) =~= s.uv_args.take(ia));
    lemma_scan_replay(args, table, 0, scan_start(), y, scan_start());
    let at = ScanView {
        uv_args: y.take(ia),
        uvxy_flags: Seq::<Seq<char>>::empty(),
        command_at: None,
        insert_at: 0,
        user_from: s.user_from,
    };
    assert(y[ia] == from_flag());
    assert(y[ia + 2] == u[ia]);
    if c == ia {
        lemma_name_is_command(typed);
        assert(u[ia] == name);
    } else {
        assert(u[ia] == s.uv_args[ia]);
    }
    lemma_second_read_applied(y, table, ia, at);
}

proof fn lemma_idempotent_unapplied(
    args: Seq<Seq<char>>,
    table: Option<Set<Seq<char>>>,
    mappings: Map<Seq<char>, Seq<char>>,
)
    requires
        rewrite_spec(args, table, mappings) matches Ok(p) && p.applied is None,
    ensures
        ({
            let p = rewrite_spec(args, table, mappings)->Ok_0;
            let q = rewrite_spec(p.uv_args, table, mappings);
            &&& q is Ok
            &&& q->Ok_0.uv_args == p.uv_args
            &&& q->Ok_0.applied is None
            &&& q->Ok_0.uvxy_flags.len() == 0
        }),
{
    let s = scan(args, table);
    let p = rewrite_spec(args, table, mappings)->Ok_0;
    assert(args.take(0) =~= Seq::<Seq<char>>::empty());
    lemma_scan_shape(args, table, 0, scan_start());
    lemma_scan_grows(args, table, 0, scan_start());
    assert(p.uv_args == s.uv_args);
    match s.command_at {
        None => {
            lemma_scan_fixpoint_none(args, table, 0, scan_start(), scan_start());
        },
        Some(c) => {
            let ia = s.insert_at;
            let y = s.uv_args;
            assert(y.take(ia) =~= s.uv_args.take(ia));
            lemma_scan_replay(args, table, 0, scan_start(), y, scan_start());
            lemma_scan_terminal(y, table, s);
        },
    }
}

/// The read stops at the command: from the command on, the arguments for uv
/// are the arguments as typed.
proof fn lemma_scan_tail(args: Seq<Seq<char>>, table: Option<Set<Seq<char>>>, i: int, acc: ScanView)
    requires
        0 <= i <= args.len(),
        acc.command_at is None,
    ensures
        ({
            let s = scan_from(args, table, i, acc);
            s.command_at matches Some(c) ==> exists|k: int|
                #![trigger args.skip(k)]
                0 <= k < args.len() && 0 <= c && s.uv_args.len() - c == args.len() - k
                    && s.uv_args.skip(c) == args.skip(k)
        }),
    decreases args.len() - i,
{
    if i < args.len() {
        let arg = args[i];
        let n = acc.uv_args.len() as int;
        if arg == separator() {
            if i + 1 < args.len() {
                assert((acc.uv_args + args.skip(i)).skip(n + 1) =~= args.skip(i + 1));
            }
        } else if is_namespaced(arg) {
            lemma_scan_tail(
                args,
                table,
                i + 1,
                ScanView {
                    uv_args: acc.uv_args,
                    uvxy_flags: acc.uvxy_flags.push(arg),
                    command_at: acc.command_at,
                    insert_at: acc.insert_at,
                    user_from: acc.user_from,
                },
            );
        } else if is_flag(arg) {
            match table {
                None => {},
                Some(t) => {
                    let uf = acc.user_from || is_user_from(arg);
                    if !carries_value(arg) && t.contains(arg) && i + 1 < args.len() {
                        lemma_scan_tail(
                            args,
                            table,
                            i + 2,
                            ScanView {
                                uv_args: acc.uv_args.push(arg).push(args[i + 1]),
                                uvxy_flags: acc.uvxy_flags,
                                command_at: acc.command_at,
                                insert_at: acc.insert_at,
                                user_from: uf,
                            },
                        );
                    } else {
                        lemma_scan_tail(
                            args,
                            table,
                            i + 1,
                            ScanView {
                                uv_args: acc.uv_args.push(arg),
                                uvxy_flags: acc.uvxy_flags,
                                command_at: acc.command_at,
                                insert_at: acc.insert_at,
                                user_from: uf,
                            },
                        );
                    }
                },
            }
        } else {
            assert((acc.uv_args + args.skip(i)).skip(n) =~= args.skip(i));
        }
    }
}

/// The read of the arguments splits them, in order, into the arguments for
/// uv and the namespaced flags. Where it finds a command, `--from` goes in
/// right before it or right before the `--` that precedes it, and from the
/// command on the arguments for uv are the arguments as typed.
pub proof fn law_scan_splits(args: Seq<Seq<char>>, table: Option<Set<Seq<char>>>)
    ensures
        ({
            let s = scan(args, table);
            &&& interleaved(args, s.uv_args, s.uvxy_flags)
            &&& all_namespaced(s.uvxy_flags)
            &&& s.uv_args.len() + s.uvxy_flags.len() == args.len()
            &&& s.command_at matches Some(c) ==> {
                &&& 0 <= s.insert_at <= c < s.uv_args.len()
                &&& (c == s.insert_at || (c == s.insert_at + 1 && s.uv_args[s.insert_at]
                    == separator()))
                &&& s.uv_args.skip(c) == args.skip(args.len() - (s.uv_args.len() - c))
            }
        }),
{
    assert(args.take(0) =~= Seq::<Seq<char>>::empty());
    lemma_scan_shape(args, table, 0, scan_start());
    lemma_scan_tail(args, table, 0, scan_start());
    let s = scan(args, table);
    lemma_interleaved_len(args, s.uv_args, s.uvxy_flags);
}

/// The flags that take a value, as the table says; none without a table.
pub open spec fn value_flags_of(table: Option<Set<Seq<char>>>) -> Set<Seq<char>> {
    match table {
        Some(t) => t,
        None => Set::empty(),
    }
}

/// Whether `u[j]` is the value of the flag before it, read left to right: it
/// follows a flag that the table says takes a value and that holds none,
/// and that flag is not itself such a value.
pub open spec fn is_value(u: Seq<Seq<char>>, t: Set<Seq<char>>, j: int) -> bool
    decreases j,
{
    if j <= 0 {
        false
    } else {
        !is_value(u, t, j - 1) && is_flag(u[j - 1]) && t.contains(u[j - 1]) && !carries_value(
            u[j - 1],
        )
    }
}

proof fn lemma_is_value_prefix(u: Seq<Seq<char>>, v: Seq<Seq<char>>, t: Set<Seq<char>>, j: int)
    requires
        j <= u.len(),
    ensures
        is_value(u + v, t, j) == is_value(u, t, j),
    decreases j,
{
    if j > 0 {
        lemma_is_value_prefix(u, v, t, j - 1);
        assert((u + v)[j - 1] == u[j - 1]);
    }
}

proof fn lemma_scan_values(args: Seq<Seq<char>>, table: Option<Set<Seq<char>>>, i: int, acc: ScanView)
    requires
        0 <= i <= args.len(),
        acc.command_at is None,
        acc.insert_at <= acc.uv_args.len(),
        forall|j: int|
            0 <= j < acc.uv_args.len() && is_namespaced(#[trigger] acc.uv_args[j]) ==> is_value(
                acc.uv_args,
                value_flags_of(table),
                j,
            ),
        i < args.len() ==> !is_value(acc.uv_args, value_flags_of(table), acc.uv_args.len() as int),
    ensures
        ({
            let s = scan_from(args, table, i, acc);
            s.command_at is Some ==> forall|j: int|
                0 <= j < s.insert_at && is_namespaced(#[trigger] s.uv_args[j]) ==> is_value(
                    s.uv_args,
                    value_flags_of(table),
                    j,
                )
        }),
    decreases args.len() - i,
{
    let t = value_flags_of(table);
    if i < args.len() {
        let arg = args[i];
        let u = acc.uv_args;
        let n = u.len() as int;
        if arg == separator() || (!is_namespaced(arg) && !is_flag(arg)) {
            assert forall|j: int| 0 <= j < n && is_namespaced(#[trigger] (u + args.skip(i))[j]) implies is_value(
                u + args.skip(i),
                t,
                j,
            ) by {
                assert((u + args.skip(i))[j] == u[j]);
                lemma_is_value_prefix(u, args.skip(i), t, j);
            }
        } else if is_namespaced(arg) {
            lemma_scan_values(
                args,
                table,
                i + 1,
                ScanView {
                    uv_args: acc.uv_args,
                    uvxy_flags: acc.uvxy_flags.push(arg),
                    command_at: acc.command_at,
                    insert_at: acc.insert_at,
                    user_from: acc.user_from,
                },
            );
        } else {
            match table {
                None => {},
                Some(tb) => {
                    let uf = acc.user_from || is_user_from(arg);
                    if !carries_value(arg) && tb.contains(arg) && i + 1 < args.len() {
                        let u2 = u.push(arg).push(args[i + 1]);
                        assert(u2 == u + seq![arg, args[i + 1]]);
                        lemma_is_value_prefix(u, seq![arg, args[i + 1]], t, n);
                        assert(u2[n] == arg);
                        assert(is_value(u2, t, n + 1));
                        assert forall|j: int| 0 <= j < u2.len() && is_namespaced(#[trigger] u2[j]) implies is_value(
                            u2,
                            t,
                            j,
                        ) by {
                            if j < n {
                                assert(u2[j] == u[j]);
                                lemma_is_value_prefix(u, seq![arg, args[i + 1]], t, j);
                            }
                        }
                        lemma_scan_values(
                            args,
                            table,
                            i + 2,
                            ScanView {
                                uv_args: u2,
                                uvxy_flags: acc.uvxy_flags,
                                command_at: acc.command_at,
                                insert_at: acc.insert_at,
                                user_from: uf,
                            },
                        );
                    } else {
                        let u2 = u.push(arg);
                        assert(u2 == u + seq![arg]);
                        lemma_is_value_prefix(u, seq![arg], t, n);
                        assert(u2[n] == arg);
                        assert forall|j: int| 0 <= j < u2.len() && is_namespaced(#[trigger] u2[j]) implies is_value(
                            u2,
                            t,
                            j,
                        ) by {
                            if j < n {
                                assert(u2[j] == u[j]);
                                lemma_is_value_prefix(u, seq![arg], t, j);
                            }
                        }
                        lemma_scan_values(
                            args,
                            table,
                            i + 1,
                            ScanView {
                                uv_args: u2,
                                uvxy_flags: acc.uvxy_flags,
                                command_at: acc.command_at,
                                insert_at: acc.insert_at,
                                user_from: uf,
                            },
                        );
                    }
                },
            }
        }
    }
}

/// Before the command, a namespaced flag reaches uv only as the value of
/// the flag before it, read left to right; every other namespaced flag
/// before the command leaves the arguments (`law_scan_splits`).
pub proof fn law_namespaced_before_command(args: Seq<Seq<char>>, table: Option<Set<Seq<char>>>)
    ensures
        ({
            let s = scan(args, table);
            s.command_at is Some ==> forall|j: int|
                0 <= j < s.insert_at && is_namespaced(#[trigger] s.uv_args[j]) ==> is_value(
                    s.uv_args,
                    value_flags_of(table),
                    j,
                )
        }),
{
    lemma_scan_values(args, table, 0, scan_start());
}

/// A run of namespaced flags `args[i..n]` leaves the read, in order, and the
/// read goes on after it.
proof fn lemma_scan_namespaced_run(
    args: Seq<Seq<char>>,
    table: Option<Set<Seq<char>>>,
    i: int,
    n: int,
    acc: ScanView,
)
    requires
        0 <= i <= n <= args.len(),
        forall|k: int| i <= k < n ==> is_namespaced(#[trigger] args[k]),
    ensures
        scan_from(args, table, i, acc) == scan_from(
            args,
            table,
            n,
            ScanView {
                uv_args: acc.uv_args,
                uvxy_flags: acc.uvxy_flags + args.subrange(i, n),
                command_at: acc.command_at,
                insert_at: acc.insert_at,
                user_from: acc.user_from,
            },
        ),
    decreases n - i,
{
    if i < n {
        let x = args[i];
        assert(is_namespaced(x));
        if x == separator() {
            assert(x.len() == 2);
        }
        let acc2 = ScanView {
            uv_args: acc.uv_args,
            uvxy_flags: acc.uvxy_flags.push(x),
            command_at: acc.command_at,
            insert_at: acc.insert_at,
            user_from: acc.user_from,
        };
        lemma_scan_namespaced_run(args, table, i + 1, n, acc2);
        assert(acc.uvxy_flags.push(x) + args.subrange(i + 1, n) =~= acc.uvxy_flags
            + args.subrange(i, n));
    } else {
        assert(acc.uvxy_flags + args.subrange(i, n) =~= acc.uvxy_flags);
        assert(acc =~= ScanView {
            uv_args: acc.uv_args,
            uvxy_flags: acc.uvxy_flags,
            command_at: acc.command_at,
            insert_at: acc.insert_at,
            user_from: acc.user_from,
        });
    }
}

/// Without a flag table, a run of namespaced flags and then any other flag
/// end the read: the namespaced flags leave, no command is found, and uv
/// gets that flag and everything after it as typed.
pub proof fn law_no_table_stops_at_a_flag(ns: Seq<Seq<char>>, a: Seq<char>, rest: Seq<Seq<char>>)
    requires
        all_namespaced(ns),
        is_flag(a),
        !is_namespaced(a),
        a != separator(),
    ensures
        scan(ns + seq![a] + rest, None) == (ScanView {
            uv_args: seq![a] + rest,
            uvxy_flags: ns,
            command_at: None,
            insert_at: 0,
            user_from: false,
        }),
{
    let args = ns + seq![a] + rest;
    let n = ns.len() as int;
    assert forall|k: int| 0 <= k < n implies is_namespaced(#[trigger] args[k]) by {
        assert(args[k] == ns[k]);
    }
    lemma_scan_namespaced_run(args, None, 0, n, scan_start());
    assert(Seq::<Seq<char>>::empty() + args.subrange(0, n) =~= ns);
    assert(args[n] == a);
    assert(Seq::<Seq<char>>::empty() + args.skip(n) =~= seq![a] + rest);
}

/// `uvxy` reads namespaced flags only before the command: every argument
/// after the command reaches uv as typed, a `--uvxy-` flag included, and the
/// command itself reaches uv as typed too, unless a mapping moved its
/// `@version` into the spec.
#[verifier::spinoff_prover]
#[verifier::rlimit(40)]
pub proof fn law_after_command_untouched(
    args: Seq<Seq<char>>,
    table: Option<Set<Seq<char>>>,
    mappings: Map<Seq<char>, Seq<char>>,
)
    requires
        rewrite_spec(args, table, mappings) matches Ok(p) && p.command is Some,
    ensures
        ({
            let p = rewrite_spec(args, table, mappings)->Ok_0;
            exists|k: int|
                #![trigger args[k]]
                0 <= k < args.len() && {
                    let m = p.uv_args.len() - (args.len() - k);
                    &&& 0 <= m
                    &&& p.uv_args.skip(m + 1) == args.skip(k + 1)
                    &&& split_version(args[k]).0 == p.command->Some_0
                    &&& (p.uv_args[m] == args[k] || (p.applied is Some && p.uv_args[m] == split_version(
                        args[k],
                    ).0))
                }
        }),
{
    let s = scan(args, table);
    assert(args.take(0) =~= Seq::<Seq<char>>::empty());
    lemma_scan_tail(args, table, 0, scan_start());
    lemma_scan_shape(args, table, 0, scan_start());
    let c = s.command_at->Some_0;
    let k = choose|k: int|
        #![trigger args.skip(k)]
        0 <= k < args.len() && 0 <= c && s.uv_args.len() - c == args.len() - k && s.uv_args.skip(c)
            == args.skip(k);
    assert(s.uv_args[c] == args.skip(k)[0]);
    assert(s.uv_args.skip(c + 1) =~= args.skip(k + 1)) by {
        assert forall|j: int| 0 <= j < args.len() - k - 1 implies #[trigger] s.uv_args.skip(c + 1)[j]
            == args.skip(k + 1)[j] by {
            assert(s.uv_args.skip(c)[j + 1] == args.skip(k)[j + 1]);
        }
    }
    let p = rewrite_spec(args, table, mappings)->Ok_0;
    let ia = s.insert_at;
    let name = split_version(s.uv_args[c]).0;
    if p.applied is None {
        assert(p.uv_args == s.uv_args);
    } else {
        let base = if split_version(s.uv_args[c]).1 is None {
            s.uv_args
        } else {
            s.uv_args.update(c, name)
        };
        let spec = p.applied->Some_0.1;
        assert(p.uv_args == base.insert(ia, spec).insert(ia, from_flag()));
        assert(p.uv_args.len() == s.uv_args.len() + 2);
        assert(p.uv_args[c + 2] == base[c]);
        assert(p.uv_args.skip(c + 3) =~= s.uv_args.skip(c + 1)) by {
            assert forall|j: int| 0 <= j < s.uv_args.len() - c - 1 implies #[trigger] p.uv_args.skip(
                c + 3,
            )[j] == s.uv_args.skip(c + 1)[j] by {
                assert(p.uv_args[c + 3 + j] == base[c + 1 + j]);
            }
        }
    }
    assert(args[k] == args.skip(k)[0]);
}

/// Whether the user passed `--from` among the flags before the command.
pub open spec fn user_passed_from(args: Seq<Seq<char>>, table: Option<Set<Seq<char>>>) -> bool {
    scan(args, table).user_from
}

/// `uvxy` changes nothing when no mapping names the command, and when the
/// user passes `--from` before the command: the plan is the one that no
/// mapping at all gives, and it applies no mapping.
pub proof fn law_unmapped_changes_nothing(
    args: Seq<Seq<char>>,
    table: Option<Set<Seq<char>>>,
    mappings: Map<Seq<char>, Seq<char>>,
)
    requires
        user_passed_from(args, table) || (rewrite_spec(args, table, mappings) matches Ok(p) && (
        p.command matches Some(c) ==> !mappings.contains_key(c))),
    ensures
        rewrite_spec(args, table, mappings) == rewrite_spec(
            args,
            table,
            Map::<Seq<char>, Seq<char>>::empty(),
        ),
        rewrite_spec(args, table, mappings) matches Ok(p) && p.applied is None,
{
}

/// Fed its own output, `rewrite` changes nothing: it finds `--from` (its own,
/// or the user's) and applies no mapping, so `--from` goes in at most once.
/// This needs a table that knows that `--from` takes a value, or no table.
pub proof fn law_rewrite_idempotent(
    args: Seq<Seq<char>>,
    table: Option<Set<Seq<char>>>,
    mappings: Map<Seq<char>, Seq<char>>,
)
    requires
        rewrite_spec(args, table, mappings) is Ok,
        table matches Some(t) ==> t.contains(from_flag()),
    ensures
        ({
            let p = rewrite_spec(args, table, mappings)->Ok_0;
            let q = rewrite_spec(p.uv_args, table, mappings);
            &&& q is Ok
            &&& q->Ok_0.uv_args == p.uv_args
            &&& q->Ok_0.applied is None
            &&& q->Ok_0.uvxy_flags.len() == 0
        }),
{
    if rewrite_spec(args, table, mappings)->Ok_0.applied is Some {
        lemma_idempotent_applied(args, table, mappings);
    } else {
        lemma_idempotent_unapplied(args, table, mappings);
    }
}

/// A mapped spec that already constrains the version, because it holds one
/// of `= < > ! ~ @` (as in `black<24` or `acme==2.1`), never takes a typed
/// `@version` as well: such a pair is refused, naming the command, the spec
/// and the version. A version goes into a spec only when the spec holds none
/// of those characters, as `<spec>@<version>`; otherwise the spec goes to
/// uv as the mapping has it.
pub proof fn law_two_pins(
    args: Seq<Seq<char>>,
    table: Option<Set<Seq<char>>>,
    mappings: Map<Seq<char>, Seq<char>>,
)
    ensures
        match rewrite_spec(args, table, mappings) {
            Err((c, s, v)) => {
                &&& mappings.contains_key(c)
                &&& mappings[c] == s
                &&& v.len() > 0
                &&& exists|i: int|
                    0 <= i < s.len() && (#[trigger] s[i] == '=' || s[i] == '<' || s[i] == '>' || s[i]
                        == '!' || s[i] == '~' || s[i] == '@')
            },
            Ok(p) => p.applied matches Some((c, s2)) ==> {
                &&& mappings.contains_key(c)
                &&& (s2 == mappings[c] || ((forall|i: int|
                    0 <= i < mappings[c].len() ==> !(#[trigger] mappings[c][i] == '='
                        || mappings[c][i] == '<' || mappings[c][i] == '>' || mappings[c][i] == '!'
                        || mappings[c][i] == '~' || mappings[c][i] == '@')) && exists|v: Seq<char>|
                    v.len() > 0 && s2 == #[trigger] (mappings[c] + seq!['@'] + v)))
            },
        },
{
    let s = scan(args, table);
    if let Some(c) = s.command_at {
        law_split_version(s.uv_args[c]);
        let name = split_version(s.uv_args[c]).0;
        if !s.user_from && mappings.contains_key(name) {
            let spec = mappings[name];
            if let Some(v) = split_version(s.uv_args[c]).1 {
                if has_constraint(spec) {
                    let i = choose|i: int| 0 <= i < spec.len() && is_constraint_char(#[trigger] spec[i]);
                    assert(0 <= i < spec.len() && is_constraint_char(spec[i]));
                } else {
                    let s2 = spec + seq!['@'] + v;
                    assert(v.len() > 0 && s2 == spec + seq!['@'] + v);
                }
            }
        }
    }
}

} // verus!
