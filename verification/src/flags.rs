//! Learn which uv flags take a value, from the zsh completion script that
//! `uv generate-shell-completion zsh` prints.
use vstd::prelude::*;
use vstd::string::StringSliceAdditionalSpecFns;

use crate::config::{given, join, join_path, opt_view};
use crate::sorted::{lemma_strset_view, StrSet};
use crate::uvbin::{Uv, UvKind};
use crate::text::{
    is_ws, lemma_lines_first, lemma_trim_hi_bounds, lemma_trim_lo_bounds, strip_cr, trim_hi, trim_lo,
    lines, push_char, string_of, lines_from, lines_exec, range_eq, starts_at, chars_of, find_char, find_char_exec, lemma_find_char, string_of_all, trim, trim_bounds,
};

verus! {

/// Why no flag table came out.
#[derive(Debug, PartialEq, Eq)]
pub enum FlagsError {
    /// The binary is `uvx`, and `uvx` cannot generate shell completions.
    Uvx { path: String },
    /// The script holds no `uv tool run` section that a `(run)` label opens
    /// and a `;;` line closes.
    NoSection,
    /// The `uv tool run` section declares no flag that takes a value.
    NoValueFlag,
    /// `uv generate-shell-completion zsh` exited with a failure.
    CompletionFailed { path: String, message: String },
}

impl FlagsError {
    /// The message that says why no flag table came out.
    pub fn message(&self) -> (r: String)
        ensures
            match self {
                FlagsError::Uvx { path } => r@ == "`"@ + path@
                    + "` is uvx, and uvx cannot generate shell completions"@,
                FlagsError::NoSection => r@
                    == "cannot find the `uv tool run` section of the zsh completion script. "@
                    + "The format of the script changed."@,
                FlagsError::NoValueFlag => r@
                    == "the `uv tool run` section of the zsh completion script declares no "@
                    + "flag that takes a value. The format of the script changed."@,
                FlagsError::CompletionFailed { path, message } => r@ == "`"@ + path@
                    + " generate-shell-completion zsh` failed: "@ + message@,
            },
    {
        match self {
            FlagsError::Uvx { path } => {
                let mut r = String::from_str("`");
                r.append(path.as_str());
                r.append("` is uvx, and uvx cannot generate shell completions");
                r
            },
            FlagsError::NoSection => {
                let mut r = String::from_str(
                    "cannot find the `uv tool run` section of the zsh completion script. ",
                );
                r.append("The format of the script changed.");
                r
            },
            FlagsError::NoValueFlag => {
                let mut r = String::from_str(
                    "the `uv tool run` section of the zsh completion script declares no ",
                );
                r.append("flag that takes a value. The format of the script changed.");
                r
            },
            FlagsError::CompletionFailed { path, message } => {
                let mut r = String::from_str("`");
                r.append(path.as_str());
                r.append(" generate-shell-completion zsh` failed: ");
                r.append(message.as_str());
                r
            },
        }
    }
}

/// The `uv tool run` flags that consume the argument after them.
///
/// Names carry their dashes, as in `--from` and `-w`.
#[derive(Debug, Clone, PartialEq, Eq)]
pub struct FlagTable {
    value_flags: StrSet,
}

impl View for FlagTable {
    type V = Set<Seq<char>>;

    closed spec fn view(&self) -> Set<Seq<char>> {
        self.value_flags@
    }
}

impl FlagTable {
    /// The flags in ascending order, as a `BTreeSet` walks them.
    pub closed spec fn elems(&self) -> Seq<Seq<char>> {
        self.value_flags.elems()
    }

    /// Build a table that holds exactly the given flags.
    pub fn from_flags(flags: &[&str]) -> (r: Self)
        ensures
            forall|f: Seq<char>|
                r@.contains(f) <==> exists|i: int| 0 <= i < flags@.len() && f == (#[trigger] flags@[i])@,
    {
        let mut set = StrSet::new();
        let mut i: usize = 0;
        while i < flags.len()
            invariant
                i <= flags@.len(),
                forall|f: Seq<char>|
                    set@.contains(f) <==> exists|j: int| 0 <= j < i && f == (#[trigger] flags@[j])@,
            decreases flags@.len() - i,
        {
            let ghost before = set@;
            set.insert(String::from_str(flags[i]));
            assert forall|f: Seq<char>|
                set@.contains(f) <==> exists|j: int| 0 <= j < i + 1 && f == (#[trigger] flags@[j])@ by {
                if set@.contains(f) && f != flags@[i as int]@ {
                    assert(before.contains(f));
                }
                if exists|j: int| 0 <= j < i + 1 && f == (#[trigger] flags@[j])@ {
                    let j = choose|j: int| 0 <= j < i + 1 && f == (#[trigger] flags@[j])@;
                    if j < i {
                        assert(before.contains(f));
                    }
                }
            }
            i += 1;
        }
        FlagTable { value_flags: set }
    }

    /// Whether `flag` consumes the argument after it.
    pub fn takes_value(&self, flag: &str) -> (r: bool)
        ensures
            r == self@.contains(flag@),
    {
        self.value_flags.contains(flag)
    }

    /// The number of flags in the table.
    pub fn len(&self) -> (n: usize)
        ensures
            n == self@.len(),
            n == self.elems().len(),
            self@.finite(),
            crate::sorted::sorted(self.elems()),
            forall|x: Seq<char>| self@.contains(x) <==> self.elems().contains(x),
    {
        self.value_flags.len()
    }

    /// Whether the table holds no flag.
    pub fn is_empty(&self) -> (r: bool)
        ensures
            r == (self@.len() == 0),
            r == (self@ == Set::<Seq<char>>::empty()),
    {
        let n = self.value_flags.len();
        proof {
            if n > 0 {
                assert(self@.contains(self.elems()[0]));
            } else {
                assert(self@ =~= Set::<Seq<char>>::empty());
            }
        }
        n == 0
    }

    /// The flag at position `i` of the ascending order.
    pub fn flag(&self, i: usize) -> (r: &String)
        requires
            i < self.elems().len(),
        ensures
            r@ == self.elems()[i as int],
    {
        self.value_flags.get(i)
    }
}

impl Default for FlagTable {
    /// The table that holds no flag.
    fn default() -> (r: Self)
        ensures
            r@ == Set::<Seq<char>>::empty(),
            r.elems() == Seq::<Seq<char>>::empty(),
    {
        FlagTable { value_flags: StrSet::new() }
    }
}

/// An ASCII letter or digit.
pub open spec fn is_ascii_alnum(c: char) -> bool {
    ('a' <= c && c <= 'z') || ('A' <= c && c <= 'Z') || ('0' <= c && c <= '9')
}

/// A character that may follow the dashes of a flag name.
pub open spec fn is_flag_char(c: char) -> bool {
    is_ascii_alnum(c) || c == '-' || c == '_'
}

/// The part of a flag name after `--`, or else after `-`.
pub open spec fn flag_body(name: Seq<char>) -> Seq<char> {
    if name.len() >= 2 && name[0] == '-' && name[1] == '-' {
        name.skip(2)
    } else if name.len() >= 1 && name[0] == '-' {
        name.skip(1)
    } else {
        Seq::empty()
    }
}

/// Whether this text names a flag: one or two dashes, then at least one
/// ASCII letter, digit, `-` or `_`, and nothing else.
pub open spec fn is_flag_name(name: Seq<char>) -> bool {
    let b = flag_body(name);
    b.len() > 0 && forall|i: int| 0 <= i < b.len() ==> is_flag_char(#[trigger] b[i])
}

/// The characters `v[n..]`.
fn skip_vec(v: &Vec<char>, n: usize) -> (r: Vec<char>)
    requires
        n <= v@.len(),
    ensures
        r@ == v@.skip(n as int),
{
    let mut r: Vec<char> = Vec::new();
    let mut i = n;
    while i < v.len()
        invariant
            n <= i <= v@.len(),
            r@ == v@.subrange(n as int, i as int),
        decreases v@.len() - i,
    {
        r.push(v[i]);
        assert(v@.subrange(n as int, i + 1) == v@.subrange(n as int, i as int).push(v@[i as int]));
        i += 1;
    }
    r
}

/// The characters `v[..n]`.
fn take_vec(v: &Vec<char>, n: usize) -> (r: Vec<char>)
    requires
        n <= v@.len(),
    ensures
        r@ == v@.take(n as int),
{
    let mut r: Vec<char> = Vec::new();
    let mut i: usize = 0;
    while i < n
        invariant
            i <= n <= v@.len(),
            r@ == v@.subrange(0, i as int),
        decreases n - i,
    {
        r.push(v[i]);
        assert(v@.subrange(0, i + 1) == v@.subrange(0, i as int).push(v@[i as int]));
        i += 1;
    }
    r
}

fn is_flag_name_chars(name: &Vec<char>) -> (r: bool)
    ensures
        r == is_flag_name(name@),
{
    let n = name.len();
    let start: usize = if n >= 2 && name[0] == '-' && name[1] == '-' {
        2
    } else if n >= 1 && name[0] == '-' {
        1
    } else {
        return false;
    };
    if start >= n {
        return false;
    }
    let mut i = start;
    while i < n
        invariant
            start <= i <= n == name@.len(),
            flag_body(name@) == name@.skip(start as int),
            forall|k: int| start <= k < i ==> is_flag_char(#[trigger] name@[k]),
        decreases n - i,
    {
        let c = name[i];
        if !(('a' <= c && c <= 'z') || ('A' <= c && c <= 'Z') || ('0' <= c && c <= '9') || c
            == '-' || c == '_') {
            assert(flag_body(name@)[i - start] == c);
            return false;
        }
        i += 1;
    }
    assert forall|k: int| 0 <= k < flag_body(name@).len() implies is_flag_char(
        #[trigger] flag_body(name@)[k],
    ) by {
        assert(flag_body(name@)[k] == name@[start + k]);
    }
    true
}

/// Whether `name` names a flag.
pub fn is_flag_name_exec(name: &str) -> (r: bool)
    ensures
        r == is_flag_name(name@),
{
    let v = chars_of(name);
    is_flag_name_chars(&v)
}

/// The index of the bracket that closes an open bracket, read from index `i`
/// with `depth` brackets open. A backslash escapes the character after it.
pub open spec fn closing_from(s: Seq<char>, i: int, depth: int) -> Option<int>
    decreases s.len() - i,
{
    if i < 0 || i >= s.len() {
        None
    } else if s[i] == '\\' {
        if i + 2 > s.len() {
            None
        } else {
            closing_from(s, i + 2, depth)
        }
    } else if s[i] == '[' {
        closing_from(s, i + 1, depth + 1)
    } else if s[i] == ']' {
        if depth - 1 == 0 {
            Some(i)
        } else {
            closing_from(s, i + 1, depth - 1)
        }
    } else {
        closing_from(s, i + 1, depth)
    }
}

/// The index of the bracket that closes the bracket at index 0 of `s`.
pub open spec fn closing_bracket(s: Seq<char>) -> Option<int> {
    closing_from(s, 0, 0)
}

proof fn lemma_closing_from_bound(s: Seq<char>, i: int, depth: int)
    requires
        0 <= i,
    ensures
        closing_from(s, i, depth) matches Some(c) ==> i <= c < s.len(),
    decreases s.len() - i,
{
    if 0 <= i < s.len() {
        if s[i] == '\\' {
            if i + 2 <= s.len() {
                lemma_closing_from_bound(s, i + 2, depth);
            }
        } else if s[i] == '[' {
            lemma_closing_from_bound(s, i + 1, depth + 1);
        } else if s[i] == ']' {
            if depth - 1 != 0 {
                lemma_closing_from_bound(s, i + 1, depth - 1);
            }
        } else {
            lemma_closing_from_bound(s, i + 1, depth);
        }
    }
}

/// The index of the bracket that closes the first bracket of `v`.
fn closing_bracket_exec(v: &Vec<char>) -> (r: Option<usize>)
    requires
        v@.len() > 0,
        v@[0] == '[',
    ensures
        r matches Some(c) ==> closing_bracket(v@) == Some(c as int),
        r is None ==> closing_bracket(v@) is None,
{
    let mut depth: usize = 0;
    let mut index: usize = 0;
    while index < v.len()
        invariant
            index <= v@.len(),
            v@.len() > 0 && v@[0] == '[',
            depth <= index,
            index == 0 ==> depth == 0,
            index > 0 ==> depth >= 1,
            closing_bracket(v@) == closing_from(v@, index as int, depth as int),
        decreases v@.len() - index,
    {
        let c = v[index];
        if c == '\\' {
            if v.len() - index < 2 {
                return None;
            }
            index += 2;
            continue;
        } else if c == '[' {
            depth += 1;
        } else if c == ']' {
            depth -= 1;
            if depth == 0 {
                return Some(index);
            }
        }
        index += 1;
    }
    None
}

/// The index of the first `=`, `+` or `[` at or after `i`, or `s.len()`.
pub open spec fn find_sep(s: Seq<char>, i: int) -> int
    decreases s.len() - i,
{
    if i < 0 || i >= s.len() {
        if i < 0 { 0 } else { i }
    } else if s[i] == '=' || s[i] == '+' || s[i] == '[' {
        i
    } else {
        find_sep(s, i + 1)
    }
}

proof fn lemma_find_sep(s: Seq<char>, i: int)
    requires
        0 <= i <= s.len(),
    ensures
        i <= find_sep(s, i) <= s.len(),
        find_sep(s, i) < s.len() ==> (s[find_sep(s, i)] == '=' || s[find_sep(s, i)] == '+' || s[find_sep(s, i)] == '['),
    decreases s.len() - i,
{
    if i < s.len() && !(s[i] == '=' || s[i] == '+' || s[i] == '[') {
        lemma_find_sep(s, i + 1);
    }
}

/// An entry after its quote, its exclusion list and its `*`: the flag name
/// runs to the first `=`, `+` or `[`. A flag takes a value when `=` or `+`
/// follows the name, a bracketed description follows that, and a `:` follows
/// the description.
pub open spec fn entry_rest(r: Seq<char>) -> Option<(Seq<char>, bool)> {
    let sep = find_sep(r, 0);
    if sep >= r.len() {
        None
    } else {
        let name = r.take(sep);
        if !is_flag_name(name) {
            None
        } else {
            let open = if r[sep] == '[' { sep } else { sep + 1 };
            if open >= r.len() || r[open] != '[' {
                None
            } else {
                match closing_bracket(r.skip(open)) {
                    None => None,
                    Some(c) => {
                        let after = r.skip(open + c + 1);
                        Some((name, r[sep] != '[' && after.len() > 0 && after[0] == ':'))
                    },
                }
            }
        }
    }
}

/// The text of an `_arguments` entry after its opening `'`, the
/// parenthesised list of flags it excludes, and the `*` that marks a
/// repeatable flag; `None` when the trimmed line does not start with `'`
/// or its list does not close.
pub open spec fn entry_body(line: Seq<char>) -> Option<Seq<char>> {
    let t = trim(line);
    if t.len() == 0 || t[0] != '\'' {
        None
    } else {
        let r0 = t.skip(1);
        let r1: Option<Seq<char>> = if r0.len() > 0 && r0[0] == '(' {
            let after = r0.skip(1);
            let close = find_char(after, ')', 0);
            if close < after.len() {
                Some(after.skip(close + 1))
            } else {
                None
            }
        } else {
            Some(r0)
        };
        match r1 {
            None => None,
            Some(r1) => Some(
                if r1.len() > 0 && r1[0] == '*' {
                    r1.skip(1)
                } else {
                    r1
                },
            ),
        }
    }
}

/// One `_arguments` entry of the completion script: the name of the flag,
/// with its dashes, and whether the flag consumes the argument after it.
pub open spec fn entry(line: Seq<char>) -> Option<(Seq<char>, bool)> {
    match entry_body(line) {
        None => None,
        Some(r) => entry_rest(r),
    }
}

fn entry_rest_exec(r: &Vec<char>) -> (res: Option<(Vec<char>, bool)>)
    ensures
        match entry_rest(r@) {
            None => res is None,
            Some((n, tv)) => res matches Some((m, tv2)) && m@ == n && tv2 == tv,
        },
{
    let sep = {
        let mut i: usize = 0;
        while i < r.len() && !(r[i] == '=' || r[i] == '+' || r[i] == '[')
            invariant
                i <= r@.len(),
                find_sep(r@, 0) == find_sep(r@, i as int),
            decreases r@.len() - i,
        {
            i += 1;
        }
        i
    };
    if sep >= r.len() {
        return None;
    }
    let name = take_vec(r, sep);
    if !is_flag_name_chars(&name) {
        return None;
    }
    let open = if r[sep] == '[' {
        sep
    } else {
        sep + 1
    };
    if open >= r.len() || r[open] != '[' {
        return None;
    }
    let rest = skip_vec(r, open);
    match closing_bracket_exec(&rest) {
        None => None,
        Some(c) => {
            proof {
                lemma_closing_from_bound(rest@, 0, 0);
            }
            let after_at = open + c + 1;
            let takes_value = r[sep] != '[' && after_at < r.len() && r[after_at] == ':';
            proof {
                let after = r@.skip(open + c + 1);
                assert(after.len() > 0 ==> after[0] == r@[after_at as int]);
            }
            Some((name, takes_value))
        },
    }
}

fn entry_chars(v: &Vec<char>) -> (res: Option<(Vec<char>, bool)>)
    ensures
        match entry(v@) {
            None => res is None,
            Some((n, tv)) => res matches Some((m, tv2)) && m@ == n && tv2 == tv,
        },
{
    let (a, b) = trim_bounds(&v, 0, v.len());
    proof {
        assert(v@.subrange(0, v@.len() as int) == v@);
    }
    let ghost t = trim(v@);
    if a >= b || v[a] != '\'' {
        return None;
    }
    // r0: the entry after its opening quote.
    let mut r0: Vec<char> = Vec::new();
    let mut i = a + 1;
    while i < b
        invariant
            a + 1 <= i <= b <= v@.len(),
            t == v@.subrange(a as int, b as int),
            r0@ == v@.subrange(a + 1, i as int),
        decreases b - i,
    {
        r0.push(v[i]);
        assert(v@.subrange(a + 1, i + 1) == v@.subrange(a + 1, i as int).push(v@[i as int]));
        i += 1;
    }
    assert(r0@ == t.skip(1));
    let r1 = if r0.len() > 0 && r0[0] == '(' {
        let after = skip_vec(&r0, 1);
        let close = find_char_exec(&after, ')', 0);
        proof {
            lemma_find_char(after@, ')', 0);
        }
        if close >= after.len() {
            return None;
        }
        skip_vec(&after, close + 1)
    } else {
        r0
    };
    let r2 = if r1.len() > 0 && r1[0] == '*' {
        skip_vec(&r1, 1)
    } else {
        r1
    };
    entry_rest_exec(&r2)
}

/// Read one `_arguments` entry: the name of the flag, with its dashes, and
/// whether the flag consumes the argument after it.
pub fn parse_entry(line: &str) -> (res: Option<(String, bool)>)
    ensures
        match entry(line@) {
            None => res is None,
            Some((n, tv)) => res matches Some((m, tv2)) && m@ == n && tv2 == tv,
        },
{
    let v = chars_of(line);
    match entry_chars(&v) {
        None => None,
        Some((name, takes_value)) => Some((string_of_all(&name), takes_value)),
    }
}



/// The text that opens the scope of the `uv tool` subcommands.
pub open spec fn marker() -> Seq<char> {
    seq!['u', 'v', '-', 't', 'o', 'o', 'l', '-', 'c', 'o', 'm', 'm', 'a', 'n', 'd', '-']
}

/// The label of the `run` branch.
pub open spec fn run_label() -> Seq<char> {
    seq!['(', 'r', 'u', 'n', ')']
}

/// The line that closes a branch.
pub open spec fn close_label() -> Seq<char> {
    seq![';', ';']
}

/// The index of the first occurrence of `p` in `s` at or after `i`, or
/// `s.len()`.
pub open spec fn find_sub(s: Seq<char>, p: Seq<char>, i: int) -> int
    decreases s.len() - i,
{
    if i < 0 {
        0
    } else if i + p.len() > s.len() {
        s.len() as int
    } else if p.len() == 0 || s.subrange(i, i + p.len()) == p {
        i
    } else {
        find_sub(s, p, i + 1)
    }
}

proof fn lemma_find_sub(s: Seq<char>, p: Seq<char>, i: int)
    requires
        0 <= i <= s.len(),
    ensures
        i <= find_sub(s, p, i) <= s.len(),
    decreases s.len() - i,
{
    if i + p.len() <= s.len() && !(p.len() == 0 || s.subrange(i, i + p.len()) == p) {
        lemma_find_sub(s, p, i + 1);
    }
}

/// The index of the first line at or after `k` that reads `target` once
/// trimmed, or `ls.len()`.
pub open spec fn find_line(ls: Seq<Seq<char>>, target: Seq<char>, k: int) -> int
    decreases ls.len() - k,
{
    if k < 0 {
        0
    } else if k >= ls.len() {
        k
    } else if trim(ls[k]) == target {
        k
    } else {
        find_line(ls, target, k + 1)
    }
}

proof fn lemma_find_line(ls: Seq<Seq<char>>, target: Seq<char>, k: int)
    requires
        0 <= k <= ls.len(),
    ensures
        k <= find_line(ls, target, k) <= ls.len(),
    decreases ls.len() - k,
{
    if k < ls.len() && trim(ls[k]) != target {
        lemma_find_line(ls, target, k + 1);
    }
}

/// The lines that describe the arguments of `uv tool run`: after the first
/// `uv-tool-command-`, the lines after the first `(run)` line up to the next
/// `;;` line. A section without a close is no section.
pub open spec fn tool_run_section(s: Seq<char>) -> Option<Seq<Seq<char>>> {
    let m = find_sub(s, marker(), 0);
    if m >= s.len() {
        None
    } else {
        let ls = lines_from(s, m);
        let r = find_line(ls, run_label(), 0);
        if r >= ls.len() {
            None
        } else {
            let c = find_line(ls, close_label(), r + 1);
            if c >= ls.len() {
                None
            } else {
                Some(ls.subrange(r + 1, c))
            }
        }
    }
}

/// The flags that take a value among the entries of `section`.
pub open spec fn value_flags(section: Seq<Seq<char>>) -> Set<Seq<char>> {
    Set::new(
        |n: Seq<char>|
            exists|i: int| 0 <= i < section.len() && entry(#[trigger] section[i]) == Some((n, true)),
    )
}

/// What `parse_zsh_completion` gives for a script.
pub open spec fn zsh_table(s: Seq<char>) -> Result<Set<Seq<char>>, FlagsError> {
    match tool_run_section(s) {
        None => Err(FlagsError::NoSection),
        Some(section) => if value_flags(section) == Set::<Seq<char>>::empty() {
            Err(FlagsError::NoValueFlag)
        } else {
            Ok(value_flags(section))
        },
    }
}

fn line_is(line: &Vec<char>, target: &Vec<char>) -> (r: bool)
    ensures
        r == (trim(line@) == target@),
{
    let (a, b) = trim_bounds(line, 0, line.len());
    proof {
        assert(line@.subrange(0, line@.len() as int) == line@);
    }
    range_eq(line, a, b, target)
}

fn find_line_exec(ls: &Vec<Vec<char>>, target: &Vec<char>, k: usize) -> (r: usize)
    requires
        k <= ls@.len(),
    ensures
        r as int == find_line(ls@.map_values(|l: Vec<char>| l@), target@, k as int),
{
    let ghost lv = ls@.map_values(|l: Vec<char>| l@);
    let mut j = k;
    while j < ls.len()
        invariant
            k <= j <= ls@.len(),
            lv == ls@.map_values(|l: Vec<char>| l@),
            find_line(lv, target@, k as int) == find_line(lv, target@, j as int),
        decreases ls@.len() - j,
    {
        if line_is(&ls[j], target) {
            return j;
        }
        j += 1;
    }
    j
}

/// The lines of the `uv tool run` section, as `tool_run_section` says.
fn section_lines(v: &Vec<char>) -> (r: Option<Vec<Vec<char>>>)
    ensures
        match tool_run_section(v@) {
            None => r is None,
            Some(sec) => r matches Some(ls) && ls@.map_values(|l: Vec<char>| l@) == sec,
        },
{
    let mk = vec!['u', 'v', '-', 't', 'o', 'o', 'l', '-', 'c', 'o', 'm', 'm', 'a', 'n', 'd', '-'];
    assert(mk@ == marker());
    let mut m: usize = 0;
    while m < v.len() && !starts_at(v, m, &mk)
        invariant
            m <= v@.len(),
            mk@ == marker(),
            find_sub(v@, marker(), 0) == find_sub(v@, marker(), m as int),
        decreases v@.len() - m,
    {
        m += 1;
    }
    if m >= v.len() {
        return None;
    }
    let ls = lines_exec(v, m);
    let ghost lv = ls@.map_values(|l: Vec<char>| l@);
    assert(lv =~= lines_from(v@, m as int));
    let run = vec!['(', 'r', 'u', 'n', ')'];
    assert(run@ == run_label());
    let r = find_line_exec(&ls, &run, 0);
    proof {
        lemma_find_line(lv, run_label(), 0);
    }
    if r >= ls.len() {
        return None;
    }
    let close = vec![';', ';'];
    assert(close@ == close_label());
    let c = find_line_exec(&ls, &close, r + 1);
    proof {
        lemma_find_line(lv, close_label(), r + 1);
    }
    if c >= ls.len() {
        return None;
    }
    let mut sec: Vec<Vec<char>> = Vec::new();
    let mut k = r + 1;
    while k < c
        invariant
            r + 1 <= k <= c <= ls@.len(),
            lv == ls@.map_values(|l: Vec<char>| l@),
            sec@.len() == k - (r + 1),
            forall|j: int| 0 <= j < sec@.len() ==> (#[trigger] sec@[j])@ == lv[r + 1 + j],
        decreases c - k,
    {
        let line = copy_chars(&ls[k]);
        let ghost old_sec = sec@;
        sec.push(line);
        assert(lv[k as int] == ls@[k as int]@);
        k += 1;
    }
    assert(sec@.map_values(|l: Vec<char>| l@) =~= lv.subrange(r + 1, c as int));
    Some(sec)
}

fn copy_chars(v: &Vec<char>) -> (r: Vec<char>)
    ensures
        r@ == v@,
{
    let r = skip_vec(v, 0);
    assert(v@.skip(0) == v@);
    r
}

/// Read the flag table out of `uv generate-shell-completion zsh` output.
///
/// A flag that takes a value carries a `:NAME:` marker after its description,
/// as in `'--from=[Use the given package to provide the command]:FROM:_default'`.
/// Only the `uv tool run` section counts.
pub fn parse_zsh_completion(text: &str) -> (r: Result<FlagTable, FlagsError>)
    ensures
        match zsh_table(text@) {
            Ok(flags) => r matches Ok(t) && t@ == flags,
            Err(e) => r == Err::<FlagTable, FlagsError>(e),
        },
{
    let v = chars_of(text);
    let sec = match section_lines(&v) {
        None => return Err(FlagsError::NoSection),
        Some(sec) => sec,
    };
    let ghost sv = sec@.map_values(|l: Vec<char>| l@);
    let mut set = StrSet::new();
    let mut i: usize = 0;
    while i < sec.len()
        invariant
            i <= sec@.len(),
            sv == sec@.map_values(|l: Vec<char>| l@),
            forall|n: Seq<char>|
                set@.contains(n) <==> exists|j: int| 0 <= j < i && entry(#[trigger] sv[j]) == Some((n, true)),
        decreases sec@.len() - i,
    {
        let ghost before = set@;
        match entry_chars(&sec[i]) {
            Some((name, true)) => {
                set.insert(string_of_all(&name));
            },
            _ => {},
        }
        assert forall|n: Seq<char>|
            set@.contains(n) <==> exists|j: int| 0 <= j < i + 1 && entry(#[trigger] sv[j]) == Some((n, true)) by {
            if exists|j: int| 0 <= j < i + 1 && entry(#[trigger] sv[j]) == Some((n, true)) {
                let j = choose|j: int| 0 <= j < i + 1 && entry(#[trigger] sv[j]) == Some((n, true));
                if j < i {
                    assert(before.contains(n));
                }
            }
            if set@.contains(n) && !before.contains(n) {
                assert(entry(sv[i as int]) == Some((n, true)));
            }
        }
        i += 1;
    }
    assert(set@ =~= value_flags(sv));
    let table = FlagTable { value_flags: set };
    if table.is_empty() {
        return Err(FlagsError::NoValueFlag);
    }
    Ok(table)
}

/// The digit that writes `d`, for `d` below 16, in lower case.
pub open spec fn digit_char(d: int) -> char {
    if d == 0 {
        '0'
    } else if d == 1 {
        '1'
    } else if d == 2 {
        '2'
    } else if d == 3 {
        '3'
    } else if d == 4 {
        '4'
    } else if d == 5 {
        '5'
    } else if d == 6 {
        '6'
    } else if d == 7 {
        '7'
    } else if d == 8 {
        '8'
    } else if d == 9 {
        '9'
    } else if d == 10 {
        'a'
    } else if d == 11 {
        'b'
    } else if d == 12 {
        'c'
    } else if d == 13 {
        'd'
    } else if d == 14 {
        'e'
    } else {
        'f'
    }
}

fn digit_exec(d: u128) -> (c: char)
    requires
        d < 16,
    ensures
        c == digit_char(d as int),
{
    if d == 0 {
        '0'
    } else if d == 1 {
        '1'
    } else if d == 2 {
        '2'
    } else if d == 3 {
        '3'
    } else if d == 4 {
        '4'
    } else if d == 5 {
        '5'
    } else if d == 6 {
        '6'
    } else if d == 7 {
        '7'
    } else if d == 8 {
        '8'
    } else if d == 9 {
        '9'
    } else if d == 10 {
        'a'
    } else if d == 11 {
        'b'
    } else if d == 12 {
        'c'
    } else if d == 13 {
        'd'
    } else if d == 14 {
        'e'
    } else {
        'f'
    }
}

/// `x` in decimal, with no leading zero.
pub open spec fn decimal(x: nat) -> Seq<char>
    decreases x,
{
    if x < 10 {
        seq![digit_char(x as int)]
    } else {
        decimal(x / 10).push(digit_char((x % 10) as int))
    }
}

/// The decimal digits of `x`.
pub(crate) fn decimal_exec(x: u128) -> (r: Vec<char>)
    ensures
        r@ == decimal(x as nat),
    decreases x,
{
    if x < 10 {
        let mut v: Vec<char> = Vec::new();
        v.push(digit_exec(x));
        assert(v@ =~= seq![digit_char(x as int)]);
        v
    } else {
        let mut v = decimal_exec(x / 10);
        v.push(digit_exec(x % 10));
        v
    }
}

/// The last `n` hexadecimal digits of `x`, in lower case, zeros in front.
pub open spec fn hex_fixed(x: nat, n: nat) -> Seq<char>
    decreases n,
{
    if n == 0 {
        seq![]
    } else {
        hex_fixed(x / 16, (n - 1) as nat).push(digit_char((x % 16) as int))
    }
}

fn hex_fixed_exec(x: u64, n: usize) -> (r: Vec<char>)
    ensures
        r@ == hex_fixed(x as nat, n as nat),
    decreases n,
{
    if n == 0 {
        Vec::new()
    } else {
        let mut v = hex_fixed_exec(x / 16, n - 1);
        v.push(digit_exec((x % 16) as u128));
        v
    }
}

/// The FNV-1a hash of a byte sequence, with 64-bit arithmetic that wraps.
pub open spec fn fnv1a(bytes: Seq<u8>) -> u64
    decreases bytes.len(),
{
    if bytes.len() == 0 {
        0xcbf2_9ce4_8422_2325u64
    } else {
        (((fnv1a(bytes.drop_last()) ^ (bytes.last() as u64)) as nat * 0x0000_0100_0000_01b3nat)
            % 0x1_0000_0000_0000_0000nat) as u64
    }
}

/// Hash the UTF-8 bytes of a path with the FNV-1a function.
///
/// The hash names a cache file. It guards no data, so a short
/// non-cryptographic function is enough.
pub fn hash_path(path: &str) -> (h: u64)
    ensures
        h == fnv1a(path.spec_bytes()),
{
    let bytes = path.as_bytes();
    let mut hash: u64 = 0xcbf2_9ce4_8422_2325;
    let mut i: usize = 0;
    assert(bytes@.take(0) =~= Seq::<u8>::empty());
    while i < bytes.len()
        invariant
            i <= bytes@.len(),
            bytes@ == path.spec_bytes(),
            hash == fnv1a(bytes@.take(i as int)),
        decreases bytes@.len() - i,
    {
        assert(bytes@.take(i + 1).drop_last() =~= bytes@.take(i as int));
        hash = hash ^ (bytes[i] as u64);
        hash = hash.wrapping_mul(0x0000_0100_0000_01b3);
        i += 1;
    }
    assert(bytes@.take(bytes@.len() as int) =~= bytes@);
    hash
}

/// The first line of a cache file. A change to the file format needs a
/// change to this text, because an old file then no longer matches the key.
pub open spec fn cache_format() -> Seq<char> {
    "uvxy-flags-1"@
}

/// The key that identifies one uv binary: the format, the modification time
/// in nanoseconds since the epoch, the size, and the path, with a space
/// between each two.
pub open spec fn cache_key_spec(mtime_nanos: nat, len: nat, path: Seq<char>) -> Seq<char> {
    cache_format() + seq![' '] + decimal(mtime_nanos) + seq![' '] + decimal(len) + seq![' ']
        + path
}

/// Append the characters of `v` to `s`.
pub(crate) fn append_chars(s: &mut String, v: &Vec<char>)
    ensures
        final(s)@ == old(s)@ + v@,
{
    let mut i: usize = 0;
    while i < v.len()
        invariant
            i <= v@.len(),
            s@ == old(s)@ + v@.take(i as int),
        decreases v@.len() - i,
    {
        push_char(s, v[i]);
        assert(v@.take(i + 1) =~= v@.take(i as int).push(v@[i as int]));
        i += 1;
    }
    assert(v@.take(v@.len() as int) =~= v@);
}

/// Build the key that identifies one uv binary. One `stat` call yields all
/// three values, and no uv process starts.
pub fn cache_key(mtime_nanos: u128, len: u64, path: &str) -> (r: String)
    ensures
        r@ == cache_key_spec(mtime_nanos as nat, len as nat, path@),
{
    let mut r = String::from_str("uvxy-flags-1");
    push_char(&mut r, ' ');
    append_chars(&mut r, &decimal_exec(mtime_nanos));
    push_char(&mut r, ' ');
    append_chars(&mut r, &decimal_exec(len as u128));
    push_char(&mut r, ' ');
    r.append(path);
    assert(r@ =~= cache_key_spec(mtime_nanos as nat, len as nat, path@));
    r
}

/// The directory of the cache files: `$XDG_CACHE_HOME/uvxy`, or
/// `$HOME/.cache/uvxy`, or on Windows `%LOCALAPPDATA%\uvxy\cache`. `None`
/// when the environment names no such directory. An empty variable counts as
/// an absent one.
pub open spec fn cache_dir_spec(
    windows: bool,
    local_app_data: Option<Seq<char>>,
    xdg_cache_home: Option<Seq<char>>,
    home: Option<Seq<char>>,
) -> Option<Seq<char>> {
    if windows {
        if given(local_app_data) {
            Some(join(join(local_app_data->Some_0, "uvxy"@, true), "cache"@, true))
        } else {
            None
        }
    } else if given(xdg_cache_home) {
        Some(join(xdg_cache_home->Some_0, "uvxy"@, false))
    } else if given(home) {
        Some(join(join(home->Some_0, ".cache"@, false), "uvxy"@, false))
    } else {
        None
    }
}

/// Return the directory that holds the cache files.
pub fn cache_dir(
    windows: bool,
    local_app_data: Option<&str>,
    xdg_cache_home: Option<&str>,
    home: Option<&str>,
) -> (r: Option<String>)
    ensures
        match cache_dir_spec(
            windows,
            opt_view(local_app_data),
            opt_view(xdg_cache_home),
            opt_view(home),
        ) {
            Some(d) => r matches Some(s) && s@ == d,
            None => r is None,
        },
{
    if windows {
        match local_app_data {
            Some(l) if !l.is_empty() => {
                let u = join_path(l, "uvxy", true);
                Some(join_path(u.as_str(), "cache", true))
            },
            _ => None,
        }
    } else {
        match xdg_cache_home {
            Some(x) if !x.is_empty() => Some(join_path(x, "uvxy", false)),
            _ => match home {
                Some(h) if !h.is_empty() => {
                    let c = join_path(h, ".cache", false);
                    Some(join_path(c.as_str(), "uvxy", false))
                },
                _ => None,
            },
        }
    }
}

/// The name of the cache file for the uv binary whose path has the UTF-8
/// bytes `bytes`: `flags-` and the FNV-1a hash of the bytes in 16
/// hexadecimal digits.
pub open spec fn cache_file_name(bytes: Seq<u8>) -> Seq<char> {
    "flags-"@ + hex_fixed(fnv1a(bytes) as nat, 16)
}

/// Return the path of the cache file for one uv binary. The name carries a
/// hash of the path, so two uv binaries hold two files and neither one
/// displaces the other.
pub fn cache_file(cache_dir: Option<&str>, uv_path: &str, windows: bool) -> (r: Option<String>)
    ensures
        match cache_dir {
            None => r is None,
            Some(d) => r matches Some(f) && f@ == join(
                d@,
                cache_file_name(uv_path.spec_bytes()),
                windows,
            ),
        },
{
    match cache_dir {
        None => None,
        Some(d) => {
            let h = hash_path(uv_path);
            let mut name = String::from_str("flags-");
            append_chars(&mut name, &hex_fixed_exec(h, 16));
            Some(join_path(d, name.as_str(), windows))
        },
    }
}

/// The flags that a cache file lists: each line after the first, trimmed,
/// when it is not empty.
pub open spec fn cache_flags(ls: Seq<Seq<char>>) -> Set<Seq<char>> {
    Set::new(
        |f: Seq<char>| exists|i: int| 1 <= i < ls.len() && trim(#[trigger] ls[i]) == f && f.len() > 0,
    )
}

/// What `read_cache` gives: the flags, when the first line is the key and at
/// least one flag follows.
pub open spec fn read_cache_spec(text: Seq<char>, key: Seq<char>) -> Option<Set<Seq<char>>> {
    let ls = lines(text);
    if ls.len() == 0 || ls[0] != key {
        None
    } else if cache_flags(ls) == Set::<Seq<char>>::empty() {
        None
    } else {
        Some(cache_flags(ls))
    }
}

/// Read a cached table out of the text of a cache file.
///
/// Return `None` when the first line differs from `key`, or when the file
/// lists no flag. The caller then derives the table again.
pub fn read_cache(text: &str, key: &str) -> (r: Option<FlagTable>)
    ensures
        match read_cache_spec(text@, key@) {
            Some(flags) => r matches Some(t) && t@ == flags,
            None => r is None,
        },
{
    let v = chars_of(text);
    let ls = lines_exec(&v, 0);
    let ghost lv = lines(v@);
    if ls.len() == 0 {
        return None;
    }
    let k = chars_of(key);
    if !range_eq(&ls[0], 0, ls[0].len(), &k) {
        proof {
            assert(ls@[0]@.subrange(0, ls@[0]@.len() as int) == ls@[0]@);
        }
        return None;
    }
    proof {
        assert(ls@[0]@.subrange(0, ls@[0]@.len() as int) == ls@[0]@);
    }
    let mut set = StrSet::new();
    let mut i: usize = 1;
    while i < ls.len()
        invariant
            1 <= i <= ls@.len(),
            lv == lines(v@),
            ls@.len() == lv.len(),
            forall|m: int| 0 <= m < ls@.len() ==> (#[trigger] ls@[m])@ == lv[m],
            forall|f: Seq<char>|
                set@.contains(f) <==> exists|j: int| 1 <= j < i && trim(#[trigger] lv[j]) == f && f.len() > 0,
        decreases ls@.len() - i,
    {
        let ghost before = set@;
        let (a, b) = trim_bounds(&ls[i], 0, ls[i].len());
        proof {
            assert(ls@[i as int]@.subrange(0, ls@[i as int]@.len() as int) == ls@[i as int]@);
        }
        if a < b {
            set.insert(string_of(&ls[i], a, b));
        }
        assert forall|f: Seq<char>|
            set@.contains(f) <==> exists|j: int| 1 <= j < i + 1 && trim(#[trigger] lv[j]) == f && f.len() > 0 by {
            if exists|j: int| 1 <= j < i + 1 && trim(#[trigger] lv[j]) == f && f.len() > 0 {
                let j = choose|j: int| 1 <= j < i + 1 && trim(#[trigger] lv[j]) == f && f.len() > 0;
                if j < i {
                    assert(before.contains(f));
                }
            }
            if set@.contains(f) && !before.contains(f) {
                assert(trim(lv[i as int]) == f);
            }
        }
        i += 1;
    }
    assert(set@ =~= cache_flags(lv));
    let table = FlagTable { value_flags: set };
    if table.is_empty() {
        return None;
    }
    Some(table)
}

/// The text of a cache file: the key, then each flag in ascending order,
/// each on a line of its own.
pub open spec fn cache_text_spec(key: Seq<char>, flags: Seq<Seq<char>>) -> Seq<char>
    decreases flags.len(),
{
    if flags.len() == 0 {
        key.push('\n')
    } else {
        cache_text_spec(key, flags.drop_last()) + flags.last().push('\n')
    }
}

/// Build the text of a cache file for `table`.
pub fn cache_text(key: &str, table: &FlagTable) -> (r: String)
    ensures
        r@ == cache_text_spec(key@, table.elems()),
{
    let n = table.len();
    let mut r = String::from_str(key);
    push_char(&mut r, '\n');
    let mut i: usize = 0;
    assert(table.elems().take(0) =~= Seq::<Seq<char>>::empty());
    while i < n
        invariant
            i <= n == table.elems().len(),
            r@ == cache_text_spec(key@, table.elems().take(i as int)),
        decreases n - i,
    {
        let f = table.flag(i);
        let ghost before = r@;
        r.append(f.as_str());
        push_char(&mut r, '\n');
        assert(table.elems().take(i + 1).drop_last() =~= table.elems().take(i as int));
        assert(r@ =~= before + f@.push('\n'));
        i += 1;
    }
    assert(table.elems().take(n as int) =~= table.elems());
    r
}

/// What `uvxy` does next to obtain the flag table. Each step names the
/// outside work, and the function that takes its result.
#[derive(Debug)]
pub enum FlagsStep {
    /// Read the metadata of the binary at `path` with one `stat` call, and
    /// hand the modification time and the size to `after_stat`.
    Stat { path: String },
    /// Read the cache file `file`, and hand its text (or `None`) to
    /// `after_cache_read`.
    ReadCache { path: String, file: String, key: String },
    /// Run `<path> generate-shell-completion zsh`, and hand the output to
    /// `after_derive`.
    Derive { path: String, key: String, cache_file: Option<String> },
    /// Write `text` to the cache file `file`. A failure to write costs speed
    /// and nothing else. The table is done.
    WriteCache { file: String, text: String, table: FlagTable },
    /// The table is done.
    Done(FlagTable),
}

/// Start to build the flag table for the binary `uv`.
///
/// `uvx` reads its first argument as the name of a tool, so a request for
/// completions would start a tool named `generate-shell-completion`: refuse
/// `uvx`. For `uv`, the first step reads the metadata of the binary.
pub fn load(uv: &Uv) -> (r: Result<FlagsStep, FlagsError>)
    ensures
        uv.kind == UvKind::Uvx ==> (r matches Err(FlagsError::Uvx { path }) && path@ == uv.path@),
        uv.kind == UvKind::Uv ==> (r matches Ok(FlagsStep::Stat { path }) && path@ == uv.path@),
{
    match uv.kind {
        UvKind::Uvx => Err(FlagsError::Uvx { path: uv.path.clone() }),
        UvKind::Uv => Ok(FlagsStep::Stat { path: uv.path.clone() }),
    }
}

/// After the `stat` of the binary at `path`: build the cache key, and read the
/// cache file when the environment names a cache directory. Else derive the
/// table.
pub fn after_stat(
    path: &str,
    mtime_nanos: u128,
    len: u64,
    cache_dir: Option<&str>,
    windows: bool,
) -> (r: FlagsStep)
    ensures
        match cache_dir {
            Some(d) => r matches FlagsStep::ReadCache { path: p, file, key } && p@ == path@
                && file@ == join(d@, cache_file_name(path.spec_bytes()), windows) && key@
                == cache_key_spec(mtime_nanos as nat, len as nat, path@),
            None => r matches FlagsStep::Derive { path: p, key, cache_file: None } && p@ == path@ && key@
                == cache_key_spec(mtime_nanos as nat, len as nat, path@),
        },
{
    let key = cache_key(mtime_nanos, len, path);
    match cache_file(cache_dir, path, windows) {
        Some(file) => FlagsStep::ReadCache { path: String::from_str(path), file, key },
        None => FlagsStep::Derive { path: String::from_str(path), key, cache_file: None },
    }
}

/// What `after_cache_read` gives: the cached table when the text `text` of
/// the cache file holds one under `key`; else the step that derives the
/// table and keeps the file for the write.
pub open spec fn cache_read_step(
    path: String,
    file: String,
    key: String,
    text: Option<Seq<char>>,
    r: FlagsStep,
) -> bool {
    match text {
        Some(t) => match read_cache_spec(t, key@) {
            Some(flags) => r matches FlagsStep::Done(table) && table@ == flags,
            None => r matches FlagsStep::Derive { path: p, key: k, cache_file: Some(f) } && p == path
                && k == key && f == file,
        },
        None => r matches FlagsStep::Derive { path: p, key: k, cache_file: Some(f) } && p == path
            && k == key && f == file,
    }
}

/// What `after_derive` gives: a failed run is an error that carries the
/// trimmed error output; else the table of the completion script, or its
/// error; a table goes to the cache file as `cache_text` builds it, when
/// there is a file.
pub open spec fn derive_step(
    path: String,
    key: Seq<char>,
    file: Option<String>,
    success: bool,
    stdout: Seq<char>,
    stderr: Seq<char>,
    r: Result<FlagsStep, FlagsError>,
) -> bool {
    &&& !success ==> (r matches Err(FlagsError::CompletionFailed { path: p, message }) && p == path
        && message@ == trim(stderr))
    &&& success ==> match zsh_table(stdout) {
        Err(e) => r == Err::<FlagsStep, FlagsError>(e),
        Ok(flags) => match file {
            Some(f) => r matches Ok(FlagsStep::WriteCache { file: g, text, table }) && g == f
                && table@ == flags && text@ == cache_text_spec(key, table.elems()),
            None => r matches Ok(FlagsStep::Done(table)) && table@ == flags,
        },
    }
}

/// After the read of the cache file: use the cached table when the file holds
/// one under `key`. Else derive the table, and keep the file for the write.
pub fn after_cache_read(path: String, file: String, key: String, text: Option<&str>) -> (r:
    FlagsStep)
    ensures
        cache_read_step(path, file, key, opt_view(text), r),
{
    if let Some(t) = text {
        if let Some(table) = read_cache(t, key.as_str()) {
            return FlagsStep::Done(table);
        }
    }
    FlagsStep::Derive { path, key, cache_file: Some(file) }
}

/// After `generate-shell-completion zsh` ran: refuse a failed run, read the
/// table out of its output, and write the table to the cache file when there
/// is one.
pub fn after_derive(
    path: String,
    key: &str,
    file: Option<String>,
    success: bool,
    stdout: &str,
    stderr: &str,
) -> (r: Result<FlagsStep, FlagsError>)
    ensures
        derive_step(path, key@, file, success, stdout@, stderr@, r),
{
    if !success {
        let e = chars_of(stderr);
        let (a, b) = trim_bounds(&e, 0, e.len());
        assert(e@.subrange(0, e@.len() as int) == e@);
        return Err(FlagsError::CompletionFailed { path, message: string_of(&e, a, b) });
    }
    let table = parse_zsh_completion(stdout)?;
    match file {
        Some(f) => {
            let text = cache_text(key, &table);
            Ok(FlagsStep::WriteCache { file: f, text, table })
        },
        None => Ok(FlagsStep::Done(table)),
    }
}

/// The lines `f\n` of each flag, front to back.
pub open spec fn cache_body(fs: Seq<Seq<char>>) -> Seq<char>
    decreases fs.len(),
{
    if fs.len() == 0 {
        seq![]
    } else {
        fs[0].push('\n') + cache_body(fs.drop_first())
    }
}

proof fn lemma_cache_body_push(fs: Seq<Seq<char>>, f: Seq<char>)
    ensures
        cache_body(fs.push(f)) == cache_body(fs) + f.push('\n'),
    decreases fs.len(),
{
    if fs.len() == 0 {
        assert(fs.push(f).drop_first() =~= Seq::<Seq<char>>::empty());
        assert(cache_body(Seq::<Seq<char>>::empty()) == Seq::<char>::empty());
        assert(fs.push(f)[0] == f);
        assert(cache_body(fs.push(f)) =~= f.push('\n') + Seq::<char>::empty());
        assert(cache_body(fs.push(f)) =~= f.push('\n'));
        assert(cache_body(fs) + f.push('\n') =~= f.push('\n'));
    } else {
        assert(fs.push(f).drop_first() =~= fs.drop_first().push(f));
        lemma_cache_body_push(fs.drop_first(), f);
        assert(fs.push(f)[0] == fs[0]);
        assert(fs[0].push('\n') + (cache_body(fs.drop_first()) + f.push('\n')) =~= (fs[0].push('\n')
            + cache_body(fs.drop_first())) + f.push('\n'));
    }
}

proof fn lemma_cache_text_body(key: Seq<char>, fs: Seq<Seq<char>>)
    ensures
        cache_text_spec(key, fs) == key.push('\n') + cache_body(fs),
    decreases fs.len(),
{
    if fs.len() == 0 {
        assert(key.push('\n') + cache_body(fs) =~= key.push('\n'));
    } else {
        lemma_cache_text_body(key, fs.drop_last());
        lemma_cache_body_push(fs.drop_last(), fs.last());
        assert(fs.drop_last().push(fs.last()) =~= fs);
        assert(key.push('\n') + (cache_body(fs.drop_last()) + fs.last().push('\n')) =~= (key.push(
            '\n',
        ) + cache_body(fs.drop_last())) + fs.last().push('\n'));
    }
}

proof fn lemma_cache_body_lines(fs: Seq<Seq<char>>)
    requires
        forall|i: int| 0 <= i < fs.len() ==> !(#[trigger] fs[i]).contains('\n'),
    ensures
        lines(cache_body(fs)) == fs.map_values(|f: Seq<char>| strip_cr(f)),
    decreases fs.len(),
{
    if fs.len() == 0 {
        assert(lines(Seq::<char>::empty()) =~= Seq::<Seq<char>>::empty());
        assert(fs.map_values(|f: Seq<char>| strip_cr(f)) =~= Seq::<Seq<char>>::empty());
    } else {
        assert(!fs[0].contains('\n'));
        assert forall|i: int| 0 <= i < fs.drop_first().len() implies !(
        #[trigger] fs.drop_first()[i]).contains('\n') by {
            assert(fs.drop_first()[i] == fs[i + 1]);
        }
        lemma_cache_body_lines(fs.drop_first());
        lemma_lines_first(fs[0], cache_body(fs.drop_first()));
        assert(fs.map_values(|f: Seq<char>| strip_cr(f)) =~= seq![strip_cr(fs[0])]
            + fs.drop_first().map_values(|f: Seq<char>| strip_cr(f)));
    }
}

/// A flag name holds no line break and no whitespace, so the lines of a
/// cache file give it back unchanged.
proof fn lemma_flag_name_plain(f: Seq<char>)
    requires
        is_flag_name(f),
    ensures
        !f.contains('\n'),
        strip_cr(f) == f,
        trim(f) == f,
        f.len() > 0,
        forall|k: int| 0 <= k < f.len() ==> !is_ws(#[trigger] f[k]),
{
    let b = flag_body(f);
    let d: int = if f.len() >= 2 && f[0] == '-' && f[1] == '-' { 2 } else { 1 };
    assert forall|k: int| 0 <= k < f.len() implies (f[k] == '-' || is_flag_char(#[trigger] f[k])) by {
        if k >= d {
            assert(b[k - d] == f[k]);
        }
    }
    assert forall|k: int| 0 <= k < f.len() implies !is_ws(#[trigger] f[k]) by {
        assert(f[k] == '-' || is_flag_char(f[k]));
    }
    if f.contains('\n') {
        let k = choose|k: int| 0 <= k < f.len() && f[k] == '\n';
        assert(!is_ws(f[k]));
    }
    assert(!is_ws(f.last()));
    lemma_trim_lo_bounds(f, 0);
    lemma_trim_hi_bounds(f, 0, f.len() as int);
    assert(trim_lo(f, 0) == 0);
    assert(trim_hi(f, 0, f.len() as int) == f.len());
    assert(f.subrange(0, f.len() as int) =~= f);
}

/// A flag that a cache file can hold on a line of its own and give back as
/// it is: not empty, without a line break, and without white space at either
/// end.
pub open spec fn is_cache_line(f: Seq<char>) -> bool {
    f.len() > 0 && !f.contains('\n') && trim(f) == f
}

/// A text that trimming leaves as it is, and that is not empty, ends in no
/// `\r`.
proof fn lemma_trimmed_ends_plain(f: Seq<char>)
    requires
        f.len() > 0,
        trim(f) == f,
    ensures
        strip_cr(f) == f,
{
    lemma_trim_lo_bounds(f, 0);
    let lo = trim_lo(f, 0);
    lemma_trim_hi_bounds(f, lo, f.len() as int);
    let hi = trim_hi(f, lo, f.len() as int);
    assert(trim(f).len() == hi - lo);
    assert(lo == 0 && hi == f.len());
    assert(!is_ws(f[f.len() - 1]));
    assert(f.last() == f[f.len() - 1]);
}

/// What the cache holds under a key reads back under the same key: a table
/// written with `cache_text` reads back with `read_cache` as the same table,
/// provided the table is not empty, each flag fits a line of its own
/// unchanged (`is_cache_line`), and the key holds no line break.
pub proof fn law_cache_roundtrip(key: Seq<char>, table: &FlagTable)
    requires
        !key.contains('\n'),
        !(key.len() > 0 && key.last() == '\r'),
        table@.len() > 0,
        table@.finite(),
        forall|f: Seq<char>| table@.contains(f) ==> is_cache_line(f),
    ensures
        read_cache_spec(cache_text_spec(key, table.elems()), key) == Some(table@),
{
    let fs = table.elems();
    lemma_strset_view(&table.value_flags);
    assert(table@ == fs.to_set());
    assert forall|i: int| 0 <= i < fs.len() implies is_cache_line(#[trigger] fs[i]) by {
        assert(fs.to_set().contains(fs[i]));
    }
    assert forall|i: int| 0 <= i < fs.len() implies !(#[trigger] fs[i]).contains('\n') by {
        assert(is_cache_line(fs[i]));
    }
    lemma_cache_text_body(key, fs);
    lemma_lines_first(key, cache_body(fs));
    lemma_cache_body_lines(fs);
    let ls = lines(cache_text_spec(key, fs));
    assert(ls == seq![strip_cr(key)] + fs.map_values(|f: Seq<char>| strip_cr(f)));
    assert(ls[0] == key);
    assert forall|f: Seq<char>| cache_flags(ls).contains(f) <==> table@.contains(f) by {
        if cache_flags(ls).contains(f) {
            let i = choose|i: int| 1 <= i < ls.len() && trim(#[trigger] ls[i]) == f && f.len() > 0;
            assert(is_cache_line(fs[i - 1]));
            lemma_trimmed_ends_plain(fs[i - 1]);
            assert(ls[i] == strip_cr(fs[i - 1]));
            assert(fs.to_set().contains(fs[i - 1]));
        }
        if table@.contains(f) {
            assert(fs.to_set().contains(f));
            let k = choose|k: int| 0 <= k < fs.len() && fs[k] == f;
            assert(is_cache_line(fs[k]));
            lemma_trimmed_ends_plain(fs[k]);
            assert(ls[k + 1] == strip_cr(fs[k]));
            assert(trim(ls[k + 1]) == f);
        }
    }
    assert(cache_flags(ls) =~= table@);
    if table@ == Set::<Seq<char>>::empty() {
        assert(table@.len() == 0);
    }
}

/// Every flag name fits a line of a cache file unchanged, so the tables that
/// the completion script yields meet `law_cache_roundtrip`.
pub proof fn lemma_flag_name_is_cache_line(f: Seq<char>)
    requires
        is_flag_name(f),
    ensures
        is_cache_line(f),
{
    lemma_flag_name_plain(f);
}

/// Every flag that the completion script yields carries a flag name.
pub proof fn law_zsh_flags_are_flag_names(text: Seq<char>)
    ensures
        zsh_table(text) matches Ok(flags) ==> forall|f: Seq<char>|
            flags.contains(f) ==> is_flag_name(f),
{
    if let Ok(flags) = zsh_table(text) {
        let sec = tool_run_section(text)->Some_0;
        assert forall|f: Seq<char>| flags.contains(f) implies is_flag_name(f) by {
            let i = choose|i: int| 0 <= i < sec.len() && entry(#[trigger] sec[i]) == Some((f, true));
            lemma_entry_name(sec[i]);
        }
    }
}

proof fn lemma_entry_name(line: Seq<char>)
    ensures
        entry(line) matches Some((n, _)) ==> is_flag_name(n),
{
}

/// The flag table, read from the cache file `file` or derived from uv: a
/// cache file that holds a table under `key` gives that table, and uv does
/// not run. Otherwise uv runs; a failed run, or a script without a table, is
/// an error; and a table that uv yields is the result and goes to the cache
/// file as a text that reads back, under the same key, as the same table.
pub proof fn law_flags_chain(
    path: String,
    file: String,
    key: String,
    cached: Option<Seq<char>>,
    read: FlagsStep,
    success: bool,
    stdout: Seq<char>,
    stderr: Seq<char>,
    derived: Result<FlagsStep, FlagsError>,
)
    requires
        cache_read_step(path, file, key, cached, read),
        read matches FlagsStep::Derive { path: p, key: k, cache_file: f } ==> derive_step(
            p,
            k@,
            f,
            success,
            stdout,
            stderr,
            derived,
        ),
        !key@.contains('\n'),
        !(key@.len() > 0 && key@.last() == '\r'),
    ensures
        (cached matches Some(t) && read_cache_spec(t, key@) is Some) ==> (read matches FlagsStep::Done(
            table,
        ) && Some(table@) == read_cache_spec(cached->Some_0, key@)),
        !(cached matches Some(t) && read_cache_spec(t, key@) is Some) ==> {
            &&& read is Derive
            &&& !success ==> derived is Err
            &&& (success && zsh_table(stdout) is Err) ==> derived == Err::<FlagsStep, FlagsError>(
                zsh_table(stdout)->Err_0,
            )
            &&& (success && zsh_table(stdout) is Ok) ==> (derived matches Ok(
                FlagsStep::WriteCache { file: g, text, table },
            ) && g == file && Ok::<Set<Seq<char>>, FlagsError>(table@) == zsh_table(stdout)
                && read_cache_spec(text@, key@) == Some(table@))
        },
{
    if !(cached matches Some(t) && read_cache_spec(t, key@) is Some) {
        if success {
            if let Ok(flags) = zsh_table(stdout) {
                if let Ok(FlagsStep::WriteCache { file: g, text, table }) = derived {
                    law_zsh_flags_are_flag_names(stdout);
                    lemma_strset_view(&table.value_flags);
                    assert forall|f: Seq<char>| table@.contains(f) implies is_cache_line(f) by {
                        lemma_flag_name_is_cache_line(f);
                    }
                    assert(table@.len() > 0) by {
                        if table@.len() == 0 {
                            assert(table@ =~= Set::<Seq<char>>::empty());
                        }
                    }
                    law_cache_roundtrip(key@, &table);
                }
            }
        }
    }
}

/// An entry that parses is quoted and names a flag, and that flag takes a
/// value exactly when `=` or `+` follows its name, a bracketed description
/// follows that, and a `:` follows the bracket that closes the description.
/// So `--f[d]:X:_default` and `--f=[d]` take no value.
pub proof fn law_entry_shape(line: Seq<char>)
    ensures
        entry(line) matches Some((n, tv)) ==> {
            let r = entry_body(line)->Some_0;
            let sep = n.len() as int;
            &&& trim(line).len() > 0 && trim(line)[0] == '\''
            &&& is_flag_name(n)
            &&& sep < r.len() && r.take(sep) == n
            &&& (r[sep] == '=' || r[sep] == '+' || r[sep] == '[')
            &&& (tv <==> (r[sep] != '[' && sep + 1 < r.len() && r[sep + 1] == '['
                && match closing_bracket(r.skip(sep + 1)) {
                Some(c) => sep + c + 2 < r.len() && r[sep + c + 2] == ':',
                None => false,
            }))
        },
{
    if let Some(r) = entry_body(line) {
        lemma_find_sep(r, 0);
        let sep = find_sep(r, 0);
        if sep < r.len() {
            let open = if r[sep] == '[' { sep } else { sep + 1 };
            if open < r.len() && r[open] == '[' {
                if let Some(c) = closing_bracket(r.skip(open)) {
                    lemma_closing_from_bound(r.skip(open), 0, 0);
                    let after = r.skip(open + c + 1);
                    assert(after.len() > 0 ==> after[0] == r[open + c + 1]);
                }
            }
        }
    }
}

/// Whether `p` stands in `s` at index `m`.
pub open spec fn occurs_at(s: Seq<char>, p: Seq<char>, m: int) -> bool {
    0 <= m && m + p.len() <= s.len() && s.subrange(m, m + p.len()) == p
}

/// Whether `m` is the first index where the marker `uv-tool-command-` stands.
pub open spec fn first_marker(s: Seq<char>, m: int) -> bool {
    occurs_at(s, marker(), m) && forall|k: int| 0 <= k < m ==> !#[trigger] occurs_at(s, marker(), k)
}

/// Whether `r` is the first line at or after `from` that trims to `t`.
pub open spec fn first_line(ls: Seq<Seq<char>>, t: Seq<char>, from: int, r: int) -> bool {
    from <= r < ls.len() && trim(ls[r]) == t && forall|q: int|
        from <= q < r ==> trim(#[trigger] ls[q]) != t
}

proof fn lemma_find_sub_first(s: Seq<char>, p: Seq<char>, i: int)
    requires
        0 <= i <= s.len(),
        p.len() > 0,
    ensures
        find_sub(s, p, i) < s.len() ==> occurs_at(s, p, find_sub(s, p, i)),
        forall|k: int| i <= k < find_sub(s, p, i) ==> !#[trigger] occurs_at(s, p, k),
        find_sub(s, p, i) >= s.len() ==> forall|k: int| i <= k ==> !#[trigger] occurs_at(s, p, k),
    decreases s.len() - i,
{
    if i + p.len() <= s.len() && s.subrange(i, i + p.len()) != p {
        lemma_find_sub_first(s, p, i + 1);
    }
}

proof fn lemma_find_line_first(ls: Seq<Seq<char>>, t: Seq<char>, k: int)
    requires
        0 <= k <= ls.len(),
    ensures
        find_line(ls, t, k) < ls.len() ==> first_line(ls, t, k, find_line(ls, t, k)),
        find_line(ls, t, k) >= ls.len() ==> forall|q: int| k <= q < ls.len() ==> trim(
            #[trigger] ls[q],
        ) != t,
    decreases ls.len() - k,
{
    lemma_find_line(ls, t, k);
    if k < ls.len() && trim(ls[k]) != t {
        lemma_find_line_first(ls, t, k + 1);
    }
}

/// The section of `uv tool run`: from the first `uv-tool-command-` of the
/// script on, the first line that trims to `(run)` opens it and the first
/// later line that trims to `;;` closes it; the section is the lines
/// between the two, untrimmed and in order. Without the marker, without
/// such a `(run)` line, or without such a `;;` line, there is none.
pub proof fn law_tool_run_section(s: Seq<char>)
    ensures
        match tool_run_section(s) {
            Some(sec) => exists|m: int, r: int, c: int|
                #![trigger first_marker(s, m), first_line(lines_from(s, m), run_label(), 0, r), first_line(lines_from(s, m), close_label(), r + 1, c)]
                first_marker(s, m) && first_line(lines_from(s, m), run_label(), 0, r) && first_line(
                    lines_from(s, m),
                    close_label(),
                    r + 1,
                    c,
                ) && sec == lines_from(s, m).subrange(r + 1, c),
            None => forall|m: int, r: int|
                #![trigger first_marker(s, m), first_line(lines_from(s, m), run_label(), 0, r)]
                first_marker(s, m) && first_line(lines_from(s, m), run_label(), 0, r) ==> forall|q: int|
                    r < q < lines_from(s, m).len() ==> trim(#[trigger] lines_from(s, m)[q])
                        != close_label(),
        },
{
    lemma_find_sub(s, marker(), 0);
    lemma_find_sub_first(s, marker(), 0);
    let m = find_sub(s, marker(), 0);
    if m < s.len() {
        let ls = lines_from(s, m);
        lemma_find_line_first(ls, run_label(), 0);
        let r = find_line(ls, run_label(), 0);
        assert(first_marker(s, m));
        if r < ls.len() {
            lemma_find_line_first(ls, close_label(), r + 1);
            let c = find_line(ls, close_label(), r + 1);
            if c < ls.len() {
                assert(first_line(ls, close_label(), r + 1, c));
            } else {
                assert forall|m2: int, r2: int|
                    first_marker(s, m2) && first_line(lines_from(s, m2), run_label(), 0, r2) implies forall|q: int|
                    r2 < q < lines_from(s, m2).len() ==> trim(#[trigger] lines_from(s, m2)[q])
                        != close_label() by {
                    if m2 < m {
                        assert(!occurs_at(s, marker(), m2));
                    } else if m2 > m {
                        assert(!occurs_at(s, marker(), m));
                    }
                    assert(m2 == m);
                    if r2 < r {
                        assert(trim(ls[r2]) != run_label());
                    } else if r2 > r {
                        assert(trim(ls[r]) != run_label());
                    }
                }
            }
        } else {
            assert forall|m2: int, r2: int|
                first_marker(s, m2) && first_line(lines_from(s, m2), run_label(), 0, r2) implies forall|q: int|
                r2 < q < lines_from(s, m2).len() ==> trim(#[trigger] lines_from(s, m2)[q])
                    != close_label() by {
                if m2 < m {
                    assert(!occurs_at(s, marker(), m2));
                } else if m2 > m {
                    assert(!occurs_at(s, marker(), m));
                }
                assert(m2 == m);
                assert(trim(ls[r2]) != run_label());
            }
        }
    } else {
        assert forall|m2: int, r2: int|
            first_marker(s, m2) && first_line(lines_from(s, m2), run_label(), 0, r2) implies forall|q: int|
            r2 < q < lines_from(s, m2).len() ==> trim(#[trigger] lines_from(s, m2)[q])
                != close_label() by {
            assert(!occurs_at(s, marker(), m2));
        }
    }
}

/// The count of open brackets with which the scan from index `i`, at `d`
/// open brackets, reaches index `k`: `None` when it skips `k` as the
/// character after a backslash, or stops before `k` (at the end of the text,
/// or at the bracket that closes the first).
pub open spec fn depth_at(s: Seq<char>, i: int, d: int, k: int) -> Option<int>
    decreases s.len() - i,
{
    if i < 0 || i >= s.len() || i > k {
        None
    } else if i == k {
        Some(d)
    } else if s[i] == '\\' {
        if i + 2 > s.len() {
            None
        } else {
            depth_at(s, i + 2, d, k)
        }
    } else if s[i] == '[' {
        depth_at(s, i + 1, d + 1, k)
    } else if s[i] == ']' {
        if d - 1 == 0 {
            None
        } else {
            depth_at(s, i + 1, d - 1, k)
        }
    } else {
        depth_at(s, i + 1, d, k)
    }
}

proof fn lemma_closing_depth(s: Seq<char>, i: int, d: int, c: int)
    requires
        0 <= i,
    ensures
        closing_from(s, i, d) == Some(c) <==> (c < s.len() && s[c] == ']' && depth_at(s, i, d, c)
            == Some(1int)),
    decreases s.len() - i,
{
    lemma_closing_from_bound(s, i, d);
    if i < s.len() && i <= c {
        if s[i] == '\\' {
            if i + 2 <= s.len() {
                lemma_closing_depth(s, i + 2, d, c);
                lemma_closing_from_bound(s, i + 2, d);
            }
        } else if s[i] == '[' {
            lemma_closing_depth(s, i + 1, d + 1, c);
            lemma_closing_from_bound(s, i + 1, d + 1);
        } else if s[i] == ']' {
            if d - 1 != 0 {
                lemma_closing_depth(s, i + 1, d - 1, c);
                lemma_closing_from_bound(s, i + 1, d - 1);
            }
        } else {
            lemma_closing_depth(s, i + 1, d, c);
            lemma_closing_from_bound(s, i + 1, d);
        }
    }
}

proof fn lemma_depth_positive(s: Seq<char>, i: int, d: int, k: int)
    requires
        0 <= i,
        d >= 1,
    ensures
        depth_at(s, i, d, k) matches Some(e) ==> e >= 1,
    decreases s.len() - i,
{
    if 0 <= i < s.len() && i < k {
        if s[i] == '\\' {
            if i + 2 <= s.len() {
                lemma_depth_positive(s, i + 2, d, k);
            }
        } else if s[i] == '[' {
            lemma_depth_positive(s, i + 1, d + 1, k);
        } else if s[i] == ']' {
            if d - 1 != 0 {
                lemma_depth_positive(s, i + 1, d - 1, k);
            }
        } else {
            lemma_depth_positive(s, i + 1, d, k);
        }
    }
}

/// For a text that opens with `[`: the bracket that closes it is the index
/// that the scan, which skips the character after each backslash, reaches at
/// a `]` with one bracket open; the scan stops there, so that index is the
/// least such one. Before it the count of open brackets never falls below
/// one, so the count never underflows.
pub proof fn law_closing_bracket(s: Seq<char>, c: int)
    requires
        s.len() > 0,
        s[0] == '[',
    ensures
        closing_bracket(s) == Some(c) <==> (0 <= c < s.len() && s[c] == ']' && depth_at(s, 0, 0, c)
            == Some(1int)),
        forall|k: int| 0 < k ==> (#[trigger] depth_at(s, 0, 0, k) matches Some(d) ==> d >= 1),
{
    lemma_closing_depth(s, 0, 0, c);
    lemma_closing_from_bound(s, 0, 0);
    assert forall|k: int| 0 < k implies (#[trigger] depth_at(s, 0, 0, k) matches Some(d) ==> d >= 1) by {
        lemma_depth_positive(s, 1, 1, k);
    }
}

/// A cached table is used only under exactly its own key: the first line of
/// the cache file must be the key of the uv binary, character for
/// character, so a file written for another binary, or for the same one
/// before it changed, never gives a table; and the table it gives holds
/// just the trimmed, non-empty lines after the key.
pub proof fn law_cache_only_under_its_key(text: Seq<char>, key: Seq<char>)
    ensures
        read_cache_spec(text, key) matches Some(flags) ==> {
            &&& lines(text).len() > 0
            &&& lines(text)[0] == key
            &&& flags.len() > 0 || flags != Set::<Seq<char>>::empty()
            &&& forall|f: Seq<char>| flags.contains(f) <==> exists|i: int|
                1 <= i < lines(text).len() && #[trigger] trim(lines(text)[i]) == f && f.len() > 0
        },
{
}

} // verus!
