//! Read the mappings out of `uvxy.toml`, and merge the files.
//!
//! The file holds one table, `[commands]`. Each key is a command, and each
//! value is a package spec string. A key matches exactly, and nothing
//! normalizes it.
use vstd::prelude::*;

use crate::flags::{append_chars, decimal, decimal_exec};
use crate::sorted::StrMap;
use crate::text::{chars_of, find_char, find_char_exec, lemma_find_char, push_char, string_of};

verus! {

/// Why a file does not give mappings. Each variant carries the number of the
/// line, counted from 1.
#[derive(Debug, PartialEq, Eq)]
pub enum ParseError {
    /// Text that is not TOML.
    Syntax { line: usize },
    /// A table other than `[commands]`.
    UnknownTable { line: usize, name: String },
    /// `commands` holds a value that is not a table.
    NotATable { line: usize },
    /// The `commands` table made a second time: by a second header, or by
    /// a header or dotted keys after an inline table, or by a header after
    /// dotted keys.
    DuplicateTable { line: usize },
    /// A key outside the `[commands]` table.
    KeyOutsideTable { line: usize, key: String },
    /// The value of a command is not a string.
    NotAString { line: usize, key: String },
    /// A command that the table already maps.
    DuplicateKey { line: usize, key: String },
}

/// A parse error, read as text.
pub enum ParseErrorView {
    Syntax { line: int },
    UnknownTable { line: int, name: Seq<char> },
    NotATable { line: int },
    DuplicateTable { line: int },
    KeyOutsideTable { line: int, key: Seq<char> },
    NotAString { line: int, key: Seq<char> },
    DuplicateKey { line: int, key: Seq<char> },
}

impl ParseError {
    pub open spec fn view(&self) -> ParseErrorView {
        match *self {
            ParseError::Syntax { line } => ParseErrorView::Syntax { line: line as int },
            ParseError::UnknownTable { line, name } => ParseErrorView::UnknownTable {
                line: line as int,
                name: name@,
            },
            ParseError::NotATable { line } => ParseErrorView::NotATable { line: line as int },
            ParseError::DuplicateTable { line } => ParseErrorView::DuplicateTable {
                line: line as int,
            },
            ParseError::KeyOutsideTable { line, key } => ParseErrorView::KeyOutsideTable {
                line: line as int,
                key: key@,
            },
            ParseError::NotAString { line, key } => ParseErrorView::NotAString {
                line: line as int,
                key: key@,
            },
            ParseError::DuplicateKey { line, key } => ParseErrorView::DuplicateKey {
                line: line as int,
                key: key@,
            },
        }
    }
}

/// The message of a parse error, after `line N: `.
pub open spec fn parse_message(e: ParseErrorView) -> Seq<char> {
    match e {
        ParseErrorView::Syntax { line } => "line "@ + decimal(line as nat)
            + ": this is not TOML"@,
        ParseErrorView::UnknownTable { line, name } => "line "@ + decimal(line as nat)
            + ": the table `["@ + name + "]` is not `[commands]`"@,
        ParseErrorView::NotATable { line } => "line "@ + decimal(line as nat)
            + ": `commands` is not a table"@,
        ParseErrorView::DuplicateTable { line } => "line "@ + decimal(line as nat)
            + ": the `commands` table is made a second time"@,
        ParseErrorView::KeyOutsideTable { line, key } => "line "@ + decimal(line as nat)
            + ": the key `"@ + key + "` stands outside the `[commands]` table"@,
        ParseErrorView::NotAString { line, key } => "line "@ + decimal(line as nat)
            + ": the value of `"@ + key + "` is not a string"@,
        ParseErrorView::DuplicateKey { line, key } => "line "@ + decimal(line as nat)
            + ": the command `"@ + key + "` appears twice"@,
    }
}

impl ParseError {
    /// The message that names the line and what is wrong with it.
    pub fn message(&self) -> (r: String)
        ensures
            r@ == parse_message(self.view()),
    {
        let mut r = String::from_str("line ");
        let line = match self {
            ParseError::Syntax { line } => *line,
            ParseError::UnknownTable { line, .. } => *line,
            ParseError::NotATable { line } => *line,
            ParseError::DuplicateTable { line } => *line,
            ParseError::KeyOutsideTable { line, .. } => *line,
            ParseError::NotAString { line, .. } => *line,
            ParseError::DuplicateKey { line, .. } => *line,
        };
        append_chars(&mut r, &decimal_exec(line as u128));
        match self {
            ParseError::Syntax { .. } => {
                r.append(": this is not TOML");
            },
            ParseError::UnknownTable { name, .. } => {
                r.append(": the table `[");
                r.append(name.as_str());
                r.append("]` is not `[commands]`");
            },
            ParseError::NotATable { .. } => {
                r.append(": `commands` is not a table");
            },
            ParseError::DuplicateTable { .. } => {
                r.append(": the `commands` table is made a second time");
            },
            ParseError::KeyOutsideTable { key, .. } => {
                r.append(": the key `");
                r.append(key.as_str());
                r.append("` stands outside the `[commands]` table");
            },
            ParseError::NotAString { key, .. } => {
                r.append(": the value of `");
                r.append(key.as_str());
                r.append("` is not a string");
            },
            ParseError::DuplicateKey { key, .. } => {
                r.append(": the command `");
                r.append(key.as_str());
                r.append("` appears twice");
            },
        }
        r
    }
}

/// Space or tab, the whitespace of TOML.
pub open spec fn is_toml_ws(c: char) -> bool {
    c == ' ' || c == '\t'
}

/// A character of a bare key.
pub open spec fn is_bare_char(c: char) -> bool {
    ('a' <= c && c <= 'z') || ('A' <= c && c <= 'Z') || ('0' <= c && c <= '9') || c == '-' || c
        == '_'
}

/// A control character that a TOML string may not hold: below U+0020 except
/// tab, and U+007F.
pub open spec fn is_control(c: char) -> bool {
    (c < ' ' && c != '\t') || c == '\u{7f}'
}

/// The first index at or after `i` that is not space or tab, or `s.len()`.
pub open spec fn skip_ws(s: Seq<char>, i: int) -> int
    decreases s.len() - i,
{
    if i < 0 {
        0
    } else if i < s.len() && is_toml_ws(s[i]) {
        skip_ws(s, i + 1)
    } else {
        i
    }
}

/// The first index at or after `i` that is not a bare key character.
pub open spec fn bare_end(s: Seq<char>, i: int) -> int
    decreases s.len() - i,
{
    if i < 0 {
        0
    } else if i < s.len() && is_bare_char(s[i]) {
        bare_end(s, i + 1)
    } else {
        i
    }
}

/// The value of one hexadecimal digit.
pub open spec fn hex_value(c: char) -> Option<u32> {
    if '0' <= c && c <= '9' {
        Some((c as u32 - '0' as u32) as u32)
    } else if 'a' <= c && c <= 'f' {
        Some((c as u32 - 'a' as u32 + 10) as u32)
    } else if 'A' <= c && c <= 'F' {
        Some((c as u32 - 'A' as u32 + 10) as u32)
    } else {
        None
    }
}

/// The number that the hexadecimal digits `s[i..i + n]` write.
pub open spec fn hex_number(s: Seq<char>, i: int, n: nat) -> Option<int>
    decreases n,
{
    if n == 0 {
        Some(0)
    } else if i + n > s.len() || i < 0 {
        None
    } else {
        match (hex_number(s, i, (n - 1) as nat), hex_value(s[i + n - 1])) {
            (Some(high), Some(d)) => Some(high * 16 + d),
            _ => None,
        }
    }
}

/// A Unicode scalar value: a code point that is not a surrogate.
pub open spec fn is_scalar(x: int) -> bool {
    0 <= x <= 0x10FFFF && !(0xD800 <= x <= 0xDFFF)
}

/// The character that an escape sequence starting at `s[j]` (after the
/// backslash) writes, and the index after it.
pub open spec fn escape_at(s: Seq<char>, j: int) -> Option<(char, int)> {
    if j < 0 || j >= s.len() {
        None
    } else {
        let e = s[j];
        if e == 'b' {
            Some(('\u{8}', j + 1))
        } else if e == 't' {
            Some(('\t', j + 1))
        } else if e == 'n' {
            Some(('\n', j + 1))
        } else if e == 'f' {
            Some(('\u{c}', j + 1))
        } else if e == 'r' {
            Some(('\r', j + 1))
        } else if e == '"' {
            Some(('"', j + 1))
        } else if e == '\\' {
            Some(('\\', j + 1))
        } else if e == 'u' || e == 'U' {
            let n: nat = if e == 'u' { 4 } else { 8 };
            match hex_number(s, j + 1, n) {
                Some(x) => if is_scalar(x) {
                    Some((x as char, j + 1 + n))
                } else {
                    None
                },
                None => None,
            }
        } else {
            None
        }
    }
}

/// A basic string `"..."` from index `j` on, with `acc` read so far: its text
/// and the index after its closing quote.
pub open spec fn basic_from(s: Seq<char>, j: int, acc: Seq<char>) -> Option<(Seq<char>, int)>
    decreases s.len() - j,
{
    if j < 0 || j >= s.len() {
        None
    } else if s[j] == '"' {
        Some((acc, j + 1))
    } else if s[j] == '\\' {
        match escape_at(s, j + 1) {
            Some((c, next)) => if j < next <= s.len() {
                basic_from(s, next, acc.push(c))
            } else {
                None
            },
            None => None,
        }
    } else if is_control(s[j]) {
        None
    } else {
        basic_from(s, j + 1, acc.push(s[j]))
    }
}

/// A literal string `'...'` from index `j` on: its text and the index after
/// its closing quote.
pub open spec fn literal_from(s: Seq<char>, j: int, acc: Seq<char>) -> Option<(Seq<char>, int)>
    decreases s.len() - j,
{
    if j < 0 || j >= s.len() {
        None
    } else if s[j] == '\'' {
        Some((acc, j + 1))
    } else if is_control(s[j]) {
        None
    } else {
        literal_from(s, j + 1, acc.push(s[j]))
    }
}

/// A string that starts at `s[i]`: basic or literal.
pub open spec fn string_at(s: Seq<char>, i: int) -> Option<(Seq<char>, int)> {
    if 0 <= i < s.len() && s[i] == '"' {
        basic_from(s, i + 1, Seq::empty())
    } else if 0 <= i < s.len() && s[i] == '\'' {
        literal_from(s, i + 1, Seq::empty())
    } else {
        None
    }
}

/// A key that starts at `s[i]`: bare or quoted. Its text and the index after
/// it.
pub open spec fn key_at(s: Seq<char>, i: int) -> Option<(Seq<char>, int)> {
    if 0 <= i < s.len() && (s[i] == '"' || s[i] == '\'') {
        string_at(s, i)
    } else {
        let e = bare_end(s, i);
        if 0 <= i < e {
            Some((s.subrange(i, e), e))
        } else {
            None
        }
    }
}

/// A line break at `i`, `\n` or `\r\n`: the index after it.
pub open spec fn newline_at(s: Seq<char>, i: int) -> Option<int> {
    if 0 <= i < s.len() && s[i] == '\n' {
        Some(i + 1)
    } else if 0 <= i && i + 1 < s.len() && s[i] == '\r' && s[i + 1] == '\n' {
        Some(i + 2)
    } else {
        None
    }
}

/// Where the line ends, after its line break or at the end of the text, when
/// only space, tab and a comment stand from `i` on; else `None`.
pub open spec fn rest_of_line(s: Seq<char>, i: int) -> Option<int> {
    let k = skip_ws(s, i);
    if k >= s.len() {
        Some(s.len() as int)
    } else if s[k] == '#' {
        let n = find_char(s, '\n', k);
        if n < s.len() {
            Some(n + 1)
        } else {
            Some(s.len() as int)
        }
    } else {
        newline_at(s, k)
    }
}

/// A dotted key from index `i` on, after the parts `acc`: its parts and the
/// index after its last part. Space and tab may stand around each dot.
pub open spec fn keypath_from(s: Seq<char>, i: int, acc: Seq<Seq<char>>) -> Option<
    (Seq<Seq<char>>, int),
>
    decreases s.len() - i,
{
    match key_at(s, i) {
        None => None,
        Some((k, e)) => {
            let d = skip_ws(s, e);
            if d < s.len() && s[d] == '.' {
                let n = skip_ws(s, d + 1);
                if i < n <= s.len() {
                    keypath_from(s, n, acc.push(k))
                } else {
                    None
                }
            } else {
                Some((acc.push(k), e))
            }
        }
    }
}

/// The first index at or after `i` that is not space, tab or a line break.
pub open spec fn skip_ws_nl(s: Seq<char>, i: int) -> int
    decreases s.len() - i,
{
    if i < 0 {
        0
    } else if i < s.len() && (s[i] == ' ' || s[i] == '\t' || s[i] == '\n' || s[i] == '\r') {
        skip_ws_nl(s, i + 1)
    } else {
        i
    }
}

/// Whether three `q` stand at `j`.
pub open spec fn triple_at(s: Seq<char>, j: int, q: char) -> bool {
    0 <= j && j + 2 < s.len() && s[j] == q && s[j + 1] == q && s[j + 2] == q
}

/// The delimiter of a multi-line string quoted with `q`, at `j`, with the one
/// or two quotes that may stand just inside it: the text that those quotes
/// add, and the index after the delimiter. Six quotes in a row are refused.
pub open spec fn ml_close(s: Seq<char>, j: int, q: char) -> Option<(Seq<char>, int)> {
    if j + 3 < s.len() && s[j + 3] == q {
        if j + 4 < s.len() && s[j + 4] == q {
            if j + 5 < s.len() && s[j + 5] == q {
                None
            } else {
                Some((seq![q, q], j + 5))
            }
        } else {
            Some((seq![q], j + 4))
        }
    } else {
        Some((seq![], j + 3))
    }
}

/// Where the text of a multi-line string starts, after its opening delimiter
/// at `j - 3`: a line break right after the delimiter is not part of it.
pub open spec fn ml_start(s: Seq<char>, j: int) -> int {
    match newline_at(s, j) {
        Some(n) => n,
        None => j,
    }
}

/// A multi-line basic string `"""..."""` from index `j` on, with `acc` read
/// so far: its text and the index after its closing delimiter. It holds
/// line breaks as they stand and the escapes of a basic string; a backslash
/// at the end of a line drops the white space and line breaks after it.
pub open spec fn ml_basic_from(s: Seq<char>, j: int, acc: Seq<char>) -> Option<(Seq<char>, int)>
    decreases s.len() - j,
{
    if j < 0 || j >= s.len() {
        None
    } else if triple_at(s, j, '"') {
        match ml_close(s, j, '"') {
            Some((t, e)) => Some((acc + t, e)),
            None => None,
        }
    } else if s[j] == '\\' {
        let k = skip_ws(s, j + 1);
        if newline_at(s, k) is Some {
            let m = skip_ws_nl(s, k);
            if j < m <= s.len() {
                ml_basic_from(s, m, acc)
            } else {
                None
            }
        } else {
            match escape_at(s, j + 1) {
                Some((c, next)) => if j < next <= s.len() {
                    ml_basic_from(s, next, acc.push(c))
                } else {
                    None
                },
                None => None,
            }
        }
    } else {
        match newline_at(s, j) {
            Some(n) => if j < n <= s.len() {
                ml_basic_from(s, n, acc + s.subrange(j, n))
            } else {
                None
            },
            None => if is_control(s[j]) {
                None
            } else {
                ml_basic_from(s, j + 1, acc.push(s[j]))
            },
        }
    }
}

/// A multi-line literal string `'''...'''` from index `j` on, with `acc`
/// read so far: its text, with line breaks as they stand and no escapes, and
/// the index after its closing delimiter.
pub open spec fn ml_literal_from(s: Seq<char>, j: int, acc: Seq<char>) -> Option<(Seq<char>, int)>
    decreases s.len() - j,
{
    if j < 0 || j >= s.len() {
        None
    } else if triple_at(s, j, '\'') {
        match ml_close(s, j, '\'') {
            Some((t, e)) => Some((acc + t, e)),
            None => None,
        }
    } else {
        match newline_at(s, j) {
            Some(n) => if j < n <= s.len() {
                ml_literal_from(s, n, acc + s.subrange(j, n))
            } else {
                None
            },
            None => if is_control(s[j]) {
                None
            } else {
                ml_literal_from(s, j + 1, acc.push(s[j]))
            },
        }
    }
}

/// A string value at `v`, of any of the four kinds: its text and the index
/// after it.
pub open spec fn string_value_at(s: Seq<char>, v: int) -> Option<(Seq<char>, int)> {
    if triple_at(s, v, '"') {
        ml_basic_from(s, ml_start(s, v + 3), Seq::empty())
    } else if triple_at(s, v, '\'') {
        ml_literal_from(s, ml_start(s, v + 3), Seq::empty())
    } else {
        string_at(s, v)
    }
}

/// A value at `v` that is no inline table: `Some(text)` and the index after
/// it for a string, `None` for any other value. No value at all is `None`.
pub open spec fn plain_value_at(s: Seq<char>, v: int) -> Option<(Option<Seq<char>>, int)> {
    if v < 0 || v >= s.len() || s[v] == '#' || newline_at(s, v) is Some {
        None
    } else if s[v] == '"' || s[v] == '\'' {
        match string_value_at(s, v) {
            Some((t, e)) => Some((Some(t), e)),
            None => None,
        }
    } else {
        Some((None, v))
    }
}

/// The entries of an inline table from index `j` on, after the entries
/// `acc`: each a dotted key and its value (`None` when it is not a string),
/// and the index after the closing `}`. The read stops at the first value
/// that is not a string.
pub open spec fn inline_from(
    s: Seq<char>,
    j: int,
    acc: Seq<(Seq<Seq<char>>, Option<Seq<char>>)>,
) -> Option<(Seq<(Seq<Seq<char>>, Option<Seq<char>>)>, int)>
    decreases s.len() - j,
{
    match keypath_from(s, j, Seq::empty()) {
        None => None,
        Some((path, e)) => {
            let d = skip_ws(s, e);
            if !(d < s.len() && s[d] == '=') {
                None
            } else {
                match plain_value_at(s, skip_ws(s, d + 1)) {
                    None => None,
                    Some((None, x)) => Some((acc.push((path, None)), x)),
                    Some((Some(t), x)) => {
                        let c = skip_ws(s, x);
                        if c < s.len() && s[c] == '}' {
                            Some((acc.push((path, Some(t))), c + 1))
                        } else if c < s.len() && s[c] == ',' {
                            let n = skip_ws(s, c + 1);
                            if j < n <= s.len() {
                                inline_from(s, n, acc.push((path, Some(t))))
                            } else {
                                None
                            }
                        } else {
                            None
                        }
                    },
                }
            }
        },
    }
}

/// An inline table `{ ... }` whose `{` stands at `i`.
pub open spec fn inline_at(s: Seq<char>, i: int) -> Option<
    (Seq<(Seq<Seq<char>>, Option<Seq<char>>)>, int),
> {
    let j = skip_ws(s, i + 1);
    if j < s.len() && s[j] == '}' {
        Some((Seq::empty(), j + 1))
    } else {
        inline_from(s, j, Seq::empty())
    }
}

/// What one item of the file holds.
pub enum Item {
    /// Nothing, or a comment.
    Blank,
    /// A table header, with the parts of its dotted name.
    Header(Seq<Seq<char>>),
    /// A dotted key and its value: `None` when the value is not a string.
    Pair(Seq<Seq<char>>, Option<Seq<char>>),
    /// A dotted key and the entries of its inline table.
    Inline(Seq<Seq<char>>, Seq<(Seq<Seq<char>>, Option<Seq<char>>)>),
    /// Text that is not TOML.
    Bad,
}

/// Read the item that starts at index `i`, at the start of a line: what it
/// holds, and the index after the line that ends it. A value that is not a
/// string ends the read, so its end does not count.
pub open spec fn item_at(s: Seq<char>, i: int) -> (Item, int) {
    let k = skip_ws(s, i);
    if k >= s.len() || s[k] == '#' || newline_at(s, k) is Some {
        match rest_of_line(s, k) {
            Some(e) => (Item::Blank, e),
            None => (Item::Bad, i),
        }
    } else if s[k] == '[' {
        match keypath_from(s, skip_ws(s, k + 1), Seq::empty()) {
            None => (Item::Bad, i),
            Some((path, e)) => {
                let c = skip_ws(s, e);
                if c < s.len() && s[c] == ']' {
                    match rest_of_line(s, c + 1) {
                        Some(end) => (Item::Header(path), end),
                        None => (Item::Bad, i),
                    }
                } else {
                    (Item::Bad, i)
                }
            },
        }
    } else {
        match keypath_from(s, k, Seq::empty()) {
            None => (Item::Bad, i),
            Some((path, e)) => {
                let d = skip_ws(s, e);
                if !(d < s.len() && s[d] == '=') {
                    (Item::Bad, i)
                } else {
                    let v = skip_ws(s, d + 1);
                    if v < s.len() && s[v] == '{' {
                        match inline_at(s, v) {
                            None => (Item::Bad, i),
                            Some((es, x)) => if es.len() > 0 && es.last().1 is None {
                                (Item::Inline(path, es), x)
                            } else {
                                match rest_of_line(s, x) {
                                    Some(end) => (Item::Inline(path, es), end),
                                    None => (Item::Bad, i),
                                }
                            },
                        }
                    } else {
                        match plain_value_at(s, v) {
                            None => (Item::Bad, i),
                            Some((None, x)) => (Item::Pair(path, None), x),
                            Some((Some(t), x)) => match rest_of_line(s, x) {
                                Some(end) => (Item::Pair(path, Some(t)), end),
                                None => (Item::Bad, i),
                            },
                        }
                    }
                }
            },
        }
    }
}

/// `commands`, the one table that the file holds.
pub open spec fn commands() -> Seq<char> {
    seq!['c', 'o', 'm', 'm', 'a', 'n', 'd', 's']
}

/// How the `commands` table stands so far: not yet made; made by dotted keys
/// such as `commands.x`; made and closed by an inline table; or opened by a
/// `[commands]` header, whose keys follow.
#[derive(PartialEq, Eq, Structural, Clone, Copy)]
pub enum Stage {
    Root,
    Dotted,
    Closed,
    Inside,
}

/// The number of line breaks in `s[..i]`.
pub open spec fn nl_count(s: Seq<char>, i: int) -> int
    decreases i,
{
    if i <= 0 {
        0
    } else {
        nl_count(s, i - 1) + if s[i - 1] == '\n' {
            1int
        } else {
            0int
        }
    }
}

/// Map a command, named by the dotted key `rel` inside the table, to `val`.
/// A dotted key or a value that is not a string gives the command no
/// string; a command mapped twice is refused.
pub open spec fn put(
    rel: Seq<Seq<char>>,
    val: Option<Seq<char>>,
    line: int,
    map: Map<Seq<char>, Seq<char>>,
) -> Result<Map<Seq<char>, Seq<char>>, ParseErrorView> {
    if rel.len() != 1 || val is None {
        Err(ParseErrorView::NotAString { line, key: rel[0] })
    } else if map.contains_key(rel[0]) {
        Err(ParseErrorView::DuplicateKey { line, key: rel[0] })
    } else {
        Ok(map.insert(rel[0], val->Some_0))
    }
}

/// Put the first `n` entries of an inline table, in order.
pub open spec fn put_all(
    es: Seq<(Seq<Seq<char>>, Option<Seq<char>>)>,
    n: int,
    line: int,
    map: Map<Seq<char>, Seq<char>>,
) -> Result<Map<Seq<char>, Seq<char>>, ParseErrorView>
    decreases n,
{
    if n <= 0 {
        Ok(map)
    } else {
        match put_all(es, n - 1, line, map) {
            Ok(m) => put(es[n - 1].0, es[n - 1].1, line, m),
            Err(e) => Err(e),
        }
    }
}

/// What one item read on line `line` does to the table at `stage` and the
/// mappings `map`: the stage and the mappings after it, or the error.
///
/// A header names `commands` or is refused, and it may not make a table that
/// is already made. Before it, a dotted key starts with `commands`: either
/// `commands.x = "..."`, or `commands = { x = "...", ... }` once. After it,
/// each key names a command. A key that is not `commands` outside the
/// table, a value that is not a string, and a command mapped twice are
/// refused.
pub open spec fn apply(
    item: Item,
    stage: Stage,
    line: int,
    map: Map<Seq<char>, Seq<char>>,
) -> Result<(Stage, Map<Seq<char>, Seq<char>>), ParseErrorView> {
    match item {
        Item::Bad => Err(ParseErrorView::Syntax { line }),
        Item::Blank => Ok((stage, map)),
        Item::Header(path) => if path[0] != commands() {
            Err(ParseErrorView::UnknownTable { line, name: path[0] })
        } else if path.len() > 1 {
            Err(ParseErrorView::NotAString { line, key: path[1] })
        } else if stage != Stage::Root {
            Err(ParseErrorView::DuplicateTable { line })
        } else {
            Ok((Stage::Inside, map))
        },
        Item::Pair(path, val) => if stage == Stage::Inside {
            match put(path, val, line, map) {
                Ok(m) => Ok((Stage::Inside, m)),
                Err(e) => Err(e),
            }
        } else if path[0] != commands() {
            Err(ParseErrorView::KeyOutsideTable { line, key: path[0] })
        } else if path.len() == 1 {
            Err(ParseErrorView::NotATable { line })
        } else if stage == Stage::Closed {
            Err(ParseErrorView::DuplicateTable { line })
        } else {
            match put(path.skip(1), val, line, map) {
                Ok(m) => Ok((Stage::Dotted, m)),
                Err(e) => Err(e),
            }
        },
        Item::Inline(path, es) => if stage == Stage::Inside {
            Err(ParseErrorView::NotAString { line, key: path[0] })
        } else if path[0] != commands() {
            Err(ParseErrorView::KeyOutsideTable { line, key: path[0] })
        } else if path.len() > 1 {
            Err(ParseErrorView::NotAString { line, key: path[1] })
        } else if stage != Stage::Root {
            Err(ParseErrorView::DuplicateTable { line })
        } else {
            match put_all(es, es.len() as int, line, map) {
                Ok(m) => Ok((Stage::Closed, m)),
                Err(e) => Err(e),
            }
        },
    }
}

/// Read the items from index `i` on, with the table at `stage` and the
/// mappings `map` read so far. Each item starts a line; the line number of
/// an error is that of the item's first line.
pub open spec fn parse_from(
    s: Seq<char>,
    i: int,
    stage: Stage,
    map: Map<Seq<char>, Seq<char>>,
) -> Result<Map<Seq<char>, Seq<char>>, ParseErrorView>
    decreases s.len() - i,
{
    if i < 0 || i >= s.len() {
        Ok(map)
    } else {
        let line = nl_count(s, i) + 1;
        let (item, end) = item_at(s, i);
        match apply(item, stage, line, map) {
            Err(e) => Err(e),
            Ok((st, m)) => if i < end <= s.len() {
                parse_from(s, end, st, m)
            } else {
                Err(ParseErrorView::Syntax { line })
            },
        }
    }
}

/// What `parse` gives for a file's text.
pub open spec fn parse_spec(s: Seq<char>) -> Result<Map<Seq<char>, Seq<char>>, ParseErrorView> {
    parse_from(s, 0, Stage::Root, Map::empty())
}

/// `char::from_u32`.
///
/// Trusted: std documents that it returns the character with this code point
/// when the number is a Unicode scalar value, and `None` when it is above
/// U+10FFFF or a surrogate.
#[verifier::external_body]
fn char_from_u32(x: u32) -> (r: Option<char>)
    ensures
        r is Some <==> is_scalar(x as int),
        r matches Some(c) ==> c as int == x as int,
{
    char::from_u32(x)
}

fn skip_ws_exec(s: &Vec<char>, i: usize) -> (r: usize)
    requires
        i <= s@.len(),
    ensures
        r as int == skip_ws(s@, i as int),
        i <= r <= s@.len(),
{
    let mut j = i;
    while j < s.len() && (s[j] == ' ' || s[j] == '\t')
        invariant
            i <= j <= s@.len(),
            skip_ws(s@, i as int) == skip_ws(s@, j as int),
        decreases s@.len() - j,
    {
        j += 1;
    }
    j
}

fn is_bare_char_exec(c: char) -> (r: bool)
    ensures
        r == is_bare_char(c),
{
    ('a' <= c && c <= 'z') || ('A' <= c && c <= 'Z') || ('0' <= c && c <= '9') || c == '-' || c
        == '_'
}

fn bare_end_exec(s: &Vec<char>, i: usize) -> (r: usize)
    requires
        i <= s@.len(),
    ensures
        r as int == bare_end(s@, i as int),
        i <= r <= s@.len(),
{
    let mut j = i;
    while j < s.len() && is_bare_char_exec(s[j])
        invariant
            i <= j <= s@.len(),
            bare_end(s@, i as int) == bare_end(s@, j as int),
        decreases s@.len() - j,
    {
        j += 1;
    }
    j
}

fn hex_value_exec(c: char) -> (r: Option<u32>)
    ensures
        r == hex_value(c),
{
    if '0' <= c && c <= '9' {
        Some((c as u32) - ('0' as u32))
    } else if 'a' <= c && c <= 'f' {
        Some((c as u32) - ('a' as u32) + 10)
    } else if 'A' <= c && c <= 'F' {
        Some((c as u32) - ('A' as u32) + 10)
    } else {
        None
    }
}

/// Sixteen to the power `n`.
pub open spec fn pow16(n: nat) -> int
    decreases n,
{
    if n == 0 {
        1
    } else {
        16 * pow16((n - 1) as nat)
    }
}

proof fn lemma_hex_bound(s: Seq<char>, i: int, n: nat)
    ensures
        hex_number(s, i, n) matches Some(x) ==> 0 <= x < pow16(n),
    decreases n,
{
    if n > 0 {
        lemma_hex_bound(s, i, (n - 1) as nat);
        if let Some(x) = hex_number(s, i, n) {
            let high = hex_number(s, i, (n - 1) as nat)->Some_0;
            let d = hex_value(s[i + n - 1])->Some_0;
            assert(x == high * 16 + d);
            let p = pow16((n - 1) as nat);
            assert(0 <= high < p);
            assert(0 <= d < 16);
            assert(high * 16 + d < p * 16) by (nonlinear_arith)
                requires
                    0 <= high < p,
                    0 <= d < 16,
            ;
        }
    }
}

fn hex_number_exec(s: &Vec<char>, i: usize, n: usize) -> (r: Option<u32>)
    requires
        n == 4 || n == 8,
    ensures
        match hex_number(s@, i as int, n as nat) {
            Some(x) => r == Some(x as u32) && x <= u32::MAX,
            None => r is None,
        },
{
    if i > s.len() || s.len() - i < n {
        proof {
            assert(hex_number(s@, i as int, n as nat) is None);
        }
        return None;
    }
    proof {
        assert(pow16(0) == 1);
        assert(pow16(1) == 16);
        assert(pow16(2) == 256);
        assert(pow16(3) == 4096);
        assert(pow16(4) == 65536);
        assert(pow16(5) == 1048576);
        assert(pow16(6) == 16777216);
        assert(pow16(7) == 268435456);
        assert(pow16(8) == 4294967296);
        lemma_pow16_mono(0, n as nat);
    }
    let mut val: u64 = 0;
    let mut k: usize = 0;
    let len = s.len();
    while k < n
        invariant
            len == s@.len(),
            n == 4 || n == 8,
            i + n <= s@.len(),
            k <= n,
            hex_number(s@, i as int, k as nat) == Some(val as int),
            val < pow16(k as nat),
            pow16(k as nat) <= pow16(n as nat),
            pow16(n as nat) <= 4294967296,
        decreases n - k,
    {
        assert(i + k < s@.len());
        let d = match hex_value_exec(s[i + k]) {
            Some(d) => d,
            None => {
                proof {
                    lemma_hex_none(s@, i as int, (k + 1) as nat, n as nat);
                }
                return None;
            },
        };
        proof {
            lemma_hex_bound(s@, i as int, (k + 1) as nat);
            lemma_pow16_mono((k + 1) as nat, n as nat);
            assert(hex_number(s@, i as int, (k + 1) as nat) == Some(val * 16 + d));
        }
        val = val * 16 + d as u64;
        k += 1;
    }
    Some(val as u32)
}

proof fn lemma_pow16_mono(a: nat, b: nat)
    requires
        a <= b,
    ensures
        pow16(a) <= pow16(b),
        pow16(a) >= 1,
    decreases b,
{
    if a < b {
        lemma_pow16_mono(a, (b - 1) as nat);
    } else if a > 0 {
        lemma_pow16_mono((a - 1) as nat, (a - 1) as nat);
    }
}

proof fn lemma_hex_none(s: Seq<char>, i: int, k: nat, n: nat)
    requires
        1 <= k <= n,
        0 <= i,
        i + n <= s.len(),
        hex_value(s[i + k - 1]) is None,
    ensures
        hex_number(s, i, n) is None,
    decreases n,
{
    if k < n {
        lemma_hex_none(s, i, k, (n - 1) as nat);
    }
}

fn escape_exec(s: &Vec<char>, j: usize) -> (r: Option<(char, usize)>)
    ensures
        match escape_at(s@, j as int) {
            Some((c, next)) => r == Some((c, next as usize)) && next <= s@.len() + 8,
            None => r is None,
        },
{
    if j >= s.len() {
        return None;
    }
    let e = s[j];
    if e == 'b' {
        Some(('\u{8}', j + 1))
    } else if e == 't' {
        Some(('\t', j + 1))
    } else if e == 'n' {
        Some(('\n', j + 1))
    } else if e == 'f' {
        Some(('\u{c}', j + 1))
    } else if e == 'r' {
        Some(('\r', j + 1))
    } else if e == '"' {
        Some(('"', j + 1))
    } else if e == '\\' {
        Some(('\\', j + 1))
    } else if e == 'u' || e == 'U' {
        let n: usize = if e == 'u' {
            4
        } else {
            8
        };
        match hex_number_exec(s, j + 1, n) {
            None => None,
            Some(x) => match char_from_u32(x) {
                None => None,
                Some(c) => {
                    proof {
                        lemma_hex_bound(s@, j + 1, n as nat);
                        assert(hex_number(s@, j + 1, n as nat) is Some ==> j + 1 + n <= s@.len());
                        let y = hex_number(s@, j + 1, n as nat)->Some_0;
                        assert(c as int == y);
                    }
                    Some((c, j + 1 + n))
                },
            },
        }
    } else {
        None
    }
}

fn basic_exec(s: &Vec<char>, j0: usize) -> (r: Option<(Vec<char>, usize)>)
    ensures
        match basic_from(s@, j0 as int, Seq::empty()) {
            Some((t, e)) => r matches Some((u, f)) && u@ == t && f as int == e && e <= s@.len(),
            None => r is None,
        },
{
    let mut acc: Vec<char> = Vec::new();
    let mut j = j0;
    let len = s.len();
    proof {
        assert(acc@ =~= Seq::<char>::empty());
    }
    while j < len
        invariant
            len == s@.len(),
            j0 <= j,
            basic_from(s@, j0 as int, Seq::empty()) == basic_from(s@, j as int, acc@),
        decreases len - j,
    {
        let c = s[j];
        if c == '"' {
            return Some((acc, j + 1));
        } else if c == '\\' {
            match escape_exec(s, j + 1) {
                None => return None,
                Some((e, next)) => {
                    if next <= j || next > len {
                        return None;
                    }
                    acc.push(e);
                    j = next;
                },
            }
        } else if (c < ' ' && c != '\t') || c == '\u{7f}' {
            return None;
        } else {
            acc.push(c);
            j += 1;
        }
    }
    None
}

fn literal_exec(s: &Vec<char>, j0: usize) -> (r: Option<(Vec<char>, usize)>)
    ensures
        match literal_from(s@, j0 as int, Seq::empty()) {
            Some((t, e)) => r matches Some((u, f)) && u@ == t && f as int == e && e <= s@.len(),
            None => r is None,
        },
{
    let mut acc: Vec<char> = Vec::new();
    let mut j = j0;
    let len = s.len();
    proof {
        assert(acc@ =~= Seq::<char>::empty());
    }
    while j < len
        invariant
            len == s@.len(),
            j0 <= j,
            literal_from(s@, j0 as int, Seq::empty()) == literal_from(s@, j as int, acc@),
        decreases len - j,
    {
        let c = s[j];
        if c == '\'' {
            return Some((acc, j + 1));
        } else if (c < ' ' && c != '\t') || c == '\u{7f}' {
            return None;
        } else {
            acc.push(c);
            j += 1;
        }
    }
    None
}

fn string_exec(s: &Vec<char>, i: usize) -> (r: Option<(Vec<char>, usize)>)
    ensures
        match string_at(s@, i as int) {
            Some((t, e)) => r matches Some((u, f)) && u@ == t && f as int == e && e <= s@.len(),
            None => r is None,
        },
{
    if i < s.len() && s[i] == '"' {
        basic_exec(s, i + 1)
    } else if i < s.len() && s[i] == '\'' {
        literal_exec(s, i + 1)
    } else {
        None
    }
}

fn key_exec(s: &Vec<char>, i: usize) -> (r: Option<(Vec<char>, usize)>)
    requires
        i <= s@.len(),
    ensures
        match key_at(s@, i as int) {
            Some((t, e)) => r matches Some((u, f)) && u@ == t && f as int == e && e <= s@.len(),
            None => r is None,
        },
{
    if i < s.len() && (s[i] == '"' || s[i] == '\'') {
        string_exec(s, i)
    } else {
        let e = bare_end_exec(s, i);
        if i < e {
            let mut u: Vec<char> = Vec::new();
            let mut k = i;
            while k < e
                invariant
                    i <= k <= e <= s@.len(),
                    u@ == s@.subrange(i as int, k as int),
                decreases e - k,
            {
                u.push(s[k]);
                assert(s@.subrange(i as int, k + 1) == s@.subrange(i as int, k as int).push(
                    s@[k as int],
                ));
                k += 1;
            }
            Some((u, e))
        } else {
            None
        }
    }
}

fn is_commands(name: &Vec<char>) -> (r: bool)
    ensures
        r == (name@ == commands()),
{
    let c = vec!['c', 'o', 'm', 'm', 'a', 'n', 'd', 's'];
    assert(c@ == commands());
    if name.len() != c.len() {
        return false;
    }
    let mut i: usize = 0;
    while i < c.len()
        invariant
            c@ == commands(),
            name@.len() == c@.len(),
            i <= c@.len(),
            forall|k: int| 0 <= k < i ==> name@[k] == c@[k],
        decreases c@.len() - i,
    {
        if name[i] != c[i] {
            assert(name@[i as int] != c@[i as int]);
            return false;
        }
        i += 1;
    }
    assert(name@ =~= c@);
    true
}

/// The texts of the parts of a dotted key.
pub open spec fn parts_view(q: Seq<Vec<char>>) -> Seq<Seq<char>> {
    q.map_values(|v: Vec<char>| v@)
}

/// An optional text.
pub open spec fn opt_chars(o: Option<Vec<char>>) -> Option<Seq<char>> {
    match o {
        Some(v) => Some(v@),
        None => None,
    }
}

/// The entries of an inline table, as text.
pub open spec fn entries_view(es: Seq<(Vec<Vec<char>>, Option<Vec<char>>)>) -> Seq<
    (Seq<Seq<char>>, Option<Seq<char>>),
> {
    es.map_values(|e: (Vec<Vec<char>>, Option<Vec<char>>)| (parts_view(e.0@), opt_chars(e.1)))
}

proof fn lemma_keypath_nonempty(s: Seq<char>, i: int, acc: Seq<Seq<char>>)
    ensures
        keypath_from(s, i, acc) matches Some((p, _)) ==> p.len() >= 1,
    decreases s.len() - i,
{
    if let Some((k, e)) = key_at(s, i) {
        let d = skip_ws(s, e);
        if d < s.len() && s[d] == '.' {
            let n = skip_ws(s, d + 1);
            if i < n <= s.len() {
                lemma_keypath_nonempty(s, n, acc.push(k));
            }
        }
    }
}

proof fn lemma_inline_nonempty(
    s: Seq<char>,
    j: int,
    acc: Seq<(Seq<Seq<char>>, Option<Seq<char>>)>,
)
    requires
        forall|m: int| 0 <= m < acc.len() ==> (#[trigger] acc[m]).0.len() >= 1,
    ensures
        inline_from(s, j, acc) matches Some((es, _)) ==> forall|m: int|
            0 <= m < es.len() ==> (#[trigger] es[m]).0.len() >= 1,
    decreases s.len() - j,
{
    lemma_keypath_nonempty(s, j, Seq::empty());
    if let Some((path, e)) = keypath_from(s, j, Seq::empty()) {
        let d = skip_ws(s, e);
        if d < s.len() && s[d] == '=' {
            match plain_value_at(s, skip_ws(s, d + 1)) {
                Some((Some(t), x)) => {
                    let c = skip_ws(s, x);
                    let a2 = acc.push((path, Some(t)));
                    assert forall|m: int| 0 <= m < a2.len() implies (#[trigger] a2[m]).0.len() >= 1 by {
                        if m < acc.len() {
                            assert(a2[m] == acc[m]);
                        }
                    }
                    if !(c < s.len() && s[c] == '}') && c < s.len() && s[c] == ',' {
                        let n = skip_ws(s, c + 1);
                        if j < n <= s.len() {
                            lemma_inline_nonempty(s, n, a2);
                        }
                    }
                },
                Some((None, x)) => {
                    let a2 = acc.push((path, None::<Seq<char>>));
                    assert forall|m: int| 0 <= m < a2.len() implies (#[trigger] a2[m]).0.len() >= 1 by {
                        if m < acc.len() {
                            assert(a2[m] == acc[m]);
                        }
                    }
                },
                None => {},
            }
        }
    }
}

fn newline_exec(s: &Vec<char>, i: usize) -> (r: Option<usize>)
    ensures
        match newline_at(s@, i as int) {
            Some(n) => r matches Some(m) && m as int == n && n <= s@.len(),
            None => r is None,
        },
{
    if i < s.len() && s[i] == '\n' {
        Some(i + 1)
    } else if i < s.len() && s.len() - i >= 2 && s[i] == '\r' && s[i + 1] == '\n' {
        Some(i + 2)
    } else {
        None
    }
}

fn rest_of_line_exec(s: &Vec<char>, i: usize) -> (r: Option<usize>)
    requires
        i <= s@.len(),
    ensures
        match rest_of_line(s@, i as int) {
            Some(e) => r matches Some(f) && f as int == e && e <= s@.len(),
            None => r is None,
        },
{
    let k = skip_ws_exec(s, i);
    if k >= s.len() {
        return Some(s.len());
    }
    if s[k] == '#' {
        let n = find_char_exec(s, '\n', k);
        proof {
            lemma_find_char(s@, '\n', k as int);
        }
        if n < s.len() {
            Some(n + 1)
        } else {
            Some(s.len())
        }
    } else {
        newline_exec(s, k)
    }
}

fn keypath_exec(s: &Vec<char>, i0: usize) -> (r: Option<(Vec<Vec<char>>, usize)>)
    requires
        i0 <= s@.len(),
    ensures
        match keypath_from(s@, i0 as int, Seq::empty()) {
            Some((p, e)) => r matches Some((q, f)) && parts_view(q@) == p && f as int == e && e
                <= s@.len(),
            None => r is None,
        },
{
    let mut acc: Vec<Vec<char>> = Vec::new();
    let mut i = i0;
    proof {
        assert(parts_view(acc@) =~= Seq::<Seq<char>>::empty());
    }
    loop
        invariant
            i <= s@.len(),
            keypath_from(s@, i0 as int, Seq::empty()) == keypath_from(
                s@,
                i as int,
                parts_view(acc@),
            ),
        decreases s@.len() - i,
    {
        match key_exec(s, i) {
            None => {
                return None;
            },
            Some((k, e)) => {
                let d = skip_ws_exec(s, e);
                let ghost before = parts_view(acc@);
                let ghost kv = k@;
                acc.push(k);
                assert(parts_view(acc@) =~= before.push(kv));
                if d < s.len() && s[d] == '.' {
                    let n = skip_ws_exec(s, d + 1);
                    if i < n && n <= s.len() {
                        i = n;
                    } else {
                        return None;
                    }
                } else {
                    return Some((acc, e));
                }
            },
        }
    }
}

fn skip_ws_nl_exec(s: &Vec<char>, i: usize) -> (r: usize)
    requires
        i <= s@.len(),
    ensures
        r as int == skip_ws_nl(s@, i as int),
        i <= r <= s@.len(),
{
    let mut j = i;
    while j < s.len() && (s[j] == ' ' || s[j] == '\t' || s[j] == '\n' || s[j] == '\r')
        invariant
            i <= j <= s@.len(),
            skip_ws_nl(s@, i as int) == skip_ws_nl(s@, j as int),
        decreases s@.len() - j,
    {
        j += 1;
    }
    j
}

fn triple_exec(s: &Vec<char>, j: usize, q: char) -> (r: bool)
    ensures
        r == triple_at(s@, j as int, q),
{
    j < s.len() && s.len() - j >= 3 && s[j] == q && s[j + 1] == q && s[j + 2] == q
}

fn ml_close_exec(s: &Vec<char>, j: usize, q: char) -> (r: Option<(Vec<char>, usize)>)
    requires
        j + 3 <= s@.len(),
    ensures
        match ml_close(s@, j as int, q) {
            Some((t, e)) => r matches Some((u, f)) && u@ == t && f as int == e && e <= s@.len(),
            None => r is None,
        },
{
    let mut u: Vec<char> = Vec::new();
    let len = s.len();
    if len - j > 3 && s[j + 3] == q {
        if len - j > 4 && s[j + 4] == q {
            if len - j > 5 && s[j + 5] == q {
                None
            } else {
                u.push(q);
                u.push(q);
                assert(u@ =~= seq![q, q]);
                Some((u, j + 5))
            }
        } else {
            u.push(q);
            assert(u@ =~= seq![q]);
            Some((u, j + 4))
        }
    } else {
        assert(u@ =~= Seq::<char>::empty());
        Some((u, j + 3))
    }
}

fn push_all(acc: &mut Vec<char>, t: &Vec<char>)
    ensures
        final(acc)@ == old(acc)@ + t@,
{
    let mut k: usize = 0;
    while k < t.len()
        invariant
            k <= t@.len(),
            acc@ == old(acc)@ + t@.take(k as int),
        decreases t@.len() - k,
    {
        acc.push(t[k]);
        assert(t@.take(k + 1) =~= t@.take(k as int).push(t@[k as int]));
        k += 1;
    }
    assert(t@.take(t@.len() as int) =~= t@);
}

fn is_control_exec(c: char) -> (r: bool)
    ensures
        r == is_control(c),
{
    (c < ' ' && c != '\t') || c == '\u{7f}'
}

/// Add the line break `s[j..n]` to `acc`.
fn push_newline(acc: &mut Vec<char>, s: &Vec<char>, j: usize, n: usize)
    requires
        j < n <= s@.len(),
        n == j + 1 || n == j + 2,
    ensures
        final(acc)@ == old(acc)@ + s@.subrange(j as int, n as int),
{
    acc.push(s[j]);
    if n - j == 2 {
        acc.push(s[j + 1]);
    }
    assert(acc@ =~= old(acc)@ + s@.subrange(j as int, n as int));
}

fn ml_basic_exec(s: &Vec<char>, j0: usize) -> (r: Option<(Vec<char>, usize)>)
    requires
        j0 <= s@.len(),
    ensures
        match ml_basic_from(s@, j0 as int, Seq::empty()) {
            Some((t, e)) => r matches Some((u, f)) && u@ == t && f as int == e && e <= s@.len(),
            None => r is None,
        },
{
    let mut acc: Vec<char> = Vec::new();
    let mut j = j0;
    proof {
        assert(acc@ =~= Seq::<char>::empty());
    }
    loop
        invariant
            j <= s@.len(),
            ml_basic_from(s@, j0 as int, Seq::empty()) == ml_basic_from(s@, j as int, acc@),
        decreases s@.len() - j,
    {
        if j >= s.len() {
            return None;
        }
        if triple_exec(s, j, '"') {
            match ml_close_exec(s, j, '"') {
                Some((t, e)) => {
                    push_all(&mut acc, &t);
                    return Some((acc, e));
                },
                None => {
                    return None;
                },
            }
        }
        if s[j] == '\\' {
            let k = skip_ws_exec(s, j + 1);
            if newline_exec(s, k).is_some() {
                let m = skip_ws_nl_exec(s, k);
                if j < m && m <= s.len() {
                    j = m;
                } else {
                    return None;
                }
            } else {
                match escape_exec(s, j + 1) {
                    Some((c, next)) => {
                        if j < next && next <= s.len() {
                            acc.push(c);
                            j = next;
                        } else {
                            return None;
                        }
                    },
                    None => {
                        return None;
                    },
                }
            }
        } else {
            match newline_exec(s, j) {
                Some(n) => {
                    push_newline(&mut acc, s, j, n);
                    j = n;
                },
                None => {
                    if is_control_exec(s[j]) {
                        return None;
                    }
                    acc.push(s[j]);
                    j += 1;
                },
            }
        }
    }
}

fn ml_literal_exec(s: &Vec<char>, j0: usize) -> (r: Option<(Vec<char>, usize)>)
    requires
        j0 <= s@.len(),
    ensures
        match ml_literal_from(s@, j0 as int, Seq::empty()) {
            Some((t, e)) => r matches Some((u, f)) && u@ == t && f as int == e && e <= s@.len(),
            None => r is None,
        },
{
    let mut acc: Vec<char> = Vec::new();
    let mut j = j0;
    proof {
        assert(acc@ =~= Seq::<char>::empty());
    }
    loop
        invariant
            j <= s@.len(),
            ml_literal_from(s@, j0 as int, Seq::empty()) == ml_literal_from(s@, j as int, acc@),
        decreases s@.len() - j,
    {
        if j >= s.len() {
            return None;
        }
        if triple_exec(s, j, '\'') {
            match ml_close_exec(s, j, '\'') {
                Some((t, e)) => {
                    push_all(&mut acc, &t);
                    return Some((acc, e));
                },
                None => {
                    return None;
                },
            }
        }
        match newline_exec(s, j) {
            Some(n) => {
                push_newline(&mut acc, s, j, n);
                j = n;
            },
            None => {
                if is_control_exec(s[j]) {
                    return None;
                }
                acc.push(s[j]);
                j += 1;
            },
        }
    }
}

fn ml_start_exec(s: &Vec<char>, j: usize) -> (r: usize)
    requires
        j <= s@.len(),
    ensures
        r as int == ml_start(s@, j as int),
        r <= s@.len(),
{
    match newline_exec(s, j) {
        Some(n) => n,
        None => j,
    }
}

fn string_value_exec(s: &Vec<char>, v: usize) -> (r: Option<(Vec<char>, usize)>)
    requires
        v <= s@.len(),
    ensures
        match string_value_at(s@, v as int) {
            Some((t, e)) => r matches Some((u, f)) && u@ == t && f as int == e && e <= s@.len(),
            None => r is None,
        },
{
    let _len = s.len();
    if triple_exec(s, v, '"') {
        let st = ml_start_exec(s, v + 3);
        ml_basic_exec(s, st)
    } else if triple_exec(s, v, '\'') {
        let st = ml_start_exec(s, v + 3);
        ml_literal_exec(s, st)
    } else {
        string_exec(s, v)
    }
}

fn plain_value_exec(s: &Vec<char>, v: usize) -> (r: Option<(Option<Vec<char>>, usize)>)
    requires
        v <= s@.len(),
    ensures
        match plain_value_at(s@, v as int) {
            Some((o, e)) => r matches Some((p, f)) && opt_chars(p) == o && f as int == e && e
                <= s@.len(),
            None => r is None,
        },
{
    if v >= s.len() || s[v] == '#' || newline_exec(s, v).is_some() {
        None
    } else if s[v] == '"' || s[v] == '\'' {
        match string_value_exec(s, v) {
            Some((t, e)) => Some((Some(t), e)),
            None => None,
        }
    } else {
        Some((None, v))
    }
}

fn inline_exec(s: &Vec<char>, i: usize) -> (r: Option<(Vec<(Vec<Vec<char>>, Option<Vec<char>>)>, usize)>)
    requires
        i < s@.len(),
    ensures
        match inline_at(s@, i as int) {
            Some((es, x)) => r matches Some((fs, y)) && entries_view(fs@) == es && y as int == x
                && x <= s@.len(),
            None => r is None,
        },
{
    let _len = s.len();
    let j0 = skip_ws_exec(s, i + 1);
    let mut acc: Vec<(Vec<Vec<char>>, Option<Vec<char>>)> = Vec::new();
    proof {
        assert(entries_view(acc@) =~= Seq::<(Seq<Seq<char>>, Option<Seq<char>>)>::empty());
    }
    if j0 < s.len() && s[j0] == '}' {
        return Some((acc, j0 + 1));
    }
    let mut j = j0;
    loop
        invariant
            j <= s@.len(),
            inline_at(s@, i as int) == inline_from(s@, j as int, entries_view(acc@)),
        decreases s@.len() - j,
    {
        match keypath_exec(s, j) {
            None => {
                return None;
            },
            Some((path, e)) => {
                let d = skip_ws_exec(s, e);
                if !(d < s.len() && s[d] == '=') {
                    return None;
                }
                let v = skip_ws_exec(s, d + 1);
                let ghost before = entries_view(acc@);
                let ghost pv = parts_view(path@);
                match plain_value_exec(s, v) {
                    None => {
                        return None;
                    },
                    Some((None, x)) => {
                        acc.push((path, None));
                        assert(entries_view(acc@) =~= before.push((pv, None::<Seq<char>>)));
                        return Some((acc, x));
                    },
                    Some((Some(t), x)) => {
                        let c = skip_ws_exec(s, x);
                        let ghost tv = t@;
                        if c < s.len() && s[c] == '}' {
                            acc.push((path, Some(t)));
                            assert(entries_view(acc@) =~= before.push((pv, Some(tv))));
                            return Some((acc, c + 1));
                        } else if c < s.len() && s[c] == ',' {
                            let n = skip_ws_exec(s, c + 1);
                            if j < n && n <= s.len() {
                                acc.push((path, Some(t)));
                                assert(entries_view(acc@) =~= before.push((pv, Some(tv))));
                                j = n;
                            } else {
                                return None;
                            }
                        } else {
                            return None;
                        }
                    },
                }
            },
        }
    }
}

/// What one item holds, as `item_at` says.
enum ItemExec {
    Blank,
    Header(Vec<Vec<char>>),
    Pair(Vec<Vec<char>>, Option<Vec<char>>),
    Inline(Vec<Vec<char>>, Vec<(Vec<Vec<char>>, Option<Vec<char>>)>),
    Bad,
}

spec fn item_view(r: ItemExec) -> Item {
    match r {
        ItemExec::Blank => Item::Blank,
        ItemExec::Header(p) => Item::Header(parts_view(p@)),
        ItemExec::Pair(p, v) => Item::Pair(parts_view(p@), opt_chars(v)),
        ItemExec::Inline(p, es) => Item::Inline(parts_view(p@), entries_view(es@)),
        ItemExec::Bad => Item::Bad,
    }
}

fn item_exec(s: &Vec<char>, i: usize) -> (r: (ItemExec, usize))
    requires
        i <= s@.len(),
    ensures
        item_view(r.0) == item_at(s@, i as int).0,
        r.1 as int == item_at(s@, i as int).1,
{
    let k = skip_ws_exec(s, i);
    if k >= s.len() || s[k] == '#' || newline_exec(s, k).is_some() {
        return match rest_of_line_exec(s, k) {
            Some(e) => (ItemExec::Blank, e),
            None => (ItemExec::Bad, i),
        };
    }
    if s[k] == '[' {
        let st = skip_ws_exec(s, k + 1);
        return match keypath_exec(s, st) {
            None => (ItemExec::Bad, i),
            Some((path, e)) => {
                let c = skip_ws_exec(s, e);
                if c < s.len() && s[c] == ']' {
                    match rest_of_line_exec(s, c + 1) {
                        Some(end) => (ItemExec::Header(path), end),
                        None => (ItemExec::Bad, i),
                    }
                } else {
                    (ItemExec::Bad, i)
                }
            },
        };
    }
    match keypath_exec(s, k) {
        None => (ItemExec::Bad, i),
        Some((path, e)) => {
            let d = skip_ws_exec(s, e);
            if !(d < s.len() && s[d] == '=') {
                return (ItemExec::Bad, i);
            }
            let v = skip_ws_exec(s, d + 1);
            if v < s.len() && s[v] == '{' {
                match inline_exec(s, v) {
                    None => (ItemExec::Bad, i),
                    Some((es, x)) => {
                        let n = es.len();
                        if n > 0 && es[n - 1].1.is_none() {
                            proof {
                                assert(entries_view(es@).last() == (
                                    parts_view(es@[n - 1].0@),
                                    opt_chars(es@[n - 1].1),
                                ));
                            }
                            (ItemExec::Inline(path, es), x)
                        } else {
                            proof {
                                if n > 0 {
                                    assert(entries_view(es@).last() == (
                                        parts_view(es@[n - 1].0@),
                                        opt_chars(es@[n - 1].1),
                                    ));
                                }
                            }
                            match rest_of_line_exec(s, x) {
                                Some(end) => (ItemExec::Inline(path, es), end),
                                None => (ItemExec::Bad, i),
                            }
                        }
                    },
                }
            } else {
                match plain_value_exec(s, v) {
                    None => (ItemExec::Bad, i),
                    Some((None, x)) => (ItemExec::Pair(path, None), x),
                    Some((Some(t), x)) => match rest_of_line_exec(s, x) {
                        Some(end) => (ItemExec::Pair(path, Some(t)), end),
                        None => (ItemExec::Bad, i),
                    },
                }
            }
        },
    }
}

/// Map the command that `rel` names to `val`, as `put` says.
fn put_exec(map: &mut StrMap, rel: &Vec<Vec<char>>, val: &Option<Vec<char>>, line: usize) -> (r:
    Result<(), ParseError>)
    requires
        rel@.len() >= 1,
    ensures
        match put(parts_view(rel@), opt_chars(*val), line as int, old(map)@) {
            Ok(m) => r is Ok && final(map)@ == m,
            Err(e) => r matches Err(f) && f.view() == e,
        },
{
    let key = string_of_vec(&rel[0]);
    assert(parts_view(rel@)[0] == rel@[0]@);
    if rel.len() != 1 {
        return Err(ParseError::NotAString { line, key });
    }
    match val {
        None => Err(ParseError::NotAString { line, key }),
        Some(v) => {
            if map.get(key.as_str()).is_some() {
                return Err(ParseError::DuplicateKey { line, key });
            }
            map.insert(key, string_of_vec(v));
            Ok(())
        },
    }
}

/// Put the entries of an inline table, in order, as `put_all` says.
fn put_all_exec(
    map: &mut StrMap,
    es: &Vec<(Vec<Vec<char>>, Option<Vec<char>>)>,
    line: usize,
) -> (r: Result<(), ParseError>)
    requires
        forall|m: int| 0 <= m < es@.len() ==> (#[trigger] es@[m]).0@.len() >= 1,
    ensures
        match put_all(entries_view(es@), es@.len() as int, line as int, old(map)@) {
            Ok(m) => r is Ok && final(map)@ == m,
            Err(e) => r matches Err(f) && f.view() == e,
        },
{
    let ghost ev = entries_view(es@);
    let ghost m0 = map@;
    let mut k: usize = 0;
    while k < es.len()
        invariant
            k <= es@.len(),
            ev == entries_view(es@),
            m0 == old(map)@,
            forall|m: int| 0 <= m < es@.len() ==> (#[trigger] es@[m]).0@.len() >= 1,
            put_all(ev, k as int, line as int, m0) == Ok::<Map<Seq<char>, Seq<char>>, ParseErrorView>(map@),
        decreases es@.len() - k,
    {
        assert(ev[k as int] == (parts_view(es@[k as int].0@), opt_chars(es@[k as int].1)));
        let ghost before = map@;
        let res = put_exec(map, &es[k].0, &es[k].1, line);
        assert(put_all(ev, k + 1, line as int, m0) == put(
            ev[k as int].0,
            ev[k as int].1,
            line as int,
            before,
        ));
        match res {
            Ok(()) => {},
            Err(e) => {
                proof {
                    assert(put(ev[k as int].0, ev[k as int].1, line as int, before) == Err::<
                        Map<Seq<char>, Seq<char>>,
                        ParseErrorView,
                    >(e.view()));
                    lemma_put_all_err(ev, k + 1, es@.len() as int, line as int, m0);
                    assert(put_all(ev, es@.len() as int, line as int, m0) == put_all(
                        ev,
                        k + 1,
                        line as int,
                        m0,
                    ));
                }
                return Err(e);
            },
        }
        k += 1;
    }
    Ok(())
}

/// An error among the first `n` entries stays the error of the first `n2`.
proof fn lemma_put_all_err(
    es: Seq<(Seq<Seq<char>>, Option<Seq<char>>)>,
    n: int,
    n2: int,
    line: int,
    map: Map<Seq<char>, Seq<char>>,
)
    requires
        0 <= n <= n2,
        put_all(es, n, line, map) is Err,
    ensures
        put_all(es, n2, line, map) == put_all(es, n, line, map),
    decreases n2 - n,
{
    if n < n2 {
        lemma_put_all_err(es, n, n2 - 1, line, map);
    }
}

/// The parts of a dotted key after its first.
fn rest_parts(p: Vec<Vec<char>>) -> (r: Vec<Vec<char>>)
    requires
        p@.len() >= 1,
    ensures
        parts_view(r@) == parts_view(p@).skip(1),
        r@.len() == p@.len() - 1,
{
    let mut r = p;
    let _first = r.remove(0);
    assert(parts_view(r@) =~= parts_view(p@).skip(1));
    r
}

/// The dotted keys of an item have at least one part each.
pub open spec fn item_ok(item: Item) -> bool {
    match item {
        Item::Header(p) => p.len() >= 1,
        Item::Pair(p, _) => p.len() >= 1,
        Item::Inline(p, es) => p.len() >= 1 && forall|m: int|
            0 <= m < es.len() ==> (#[trigger] es[m]).0.len() >= 1,
        _ => true,
    }
}

proof fn lemma_item_ok(s: Seq<char>, i: int)
    ensures
        item_ok(item_at(s, i).0),
{
    let k = skip_ws(s, i);
    lemma_keypath_nonempty(s, skip_ws(s, k + 1), Seq::empty());
    lemma_keypath_nonempty(s, k, Seq::empty());
    if let Some((p, e)) = keypath_from(s, k, Seq::empty()) {
        let d = skip_ws(s, e);
        let w = skip_ws(s, d + 1);
        let j = skip_ws(s, w + 1);
        if !(j < s.len() && s[j] == '}') {
            lemma_inline_nonempty(s, j, Seq::empty());
        }
    }
}

/// Do what one item does to the table, as `apply` says.
fn apply_exec(map: &mut StrMap, stage: Stage, item: ItemExec, line: usize) -> (r: Result<
    Stage,
    ParseError,
>)
    requires
        item_ok(item_view(item)),
    ensures
        match apply(item_view(item), stage, line as int, old(map)@) {
            Ok((st, m)) => r == Ok::<Stage, ParseError>(st) && final(map)@ == m,
            Err(e) => r matches Err(f) && f.view() == e,
        },
{
    match item {
        ItemExec::Bad => Err(ParseError::Syntax { line }),
        ItemExec::Blank => Ok(stage),
        ItemExec::Header(path) => {
            assert(parts_view(path@)[0] == path@[0]@);
            if !is_commands(&path[0]) {
                return Err(ParseError::UnknownTable { line, name: string_of_vec(&path[0]) });
            }
            if path.len() > 1 {
                assert(parts_view(path@)[1] == path@[1]@);
                return Err(ParseError::NotAString { line, key: string_of_vec(&path[1]) });
            }
            if !is_root(stage) {
                return Err(ParseError::DuplicateTable { line });
            }
            Ok(Stage::Inside)
        },
        ItemExec::Pair(path, val) => {
            assert(parts_view(path@)[0] == path@[0]@);
            if is_inside(stage) {
                match put_exec(map, &path, &val, line) {
                    Ok(()) => Ok(Stage::Inside),
                    Err(e) => Err(e),
                }
            } else if !is_commands(&path[0]) {
                Err(ParseError::KeyOutsideTable { line, key: string_of_vec(&path[0]) })
            } else if path.len() == 1 {
                Err(ParseError::NotATable { line })
            } else if is_closed(stage) {
                Err(ParseError::DuplicateTable { line })
            } else {
                let rest = rest_parts(path);
                match put_exec(map, &rest, &val, line) {
                    Ok(()) => Ok(Stage::Dotted),
                    Err(e) => Err(e),
                }
            }
        },
        ItemExec::Inline(path, es) => {
            assert(parts_view(path@)[0] == path@[0]@);
            assert forall|m: int| 0 <= m < es@.len() implies (#[trigger] es@[m]).0@.len() >= 1 by {
                assert(entries_view(es@)[m].0 == parts_view(es@[m].0@));
            }
            if is_inside(stage) {
                return Err(ParseError::NotAString { line, key: string_of_vec(&path[0]) });
            }
            if !is_commands(&path[0]) {
                return Err(ParseError::KeyOutsideTable { line, key: string_of_vec(&path[0]) });
            }
            if path.len() > 1 {
                assert(parts_view(path@)[1] == path@[1]@);
                return Err(ParseError::NotAString { line, key: string_of_vec(&path[1]) });
            }
            if !is_root(stage) {
                return Err(ParseError::DuplicateTable { line });
            }
            match put_all_exec(map, &es, line) {
                Ok(()) => Ok(Stage::Closed),
                Err(e) => Err(e),
            }
        },
    }
}

fn is_root(st: Stage) -> (r: bool)
    ensures
        r == (st == Stage::Root),
{
    match st {
        Stage::Root => true,
        _ => false,
    }
}

fn is_inside(st: Stage) -> (r: bool)
    ensures
        r == (st == Stage::Inside),
{
    match st {
        Stage::Inside => true,
        _ => false,
    }
}

fn is_closed(st: Stage) -> (r: bool)
    ensures
        r == (st == Stage::Closed),
{
    match st {
        Stage::Closed => true,
        _ => false,
    }
}

/// Read the `[commands]` table out of one file's text.
///
/// The table comes as a `[commands]` header and the keys after it, as
/// dotted keys `commands.x = "..."`, or as an inline table `commands = {
/// ... }`. Each key is a command, bare or quoted; each value is a package
/// spec, as a basic or literal string, on one line or on several. Blank
/// lines and comments carry nothing. Refuse text that is not TOML, a table
/// other than `commands`, a table made twice, a key outside the table, a
/// value that is not a string, and a command that the table already maps.
pub fn parse(text: &str) -> (r: Result<StrMap, ParseError>)
    ensures
        match parse_spec(text@) {
            Ok(m) => r matches Ok(t) && t@ == m,
            Err(e) => r matches Err(f) && f.view() == e,
        },
{
    let v = chars_of(text);
    let mut map = StrMap::new();
    let mut stage = Stage::Root;
    let mut i: usize = 0;
    let mut nls: usize = 0;
    while i < v.len()
        invariant
            i <= v@.len(),
            v@ == text@,
            nls == nl_count(v@, i as int),
            nls <= i,
            parse_spec(text@) == parse_from(v@, i as int, stage, map@),
        decreases v@.len() - i,
    {
        let line = nls + 1;
        let (item, end) = item_exec(&v, i);
        proof {
            lemma_item_ok(v@, i as int);
        }
        match apply_exec(&mut map, stage, item, line) {
            Ok(st) => {
                stage = st;
            },
            Err(e) => {
                return Err(e);
            },
        }
        let step = i < end && end <= v.len();
        if !step {
            return Err(ParseError::Syntax { line });
        }
        let mut j = i;
        while j < end
            invariant
                i <= j <= end <= v@.len(),
                nls == nl_count(v@, j as int),
                nls <= j,
            decreases end - j,
        {
            if v[j] == '\n' {
                nls += 1;
            }
            j += 1;
        }
        i = end;
    }
    Ok(map)
}

fn string_of_vec(v: &Vec<char>) -> (s: String)
    ensures
        s@ == v@,
{
    let s = string_of(v, 0, v.len());
    assert(v@.subrange(0, v@.len() as int) == v@);
    s
}

/// One configuration file: where it lies, and its text.
#[derive(Debug)]
pub struct ConfigFile {
    pub path: String,
    pub text: String,
}

/// The mappings, and where each one came from.
#[derive(Debug, Clone)]
pub struct Config {
    /// Every command, mapped to a package spec.
    pub mappings: StrMap,
    /// Every command, mapped to the file that supplied it.
    pub sources: StrMap,
    /// Every file that `uvxy` read, in the order it read them.
    pub files_read: Vec<String>,
}

impl Default for Config {
    /// The configuration of no file: no mapping, no source, no file read.
    fn default() -> (r: Self)
        ensures
            r.mappings@ == Map::<Seq<char>, Seq<char>>::empty(),
            r.sources@ == Map::<Seq<char>, Seq<char>>::empty(),
            r.files_read@.len() == 0,
    {
        Config { mappings: StrMap::new(), sources: StrMap::new(), files_read: Vec::new() }
    }
}

/// A file that does not parse, and why.
#[derive(Debug, PartialEq, Eq)]
pub struct LoadError {
    pub path: String,
    pub error: ParseError,
}

impl LoadError {
    /// The message that names the file, then the line and what is wrong.
    pub fn message(&self) -> (r: String)
        ensures
            r@ == "cannot read the configuration file `"@ + self.path@ + "`: "@
                + parse_message(self.error.view()),
    {
        let mut r = String::from_str("cannot read the configuration file `");
        r.append(self.path.as_str());
        r.append("`: ");
        let m = self.error.message();
        r.append(m.as_str());
        r
    }
}

/// The index of the first file at or after `i` whose text does not parse, or
/// the number of files.
pub open spec fn first_bad(files: Seq<ConfigFile>, i: int) -> int
    decreases files.len() - i,
{
    if i < 0 {
        0
    } else if i >= files.len() {
        i
    } else if parse_spec(files[i].text@) is Err {
        i
    } else {
        first_bad(files, i + 1)
    }
}

/// The mappings of each file, for files that parse.
pub open spec fn file_maps(files: Seq<ConfigFile>) -> Seq<Map<Seq<char>, Seq<char>>> {
    files.map_values(|f: ConfigFile| parse_spec(f.text@)->Ok_0)
}

/// The index of the last of the first `n` maps that maps `k`, or -1.
pub open spec fn last_with(maps: Seq<Map<Seq<char>, Seq<char>>>, k: Seq<char>, n: int) -> int
    decreases n,
{
    if n <= 0 {
        -1
    } else if maps[n - 1].contains_key(k) {
        n - 1
    } else {
        last_with(maps, k, n - 1)
    }
}

/// The merge of the first `n` maps: a later map wins, one key at a time.
pub open spec fn merged(maps: Seq<Map<Seq<char>, Seq<char>>>, n: int) -> Map<Seq<char>, Seq<char>> {
    Map::new(
        |k: Seq<char>| last_with(maps, k, n) >= 0,
        |k: Seq<char>| maps[last_with(maps, k, n)][k],
    )
}

/// The file that supplied each key of the merge of the first `n` maps.
pub open spec fn merged_sources(
    maps: Seq<Map<Seq<char>, Seq<char>>>,
    paths: Seq<Seq<char>>,
    n: int,
) -> Map<Seq<char>, Seq<char>> {
    Map::new(|k: Seq<char>| last_with(maps, k, n) >= 0, |k: Seq<char>| paths[last_with(maps, k, n)])
}

/// The paths of the files.
pub open spec fn file_paths(files: Seq<ConfigFile>) -> Seq<Seq<char>> {
    files.map_values(|f: ConfigFile| f.path@)
}

/// Whether one of the first `j` keys is `x`.
pub open spec fn in_prefix(keys: Seq<Seq<char>>, j: int, x: Seq<char>) -> bool {
    exists|i: int| 0 <= i < j && keys[i] == x
}

/// Merge `m` over `acc`, and record `path` as the source of each key of `m`.
fn merge_into(acc: &mut StrMap, sources: &mut StrMap, m: &StrMap, path: &String)
    ensures
        final(acc)@ == old(acc)@.union_prefer_right(m@),
        final(sources)@ == old(sources)@.union_prefer_right(
            Map::new(|k: Seq<char>| m@.dom().contains(k), |k: Seq<char>| path@),
        ),
{
    let n = m.len();
    let ghost keys = m.keys();
    let ghost a0 = acc@;
    let ghost s0 = sources@;
    let mut j: usize = 0;
    while j < n
        invariant
            j <= n == m.keys().len(),
            keys == m.keys(),
            forall|x: Seq<char>| m@.dom().contains(x) <==> keys.contains(x),
            forall|i: int| 0 <= i < n ==> m@[#[trigger] keys[i]] == m.vals()[i],
            acc@ == a0.union_prefer_right(
                Map::new(
                    |k: Seq<char>| in_prefix(keys, j as int, k),
                    |k: Seq<char>| m@[k],
                ),
            ),
            sources@ == s0.union_prefer_right(
                Map::new(
                    |k: Seq<char>| in_prefix(keys, j as int, k),
                    |k: Seq<char>| path@,
                ),
            ),
        decreases n - j,
    {
        let (k, v) = m.entry(j);
        let ghost before_a = acc@;
        let ghost before_s = sources@;
        acc.insert(k.clone(), v.clone());
        sources.insert(k.clone(), path.clone());
        proof {
            let kj = keys[j as int];
            assert(k@ == kj);
            assert(v@ == m@[kj]);
            assert(acc@ =~= a0.union_prefer_right(
                Map::new(
                    |k: Seq<char>| in_prefix(keys, j + 1, k),
                    |k: Seq<char>| m@[k],
                ),
            )) by {
                assert forall|x: Seq<char>| #[trigger] in_prefix(keys, j + 1, x) <==> (in_prefix(
                    keys,
                    j as int,
                    x,
                ) || x == kj) by {
                    if x == kj {
                        assert(keys[j as int] == x);
                    }
                }
            }
            assert(sources@ =~= s0.union_prefer_right(
                Map::new(
                    |k: Seq<char>| in_prefix(keys, j + 1, k),
                    |k: Seq<char>| path@,
                ),
            )) by {
                assert forall|x: Seq<char>| #[trigger] in_prefix(keys, j + 1, x) <==> (in_prefix(
                    keys,
                    j as int,
                    x,
                ) || x == kj) by {
                    if x == kj {
                        assert(keys[j as int] == x);
                    }
                }
            }
        }
        j += 1;
    }
    proof {
        assert forall|x: Seq<char>| #[trigger] in_prefix(keys, n as int, x) <==> m@.dom().contains(
            x,
        ) by {
            if m@.dom().contains(x) {
                assert(keys.contains(x));
                let i = choose|i: int| 0 <= i < keys.len() && keys[i] == x;
                assert(in_prefix(keys, n as int, x));
            }
            if in_prefix(keys, n as int, x) {
                let i = choose|i: int| 0 <= i < n && keys[i] == x;
                assert(keys.contains(x));
            }
        }
        assert(Map::new(
            |k: Seq<char>| in_prefix(keys, n as int, k),
            |k: Seq<char>| m@[k],
        ) =~= m@);
        assert(Map::new(
            |k: Seq<char>| in_prefix(keys, n as int, k),
            |k: Seq<char>| path@,
        ) =~= Map::new(|k: Seq<char>| m@.dom().contains(k), |k: Seq<char>| path@));
    }
}

/// Merge the files in order. A later file wins over an earlier one, one
/// command at a time.
///
/// Refuse the first file that does not parse, and name it.
pub fn load(files: &[ConfigFile]) -> (r: Result<Config, LoadError>)
    ensures
        first_bad(files@, 0) < files@.len() ==> (r matches Err(e) && e.path@ == files@[first_bad(
            files@,
            0,
        )].path@ && parse_spec(files@[first_bad(files@, 0)].text@) == Err::<
            Map<Seq<char>, Seq<char>>,
            ParseErrorView,
        >(e.error.view())),
        first_bad(files@, 0) >= files@.len() ==> (r matches Ok(c) && c.mappings@ == merged(
            file_maps(files@),
            files@.len() as int,
        ) && c.sources@ == merged_sources(file_maps(files@), file_paths(files@), files@.len() as int)
            && views_of(c.files_read@) == file_paths(files@)),
{
    let ghost maps = file_maps(files@);
    let ghost paths = file_paths(files@);
    let mut mappings = StrMap::new();
    let mut sources = StrMap::new();
    let mut files_read: Vec<String> = Vec::new();
    let mut i: usize = 0;
    proof {
        assert(mappings@ =~= merged(maps, 0));
        assert(sources@ =~= merged_sources(maps, paths, 0));
        assert(views_of(files_read@) =~= paths.take(0));
    }
    while i < files.len()
        invariant
            i <= files@.len(),
            maps == file_maps(files@),
            paths == file_paths(files@),
            first_bad(files@, 0) == first_bad(files@, i as int),
            mappings@ == merged(maps, i as int),
            sources@ == merged_sources(maps, paths, i as int),
            views_of(files_read@) == paths.take(i as int),
        decreases files@.len() - i,
    {
        let f = &files[i];
        let m = match parse(f.text.as_str()) {
            Ok(m) => m,
            Err(error) => {
                return Err(LoadError { path: f.path.clone(), error });
            },
        };
        assert(m@ == maps[i as int]);
        merge_into(&mut mappings, &mut sources, &m, &f.path);
        proof {
            assert forall|k: Seq<char>| #[trigger] last_with(maps, k, i + 1) == (if maps[i as int].contains_key(k) { i as int } else { last_with(maps, k, i as int) }) by {}
            assert(mappings@ =~= merged(maps, i + 1));
            assert(sources@ =~= merged_sources(maps, paths, i + 1));
        }
        let ghost before = files_read@;
        files_read.push(f.path.clone());
        assert(views_of(files_read@) =~= paths.take(i + 1)) by {
            assert(views_of(files_read@) =~= views_of(before).push(f.path@));
        }
        i += 1;
    }
    assert(paths.take(files@.len() as int) =~= paths);
    Ok(Config { mappings, sources, files_read })
}

/// The text of each string.
pub open spec fn views_of(v: Seq<String>) -> Seq<Seq<char>> {
    v.map_values(|s: String| s@)
}

/// A path separator: `/`, and on Windows also `\`.
pub open spec fn is_sep(c: char, windows: bool) -> bool {
    c == '/' || (windows && c == '\\')
}

/// A Windows drive and nothing else, as `C:`.
pub open spec fn is_bare_drive(dir: Seq<char>) -> bool {
    dir.len() == 2 && (('a' <= dir[0] && dir[0] <= 'z') || ('A' <= dir[0] && dir[0] <= 'Z'))
        && dir[1] == ':'
}

/// `dir` joined with `name`, as `Path::join` joins a relative name: a
/// separator goes between them unless `dir` is empty, already ends in one,
/// or is a bare Windows drive such as `C:` (which gives `C:name`, relative
/// to that drive's working directory).
pub open spec fn join(dir: Seq<char>, name: Seq<char>, windows: bool) -> Seq<char> {
    if dir.len() == 0 || is_sep(dir.last(), windows) || (windows && is_bare_drive(dir)) {
        dir + name
    } else {
        dir + seq![if windows { '\\' } else { '/' }] + name
    }
}

/// Join `dir` and `name`.
pub fn join_path(dir: &str, name: &str, windows: bool) -> (r: String)
    ensures
        r@ == join(dir@, name@, windows),
{
    let d = chars_of(dir);
    let mut r = String::from_str(dir);
    let bare_drive = d.len() == 2 && (('a' <= d[0] && d[0] <= 'z') || ('A' <= d[0] && d[0]
        <= 'Z')) && d[1] == ':';
    if d.len() == 0 || d[d.len() - 1] == '/' || (windows && d[d.len() - 1] == '\\') || (windows
        && bare_drive) {
        assert(d@.len() > 0 ==> d@.last() == d@[d@.len() - 1]);
        r.append(name);
    } else {
        let sep = if windows { '\\' } else { '/' };
        push_char(&mut r, sep);
        r.append(name);
        assert(r@ =~= dir@ + seq![sep] + name@);
    }
    r
}

/// A value that is present and not empty.
pub open spec fn given(v: Option<Seq<char>>) -> bool {
    v matches Some(s) && s.len() > 0
}

/// The text of an optional string.
pub open spec fn opt_view(v: Option<&str>) -> Option<Seq<char>> {
    match v {
        Some(s) => Some(s@),
        None => None,
    }
}

/// The paths of the configuration files, the system path before the user
/// path, so that a later path wins.
///
/// Unix and macOS: `/etc/uv/uvxy.toml`, then `$XDG_CONFIG_HOME/uv/uvxy.toml`,
/// or `$HOME/.config/uv/uvxy.toml` when `XDG_CONFIG_HOME` is empty or unset.
/// Windows: `%APPDATA%\uv\uvxy.toml`. An empty variable counts as an absent
/// one.
pub open spec fn config_paths_spec(
    windows: bool,
    appdata: Option<Seq<char>>,
    xdg_config_home: Option<Seq<char>>,
    home: Option<Seq<char>>,
) -> Seq<Seq<char>> {
    if windows {
        if given(appdata) {
            seq![join(join(appdata->Some_0, "uv"@, true), "uvxy.toml"@, true)]
        } else {
            seq![]
        }
    } else {
        let system = "/etc/uv/uvxy.toml"@;
        if given(xdg_config_home) {
            seq![system, join(join(xdg_config_home->Some_0, "uv"@, false), "uvxy.toml"@, false)]
        } else if given(home) {
            seq![
                system,
                join(
                    join(join(home->Some_0, ".config"@, false), "uv"@, false),
                    "uvxy.toml"@,
                    false,
                ),
            ]
        } else {
            seq![system]
        }
    }
}

/// Return the paths of the configuration files. A later path wins.
pub fn config_paths(
    windows: bool,
    appdata: Option<&str>,
    xdg_config_home: Option<&str>,
    home: Option<&str>,
) -> (r: Vec<String>)
    ensures
        views_of(r@) == config_paths_spec(
            windows,
            opt_view(appdata),
            opt_view(xdg_config_home),
            opt_view(home),
        ),
{
    let mut r: Vec<String> = Vec::new();
    if windows {
        if let Some(a) = appdata {
            if !a.is_empty() {
                let uv = join_path(a, "uv", true);
                r.push(join_path(uv.as_str(), "uvxy.toml", true));
            }
        }
        assert(views_of(r@) =~= config_paths_spec(
            windows,
            opt_view(appdata),
            opt_view(xdg_config_home),
            opt_view(home),
        ));
        return r;
    }
    r.push(String::from_str("/etc/uv/uvxy.toml"));
    let user = match xdg_config_home {
        Some(x) if !x.is_empty() => Some(join_path(x, "uv", false)),
        _ => match home {
            Some(h) if !h.is_empty() => {
                let config = join_path(h, ".config", false);
                Some(join_path(config.as_str(), "uv", false))
            },
            _ => None,
        },
    };
    if let Some(u) = user {
        r.push(join_path(u.as_str(), "uvxy.toml", false));
    }
    assert(views_of(r@) =~= config_paths_spec(
        windows,
        opt_view(appdata),
        opt_view(xdg_config_home),
        opt_view(home),
    ));
    r
}

/// Choose the files to read. A given override file replaces every other
/// file. Any of them may be absent, and an absent file counts as no file.
pub fn config_files(override_file: Option<&str>, paths: Vec<String>) -> (r: Vec<String>)
    ensures
        given(opt_view(override_file)) ==> views_of(r@) == seq![override_file->Some_0@],
        !given(opt_view(override_file)) ==> r@ == paths@,
{
    if let Some(o) = override_file {
        if !o.is_empty() {
            let mut r: Vec<String> = Vec::new();
            r.push(String::from_str(o));
            assert(views_of(r@) =~= seq![o@]);
            return r;
        }
    }
    paths
}

/// What the read of one configuration file gave.
#[derive(Debug)]
pub enum FileRead {
    /// The text of the file.
    Text(String),
    /// No file exists at the path.
    Missing,
    /// The read failed, with this message.
    Failed(String),
}

/// A read, as text.
pub enum FileReadView {
    Text(Seq<char>),
    Missing,
    Failed(Seq<char>),
}

impl FileRead {
    pub open spec fn view(&self) -> FileReadView {
        match self {
            FileRead::Text(t) => FileReadView::Text(t@),
            FileRead::Missing => FileReadView::Missing,
            FileRead::Failed(e) => FileReadView::Failed(e@),
        }
    }
}

/// The message for a configuration file that could not be read.
pub open spec fn unreadable_message(path: Seq<char>, why: Seq<char>) -> Seq<char> {
    "cannot read the configuration file `"@ + path + "`: "@ + why
}

/// The files read, from candidate `i` on, as path and text: a missing file
/// is skipped, and a read that failed stops the whole read with a message
/// that names the file.
pub open spec fn gather_from(
    paths: Seq<Seq<char>>,
    reads: Seq<FileReadView>,
    i: int,
) -> Result<Seq<(Seq<char>, Seq<char>)>, Seq<char>>
    decreases paths.len() - i,
{
    if i < 0 || i >= paths.len() {
        Ok(seq![])
    } else {
        match reads[i] {
            FileReadView::Text(t) => match gather_from(paths, reads, i + 1) {
                Ok(rest) => Ok(seq![(paths[i], t)] + rest),
                Err(e) => Err(e),
            },
            FileReadView::Missing => gather_from(paths, reads, i + 1),
            FileReadView::Failed(e) => Err(unreadable_message(paths[i], e)),
        }
    }
}

/// `done` followed by what `r` gave, or the error of `r`.
pub open spec fn after(
    done: Seq<(Seq<char>, Seq<char>)>,
    r: Result<Seq<(Seq<char>, Seq<char>)>, Seq<char>>,
) -> Result<Seq<(Seq<char>, Seq<char>)>, Seq<char>> {
    match r {
        Ok(rest) => Ok(done + rest),
        Err(e) => Err(e),
    }
}

/// The files, read as path and text.
pub open spec fn files_of(f: Seq<ConfigFile>) -> Seq<(Seq<char>, Seq<char>)> {
    f.map_values(|x: ConfigFile| (x.path@, x.text@))
}

/// Keep the files that were read, in the order of their paths. A missing
/// file counts as no file; a read that failed is an error that names the
/// file.
pub fn gather(paths: &[String], reads: &[FileRead]) -> (r: Result<Vec<ConfigFile>, String>)
    requires
        reads@.len() == paths@.len(),
    ensures
        match gather_from(views_of(paths@), reads@.map_values(|x: FileRead| x.view()), 0) {
            Ok(fs) => r matches Ok(v) && files_of(v@) == fs,
            Err(e) => r matches Err(m) && m@ == e,
        },
{
    let ghost cs = views_of(paths@);
    let ghost rs = reads@.map_values(|x: FileRead| x.view());
    let mut out: Vec<ConfigFile> = Vec::new();
    let mut i: usize = 0;
    while i < paths.len()
        invariant
            i <= paths@.len() == reads@.len(),
            cs == views_of(paths@),
            rs == reads@.map_values(|x: FileRead| x.view()),
            gather_from(cs, rs, 0) == after(files_of(out@), gather_from(cs, rs, i as int)),
        decreases paths@.len() - i,
    {
        let ghost done = files_of(out@);
        match &reads[i] {
            FileRead::Text(t) => {
                out.push(ConfigFile { path: paths[i].clone(), text: t.clone() });
                proof {
                    assert(files_of(out@) =~= done.push((cs[i as int], rs[i as int]->Text_0)));
                    match gather_from(cs, rs, i + 1) {
                        Ok(rest) => {
                            assert(done + (seq![(cs[i as int], rs[i as int]->Text_0)] + rest)
                                =~= files_of(out@) + rest);
                        },
                        Err(_) => {},
                    }
                }
            },
            FileRead::Missing => {},
            FileRead::Failed(e) => {
                let mut m = String::from_str("cannot read the configuration file `");
                m.append(paths[i].as_str());
                m.append("`: ");
                m.append(e.as_str());
                return Err(m);
            },
        }
        i += 1;
    }
    proof {
        assert(files_of(out@) + Seq::<(Seq<char>, Seq<char>)>::empty() =~= files_of(out@));
    }
    Ok(out)
}

/// Merging one more file puts its mappings over the merge so far.
pub proof fn law_merge_step(maps: Seq<Map<Seq<char>, Seq<char>>>, n: int)
    requires
        0 <= n < maps.len(),
    ensures
        merged(maps, n + 1) == merged(maps, n).union_prefer_right(maps[n]),
        merged(maps, 0) == Map::<Seq<char>, Seq<char>>::empty(),
{
    assert(merged(maps, n + 1) =~= merged(maps, n).union_prefer_right(maps[n]));
    assert(merged(maps, 0) =~= Map::<Seq<char>, Seq<char>>::empty());
}

/// The user file wins over the system file, one command at a time: a command
/// that the user file maps takes the user's spec and names the user file as
/// its source, and a command that only the system file maps keeps the
/// system's spec and source.
pub proof fn law_user_wins_over_system(
    system: Map<Seq<char>, Seq<char>>,
    user: Map<Seq<char>, Seq<char>>,
    system_path: Seq<char>,
    user_path: Seq<char>,
)
    ensures
        merged(seq![system, user], 2) == system.union_prefer_right(user),
        merged_sources(seq![system, user], seq![system_path, user_path], 2) == Map::new(
            |k: Seq<char>| system.contains_key(k) || user.contains_key(k),
            |k: Seq<char>|
                if user.contains_key(k) {
                    user_path
                } else {
                    system_path
                },
        ),
{
    let maps = seq![system, user];
    law_merge_step(maps, 0);
    law_merge_step(maps, 1);
    assert(Map::<Seq<char>, Seq<char>>::empty().union_prefer_right(system) =~= system);
    assert forall|k: Seq<char>| #[trigger] last_with(maps, k, 2) == (if user.contains_key(k) {
        1int
    } else if system.contains_key(k) {
        0int
    } else {
        -1int
    }) by {
        assert(maps[1] == user);
        assert(maps[0] == system);
    }
    assert(merged_sources(maps, seq![system_path, user_path], 2) =~= Map::new(
        |k: Seq<char>| system.contains_key(k) || user.contains_key(k),
        |k: Seq<char>|
            if user.contains_key(k) {
                user_path
            } else {
                system_path
            },
    ));
}

/// The mappings of the files `fs`, in order, when each parses.
proof fn lemma_file_maps_of(files: Seq<ConfigFile>)
    ensures
        file_maps(files).len() == files.len(),
        forall|i: int| 0 <= i < files.len() ==> #[trigger] file_maps(files)[i] == parse_spec(
            files[i].text@,
        )->Ok_0,
{
}

proof fn lemma_one_file(files: Seq<ConfigFile>, m: Map<Seq<char>, Seq<char>>)
    requires
        files.len() == 1,
        parse_spec(files[0].text@) == Ok::<Map<Seq<char>, Seq<char>>, ParseErrorView>(m),
    ensures
        first_bad(files, 0) == 1,
        merged(file_maps(files), 1) == m,
        merged_sources(file_maps(files), file_paths(files), 1) == Map::new(
            |k: Seq<char>| m.contains_key(k),
            |k: Seq<char>| files[0].path@,
        ),
        file_paths(files) == seq![files[0].path@],
{
    lemma_file_maps_of(files);
    let maps = file_maps(files);
    assert(maps[0] == m);
    assert(first_bad(files, 1) == 1);
    assert forall|k: Seq<char>| #[trigger] last_with(maps, k, 1) == (if m.contains_key(k) {
        0int
    } else {
        -1int
    }) by {
        assert(last_with(maps, k, 0) == -1);
    }
    assert(merged(maps, 1) =~= m);
    assert(file_paths(files) =~= seq![files[0].path@]);
    assert(merged_sources(maps, file_paths(files), 1) =~= Map::new(
        |k: Seq<char>| m.contains_key(k),
        |k: Seq<char>| files[0].path@,
    ));
}

proof fn lemma_two_files(
    files: Seq<ConfigFile>,
    ms: Map<Seq<char>, Seq<char>>,
    mu: Map<Seq<char>, Seq<char>>,
)
    requires
        files.len() == 2,
        parse_spec(files[0].text@) == Ok::<Map<Seq<char>, Seq<char>>, ParseErrorView>(ms),
        parse_spec(files[1].text@) == Ok::<Map<Seq<char>, Seq<char>>, ParseErrorView>(mu),
    ensures
        first_bad(files, 0) == 2,
        merged(file_maps(files), 2) == ms.union_prefer_right(mu),
        merged_sources(file_maps(files), file_paths(files), 2) == Map::new(
            |k: Seq<char>| ms.contains_key(k) || mu.contains_key(k),
            |k: Seq<char>|
                if mu.contains_key(k) {
                    files[1].path@
                } else {
                    files[0].path@
                },
        ),
        file_paths(files) == seq![files[0].path@, files[1].path@],
{
    lemma_file_maps_of(files);
    let maps = file_maps(files);
    assert(maps =~= seq![ms, mu]);
    assert(first_bad(files, 2) == 2);
    assert(first_bad(files, 1) == 2);
    assert(file_paths(files) =~= seq![files[0].path@, files[1].path@]);
    law_user_wins_over_system(ms, mu, files[0].path@, files[1].path@);
}

/// The system file and then the user file, either of them absent: every
/// file read parses, so the read succeeds; the mappings are the system's
/// with the user's over them, one command at a time; each command's source
/// is the file that gave it; and the files read are those that exist, the
/// system file first. An absent file counts as a file that maps nothing, so
/// with neither the result is empty.
#[verifier::spinoff_prover]
#[verifier::rlimit(60)]
pub proof fn law_system_then_user(
    paths: Seq<Seq<char>>,
    reads: Seq<FileReadView>,
    files: Seq<ConfigFile>,
    ms: Map<Seq<char>, Seq<char>>,
    mu: Map<Seq<char>, Seq<char>>,
)
    requires
        paths.len() == 2,
        reads.len() == 2,
        !(reads[0] is Failed),
        !(reads[1] is Failed),
        reads[0] matches FileReadView::Text(t) ==> parse_spec(t) == Ok::<
            Map<Seq<char>, Seq<char>>,
            ParseErrorView,
        >(ms),
        reads[0] is Missing ==> ms == Map::<Seq<char>, Seq<char>>::empty(),
        reads[1] matches FileReadView::Text(t) ==> parse_spec(t) == Ok::<
            Map<Seq<char>, Seq<char>>,
            ParseErrorView,
        >(mu),
        reads[1] is Missing ==> mu == Map::<Seq<char>, Seq<char>>::empty(),
        gather_from(paths, reads, 0) == Ok::<Seq<(Seq<char>, Seq<char>)>, Seq<char>>(
            files_of(files),
        ),
    ensures
        first_bad(files, 0) == files.len(),
        merged(file_maps(files), files.len() as int) == ms.union_prefer_right(mu),
        merged_sources(file_maps(files), file_paths(files), files.len() as int) == Map::new(
            |k: Seq<char>| ms.contains_key(k) || mu.contains_key(k),
            |k: Seq<char>|
                if mu.contains_key(k) {
                    paths[1]
                } else {
                    paths[0]
                },
        ),
        file_paths(files) == (if reads[0] is Text {
            seq![paths[0]]
        } else {
            Seq::<Seq<char>>::empty()
        }) + (if reads[1] is Text {
            seq![paths[1]]
        } else {
            Seq::<Seq<char>>::empty()
        }),
{
    let g1 = gather_from(paths, reads, 1);
    assert(gather_from(paths, reads, 2) == Ok::<Seq<(Seq<char>, Seq<char>)>, Seq<char>>(
        Seq::empty(),
    ));
    let fs = files_of(files);
    assert(fs.len() == files.len());
    let target = Map::new(
        |k: Seq<char>| ms.contains_key(k) || mu.contains_key(k),
        |k: Seq<char>|
            if mu.contains_key(k) {
                paths[1]
            } else {
                paths[0]
            },
    );
    if reads[0] is Text && reads[1] is Text {
        let t0 = reads[0]->Text_0;
        let t1 = reads[1]->Text_0;
        assert(g1 == Ok::<Seq<(Seq<char>, Seq<char>)>, Seq<char>>(seq![(paths[1], t1)]));
        assert(fs =~= seq![(paths[0], t0), (paths[1], t1)]);
        assert(fs[0] == (files[0].path@, files[0].text@));
        assert(fs[1] == (files[1].path@, files[1].text@));
        lemma_two_files(files, ms, mu);
        assert(seq![paths[0]] + seq![paths[1]] =~= seq![paths[0], paths[1]]);
    } else if reads[0] is Text {
        let t0 = reads[0]->Text_0;
        assert(g1 == Ok::<Seq<(Seq<char>, Seq<char>)>, Seq<char>>(Seq::empty()));
        assert(fs =~= seq![(paths[0], t0)]);
        assert(fs[0] == (files[0].path@, files[0].text@));
        lemma_one_file(files, ms);
        assert(ms.union_prefer_right(mu) =~= ms);
        assert(Map::new(|k: Seq<char>| ms.contains_key(k), |k: Seq<char>| files[0].path@)
            =~= target);
        assert(seq![paths[0]] + Seq::<Seq<char>>::empty() =~= seq![paths[0]]);
    } else if reads[1] is Text {
        let t1 = reads[1]->Text_0;
        assert(g1 == Ok::<Seq<(Seq<char>, Seq<char>)>, Seq<char>>(seq![(paths[1], t1)]));
        assert(fs =~= seq![(paths[1], t1)]);
        assert(fs[0] == (files[0].path@, files[0].text@));
        lemma_one_file(files, mu);
        assert(ms.union_prefer_right(mu) =~= mu);
        assert(Map::new(|k: Seq<char>| mu.contains_key(k), |k: Seq<char>| files[0].path@)
            =~= target);
        assert(Seq::<Seq<char>>::empty() + seq![paths[1]] =~= seq![paths[1]]);
    } else {
        assert(g1 == Ok::<Seq<(Seq<char>, Seq<char>)>, Seq<char>>(Seq::empty()));
        assert(fs =~= Seq::<(Seq<char>, Seq<char>)>::empty());
        assert(files.len() == 0);
        assert(merged(file_maps(files), 0) =~= ms.union_prefer_right(mu));
        assert(merged_sources(file_maps(files), file_paths(files), 0) =~= target);
        assert(file_paths(files) =~= Seq::<Seq<char>>::empty());
        assert(Seq::<Seq<char>>::empty() + Seq::<Seq<char>>::empty() =~= Seq::<Seq<char>>::empty());
    }
}

proof fn lemma_bare_end_run(s: Seq<char>, i: int, j: int)
    requires
        0 <= i <= j <= s.len(),
        forall|m: int| i <= m < j ==> is_bare_char(#[trigger] s[m]),
        j < s.len() ==> !is_bare_char(s[j]),
    ensures
        bare_end(s, i) == j,
    decreases j - i,
{
    if i < j {
        lemma_bare_end_run(s, i + 1, j);
    }
}

proof fn lemma_basic_run(s: Seq<char>, j: int, e: int, acc: Seq<char>)
    requires
        0 <= j <= e < s.len(),
        s[e] == '"',
        forall|m: int|
            j <= m < e ==> (#[trigger] s[m] != '"' && s[m] != '\\' && ' ' <= s[m] && s[m]
                != '\u{7f}'),
    ensures
        basic_from(s, j, acc) == Some((acc + s.subrange(j, e), e + 1)),
    decreases e - j,
{
    if j < e {
        lemma_basic_run(s, j + 1, e, acc.push(s[j]));
        assert(acc.push(s[j]) + s.subrange(j + 1, e) =~= acc + s.subrange(j, e));
    } else {
        assert(acc + s.subrange(j, e) =~= acc);
    }
}

#[verifier::spinoff_prover]
#[verifier::rlimit(60)]
proof fn lemma_header_item(s: Seq<char>)
    requires
        s.len() >= 11,
        s.subrange(0, 11) == seq!['[', 'c', 'o', 'm', 'm', 'a', 'n', 'd', 's', ']', '\n'],
    ensures
        item_at(s, 0) == (Item::Header(seq![commands()]), 11int),
{
    let h = seq!['[', 'c', 'o', 'm', 'm', 'a', 'n', 'd', 's', ']', '\n'];
    assert forall|m: int| 0 <= m < 11 implies #[trigger] s[m] == h[m] by {
        assert(s.subrange(0, 11)[m] == s[m]);
    }
    lemma_bare_end_run(s, 1, 9);
    assert(s.subrange(1, 9) =~= commands());
    assert(skip_ws(s, 0) == 0);
    assert(skip_ws(s, 1) == 1);
    assert(skip_ws(s, 9) == 9);
    assert(skip_ws(s, 10) == 10);
    assert(key_at(s, 1) == Some((commands(), 9int)));
    assert(keypath_from(s, 1, Seq::empty()) == Some((seq![commands()], 9int)));
    assert(rest_of_line(s, 10) == Some(11int));
}

#[verifier::spinoff_prover]
#[verifier::rlimit(60)]
proof fn lemma_pair_item(s: Seq<char>, a: int, k: Seq<char>, v: Seq<char>)
    requires
        0 <= a,
        k.len() > 0,
        s.len() == a + k.len() + 5 + v.len() || (s.len() == a + k.len() + 6 + v.len() && s[a
            + k.len() + 5 + v.len()] == '\n'),
        s.subrange(a, a + k.len()) == k,
        forall|i: int| 0 <= i < k.len() ==> is_bare_char(#[trigger] k[i]),
        s[a + k.len()] == ' ',
        s[a + k.len() + 1] == '=',
        s[a + k.len() + 2] == ' ',
        s[a + k.len() + 3] == '"',
        s.subrange(a + k.len() + 4, a + k.len() + 4 + v.len()) == v,
        s[a + k.len() + 4 + v.len()] == '"',
        forall|i: int|
            0 <= i < v.len() ==> (#[trigger] v[i] != '"' && v[i] != '\\' && ' ' <= v[i] && v[i]
                != '\u{7f}'),
    ensures
        item_at(s, a) == (Item::Pair(seq![k], Some(v)), s.len() as int),
{
    let kl = k.len() as int;
    let vl = v.len() as int;
    let n = s.len() as int;
    assert forall|m: int| a <= m < a + kl implies is_bare_char(#[trigger] s[m]) by {
        assert(s.subrange(a, a + kl)[m - a] == s[m]);
    }
    lemma_bare_end_run(s, a, a + kl);
    assert(skip_ws(s, a) == a) by {
        assert(s.subrange(a, a + kl)[0] == s[a]);
    }
    assert(skip_ws(s, a + kl + 1) == a + kl + 1);
    assert(skip_ws(s, a + kl) == a + kl + 1);
    assert(skip_ws(s, a + kl + 3) == a + kl + 3);
    assert(skip_ws(s, a + kl + 2) == a + kl + 3);
    assert(key_at(s, a) == Some((k, a + kl)));
    assert(keypath_from(s, a, Seq::empty()) == Some((seq![k], a + kl)));
    let e = a + kl + 4 + vl;
    assert forall|m: int| a + kl + 4 <= m < e implies (#[trigger] s[m] != '"' && s[m] != '\\'
        && ' ' <= s[m] && s[m] != '\u{7f}') by {
        assert(s.subrange(a + kl + 4, e)[m - a - kl - 4] == s[m]);
    }
    lemma_basic_run(s, a + kl + 4, e, Seq::empty());
    assert(Seq::<char>::empty() + s.subrange(a + kl + 4, e) =~= v);
    assert(!triple_at(s, a + kl + 3, '"')) by {
        if vl > 0 {
            assert(s.subrange(a + kl + 4, e)[0] == s[a + kl + 4]);
        }
    }
    assert(string_value_at(s, a + kl + 3) == Some((v, e + 1)));
    assert(plain_value_at(s, a + kl + 3) == Some((Some(v), e + 1)));
    assert(skip_ws(s, e + 1) == e + 1);
    assert(rest_of_line(s, e + 1) == Some(n));
}

/// A `[commands]` header and one line `key = "value"` give exactly that
/// mapping, whether or not a line break ends the file. The key may be any
/// non-empty run of ASCII letters, ASCII digits, `-` and `_`, the bare keys
/// of TOML (as `f2py` and `rst2html` in the README's table), and the value
/// any text without a quote, a backslash or a control character.
#[verifier::spinoff_prover]
#[verifier::rlimit(60)]
pub proof fn law_one_bare_key(k: Seq<char>, v: Seq<char>, tail: Seq<char>)
    requires
        k.len() > 0,
        forall|i: int|
            0 <= i < k.len() ==> ('a' <= #[trigger] k[i] && k[i] <= 'z') || ('A' <= k[i] && k[i]
                <= 'Z') || ('0' <= k[i] && k[i] <= '9') || k[i] == '-' || k[i] == '_',
        forall|i: int|
            0 <= i < v.len() ==> (#[trigger] v[i] != '"' && v[i] != '\\' && ' ' <= v[i] && v[i]
                != '\u{7f}'),
        tail == Seq::<char>::empty() || tail == seq!['\n'],
    ensures
        parse_spec(
            seq!['[', 'c', 'o', 'm', 'm', 'a', 'n', 'd', 's', ']', '\n'] + k + seq![' ', '=', ' ', '"']
                + v + seq!['"'] + tail,
        ) == Ok::<Map<Seq<char>, Seq<char>>, ParseErrorView>(
            Map::<Seq<char>, Seq<char>>::empty().insert(k, v),
        ),
{
    let h = seq!['[', 'c', 'o', 'm', 'm', 'a', 'n', 'd', 's', ']', '\n'];
    let s = h + k + seq![' ', '=', ' ', '"'] + v + seq!['"'] + tail;
    let kl = k.len() as int;
    let vl = v.len() as int;
    let n = s.len() as int;
    assert(s.subrange(0, 11) =~= h);
    assert(s.subrange(11, 11 + kl) =~= k);
    assert(s[11 + kl] == ' ');
    assert(s[12 + kl] == '=');
    assert(s[13 + kl] == ' ');
    assert(s[14 + kl] == '"');
    assert(s.subrange(15 + kl, 15 + kl + vl) =~= v);
    assert(s[15 + kl + vl] == '"');
    assert(tail.len() > 0 ==> s[16 + kl + vl] == '\n');
    lemma_header_item(s);
    lemma_pair_item(s, 11, k, v);
    lemma_parse_header_pair(s, k, v);
}

proof fn lemma_parse_header_pair(s: Seq<char>, k: Seq<char>, v: Seq<char>)
    requires
        11 < s.len(),
        item_at(s, 0) == (Item::Header(seq![commands()]), 11int),
        item_at(s, 11) == (Item::Pair(seq![k], Some(v)), s.len() as int),
    ensures
        parse_spec(s) == Ok::<Map<Seq<char>, Seq<char>>, ParseErrorView>(
            Map::<Seq<char>, Seq<char>>::empty().insert(k, v),
        ),
{
    let n = s.len() as int;
    let m = Map::<Seq<char>, Seq<char>>::empty().insert(k, v);
    assert(put(seq![k], Some(v), nl_count(s, 11) + 1, Map::empty()) == Ok::<
        Map<Seq<char>, Seq<char>>,
        ParseErrorView,
    >(m));
    assert(parse_from(s, n, Stage::Inside, m) == Ok::<Map<Seq<char>, Seq<char>>, ParseErrorView>(m));
    assert(parse_from(s, 11, Stage::Inside, Map::empty()) == Ok::<
        Map<Seq<char>, Seq<char>>,
        ParseErrorView,
    >(m));
}

} // verus!
