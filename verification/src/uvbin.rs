//! Find the uv binary.
use vstd::prelude::*;

use crate::config::{given, join, join_path, opt_view};

verus! {

/// Which binary `uvxy` found.
#[derive(Debug, Clone, Copy, PartialEq, Eq, Structural)]
pub enum UvKind {
    /// The `uv` binary. `uvxy` runs `uv tool run`.
    Uv,
    /// The `uvx` binary. `uvxy` found no `uv`, so it cannot read the flags.
    Uvx,
}

/// The binary that `uvxy` runs.
#[derive(Debug, Clone)]
pub struct Uv {
    pub path: String,
    pub kind: UvKind,
}

impl Uv {
    /// The arguments that come before the user's arguments: `tool run` for
    /// `uv`, and nothing for `uvx`.
    pub fn prefix_args(&self) -> (r: Vec<&'static str>)
        ensures
            self.kind == UvKind::Uv ==> r@.len() == 2 && r@[0]@ == "tool"@ && r@[1]@ == "run"@,
            self.kind == UvKind::Uvx ==> r@.len() == 0,
    {
        match self.kind {
            UvKind::Uv => {
                let mut r: Vec<&'static str> = Vec::new();
                r.push("tool");
                r.push("run");
                r
            },
            UvKind::Uvx => Vec::new(),
        }
    }
}

/// A file that may be the binary, in the order of the search.
#[derive(Debug)]
pub struct UvCandidate {
    pub path: String,
    pub kind: UvKind,
    /// `$UVXY_UV` named this file, so its absence is an error.
    pub explicit: bool,
}

/// The file name of the uv binary.
pub open spec fn uv_name(windows: bool) -> Seq<char> {
    if windows {
        "uv.exe"@
    } else {
        "uv"@
    }
}

/// The file name of the uvx binary.
pub open spec fn uvx_name(windows: bool) -> Seq<char> {
    if windows {
        "uvx.exe"@
    } else {
        "uvx"@
    }
}

/// One candidate, read as text.
pub open spec fn cand(path: Seq<char>, kind: UvKind, explicit: bool) -> (Seq<char>, UvKind, bool) {
    (path, kind, explicit)
}

/// The candidates from the `PATH` entries `entries[i..]` for file `name`.
/// An empty entry names the working directory on some shells, and `uvxy`
/// does not read the working directory.
pub open spec fn path_candidates(
    entries: Seq<Seq<char>>,
    name: Seq<char>,
    kind: UvKind,
    windows: bool,
) -> Seq<(Seq<char>, UvKind, bool)>
    decreases entries.len(),
{
    if entries.len() == 0 {
        seq![]
    } else {
        let rest = path_candidates(entries.drop_last(), name, kind, windows);
        if entries.last().len() == 0 {
            rest
        } else {
            rest.push(cand(join(entries.last(), name, windows), kind, false))
        }
    }
}

/// The files to try, in order: `$UVXY_UV`, which ends the search whether or
/// not it exists; `$UV`; `uv` in each `PATH` entry; then `uvx` in each
/// `PATH` entry. An empty variable counts as an absent one.
pub open spec fn candidates_spec(
    uvxy_uv: Option<Seq<char>>,
    uv: Option<Seq<char>>,
    entries: Seq<Seq<char>>,
    windows: bool,
) -> Seq<(Seq<char>, UvKind, bool)> {
    if given(uvxy_uv) {
        seq![cand(uvxy_uv->Some_0, UvKind::Uv, true)]
    } else {
        (if given(uv) {
            seq![cand(uv->Some_0, UvKind::Uv, false)]
        } else {
            seq![]
        }) + path_candidates(entries, uv_name(windows), UvKind::Uv, windows) + path_candidates(
            entries,
            uvx_name(windows),
            UvKind::Uvx,
            windows,
        )
    }
}

/// The candidates, read as text.
pub open spec fn cands_view(c: Seq<UvCandidate>) -> Seq<(Seq<char>, UvKind, bool)> {
    c.map_values(|x: UvCandidate| cand(x.path@, x.kind, x.explicit))
}

fn push_path_candidates(
    out: &mut Vec<UvCandidate>,
    entries: &[String],
    name: &str,
    kind: UvKind,
    windows: bool,
)
    ensures
        cands_view(final(out)@) == cands_view(old(out)@) + path_candidates(
            entries@.map_values(|s: String| s@),
            name@,
            kind,
            windows,
        ),
{
    let ghost ev = entries@.map_values(|s: String| s@);
    let ghost start = cands_view(out@);
    let mut i: usize = 0;
    while i < entries.len()
        invariant
            i <= entries@.len(),
            ev == entries@.map_values(|s: String| s@),
            cands_view(out@) == start + path_candidates(ev.take(i as int), name@, kind, windows),
        decreases entries@.len() - i,
    {
        let ghost before = cands_view(out@);
        assert(ev.take(i + 1).drop_last() =~= ev.take(i as int));
        assert(ev.take(i + 1).last() == entries@[i as int]@);
        if !entries[i].as_str().is_empty() {
            out.push(
                UvCandidate {
                    path: join_path(entries[i].as_str(), name, windows),
                    kind,
                    explicit: false,
                },
            );
            assert(cands_view(out@) =~= before.push(
                cand(join(entries@[i as int]@, name@, windows), kind, false),
            ));
        }
        i += 1;
    }
    assert(ev.take(entries@.len() as int) =~= ev);
}

/// The files to try, in the order of `candidates_spec`.
pub fn candidates(
    uvxy_uv: Option<&str>,
    uv: Option<&str>,
    entries: &[String],
    windows: bool,
) -> (r: Vec<UvCandidate>)
    ensures
        cands_view(r@) == candidates_spec(
            opt_view(uvxy_uv),
            opt_view(uv),
            entries@.map_values(|s: String| s@),
            windows,
        ),
{
    let mut out: Vec<UvCandidate> = Vec::new();
    if let Some(x) = uvxy_uv {
        if !x.is_empty() {
            out.push(UvCandidate { path: String::from_str(x), kind: UvKind::Uv, explicit: true });
            assert(cands_view(out@) =~= candidates_spec(
                opt_view(uvxy_uv),
                opt_view(uv),
                entries@.map_values(|s: String| s@),
                windows,
            ));
            return out;
        }
    }
    if let Some(u) = uv {
        if !u.is_empty() {
            out.push(UvCandidate { path: String::from_str(u), kind: UvKind::Uv, explicit: false });
        }
    }
    assert(cands_view(out@) =~= (if given(opt_view(uv)) {
        seq![cand(uv->Some_0@, UvKind::Uv, false)]
    } else {
        seq![]
    }));
    let uv_file = if windows {
        "uv.exe"
    } else {
        "uv"
    };
    let uvx_file = if windows {
        "uvx.exe"
    } else {
        "uvx"
    };
    push_path_candidates(&mut out, entries, uv_file, UvKind::Uv, windows);
    push_path_candidates(&mut out, entries, uvx_file, UvKind::Uvx, windows);
    out
}

/// Why no binary came out.
#[derive(Debug, PartialEq, Eq)]
pub enum LookupError {
    /// `$UVXY_UV` names a path where no file exists.
    MissingExplicit { path: String },
    /// No candidate exists.
    NotFound,
}

impl LookupError {
    /// The message that tells the user what is missing. `windows` picks the
    /// file names of the binaries.
    pub fn message(&self, windows: bool) -> (r: String)
        ensures
            match self {
                LookupError::MissingExplicit { path } => r@ == "$UVXY_UV names `"@ + path@
                    + "`, and no file exists at that path"@,
                LookupError::NotFound => r@ == "no `"@ + uv_name(windows) + "` binary and no `"@
                    + uvx_name(windows) + "` binary on PATH. Install uv from "@
                    + "https://docs.astral.sh/uv/getting-started/installation/, "@
                    + "or set $UVXY_UV to the path of the uv binary."@,
            },
    {
        match self {
            LookupError::MissingExplicit { path } => {
                let mut r = String::from_str("$UVXY_UV names `");
                r.append(path.as_str());
                r.append("`, and no file exists at that path");
                r
            },
            LookupError::NotFound => {
                let mut r = String::from_str("no `");
                r.append(if windows { "uv.exe" } else { "uv" });
                r.append("` binary and no `");
                r.append(if windows { "uvx.exe" } else { "uvx" });
                r.append("` binary on PATH. Install uv from ");
                r.append("https://docs.astral.sh/uv/getting-started/installation/, ");
                r.append("or set $UVXY_UV to the path of the uv binary.");
                r
            },
        }
    }
}

/// The index of the first candidate at or after `k` that ends the search: a
/// file that exists, or an explicit path. `c.len()` when none does.
pub open spec fn first_stop(c: Seq<(Seq<char>, UvKind, bool)>, exists: Seq<bool>, k: int) -> int
    decreases c.len() - k,
{
    if k < 0 {
        0
    } else if k >= c.len() {
        k
    } else if exists[k] || c[k].2 {
        k
    } else {
        first_stop(c, exists, k + 1)
    }
}

/// Take the first candidate that exists. An explicit candidate that does not
/// exist is an error, and so is a search that finds nothing.
pub fn select(cands: &Vec<UvCandidate>, exists: &[bool]) -> (r: Result<Uv, LookupError>)
    requires
        exists@.len() == cands@.len(),
    ensures
        ({
            let c = cands_view(cands@);
            let k = first_stop(c, exists@, 0);
            if k >= c.len() {
                r == Err::<Uv, LookupError>(LookupError::NotFound)
            } else if exists@[k] {
                r matches Ok(u) && u.path@ == c[k].0 && u.kind == c[k].1
            } else {
                r matches Err(LookupError::MissingExplicit { path }) && path@ == c[k].0
            }
        }),
{
    let ghost c = cands_view(cands@);
    let n = cands.len();
    let mut i: usize = 0;
    while i < n
        invariant
            i <= n == cands@.len() == exists@.len(),
            c == cands_view(cands@),
            first_stop(c, exists@, 0) == first_stop(c, exists@, i as int),
        decreases n - i,
    {
        if exists[i] || cands[i].explicit {
            let found = exists[i];
            assert(c[i as int] == cand(cands@[i as int].path@, cands@[i as int].kind, cands@[i as int].explicit));
            let path = cands[i].path.clone();
            if found {
                return Ok(Uv { path, kind: cands[i].kind });
            } else {
                return Err(LookupError::MissingExplicit { path });
            }
        }
        i += 1;
    }
    Err(LookupError::NotFound)
}

/// The first stop at or after `k` comes no later than a candidate `j` that
/// ends the search.
proof fn lemma_first_stop_at_most(c: Seq<(Seq<char>, UvKind, bool)>, exists: Seq<bool>, k: int, j: int)
    requires
        0 <= k <= j < c.len(),
        exists.len() == c.len(),
        exists[j] || c[j].2,
    ensures
        k <= first_stop(c, exists, k) <= j,
    decreases j - k,
{
    if !(exists[k] || c[k].2) {
        lemma_first_stop_at_most(c, exists, k + 1, j);
    }
}

/// Each candidate of a `PATH` search has the kind of its file name, and none
/// is explicit.
proof fn lemma_path_candidates_kind(
    entries: Seq<Seq<char>>,
    name: Seq<char>,
    kind: UvKind,
    windows: bool,
)
    ensures
        forall|i: int|
            0 <= i < path_candidates(entries, name, kind, windows).len() ==> (#[trigger] path_candidates(
                entries,
                name,
                kind,
                windows,
            )[i]).1 == kind && !path_candidates(entries, name, kind, windows)[i].2,
    decreases entries.len(),
{
    if entries.len() > 0 {
        lemma_path_candidates_kind(entries.drop_last(), name, kind, windows);
    }
}

/// `$UVXY_UV` decides alone: when it is given, the search holds that path and
/// nothing else, so the lookup gives it when it exists and an error that
/// names it when it does not, whatever `$UV` and `PATH` hold.
pub proof fn law_uvxy_uv_decides_alone(
    uvxy_uv: Option<Seq<char>>,
    uv: Option<Seq<char>>,
    entries: Seq<Seq<char>>,
    windows: bool,
    exists: Seq<bool>,
)
    requires
        given(uvxy_uv),
        exists.len() == 1,
    ensures
        candidates_spec(uvxy_uv, uv, entries, windows) == seq![cand(uvxy_uv->Some_0, UvKind::Uv, true)],
        first_stop(candidates_spec(uvxy_uv, uv, entries, windows), exists, 0) == 0,
{
}

/// A `uv` binary anywhere in the search wins over every `uvx` binary: the
/// lookup falls back to `uvx` only when no `uv` candidate exists.
pub proof fn law_uv_wins_over_uvx(
    uvxy_uv: Option<Seq<char>>,
    uv: Option<Seq<char>>,
    entries: Seq<Seq<char>>,
    windows: bool,
    exists: Seq<bool>,
)
    requires
        exists.len() == candidates_spec(uvxy_uv, uv, entries, windows).len(),
        exists|j: int|
            0 <= j < exists.len() && exists[j] && (#[trigger] candidates_spec(
                uvxy_uv,
                uv,
                entries,
                windows,
            )[j]).1 == UvKind::Uv,
    ensures
        ({
            let c = candidates_spec(uvxy_uv, uv, entries, windows);
            let k = first_stop(c, exists, 0);
            k < c.len() && c[k].1 == UvKind::Uv
        }),
{
    let c = candidates_spec(uvxy_uv, uv, entries, windows);
    let j = choose|j: int| 0 <= j < exists.len() && exists[j] && (#[trigger] c[j]).1 == UvKind::Uv;
    lemma_first_stop_at_most(c, exists, 0, j);
    let k = first_stop(c, exists, 0);
    if !given(uvxy_uv) {
        let pre = if given(uv) {
            seq![cand(uv->Some_0, UvKind::Uv, false)]
        } else {
            seq![]
        };
        let pu = path_candidates(entries, uv_name(windows), UvKind::Uv, windows);
        let px = path_candidates(entries, uvx_name(windows), UvKind::Uvx, windows);
        lemma_path_candidates_kind(entries, uv_name(windows), UvKind::Uv, windows);
        lemma_path_candidates_kind(entries, uvx_name(windows), UvKind::Uvx, windows);
        assert(c == pre + pu + px);
        let b = pre.len() + pu.len();
        if j >= b {
            assert(c[j] == px[j - b]);
        }
        if k < pre.len() {
            assert(c[k] == pre[k]);
        } else {
            assert(c[k] == pu[k - pre.len()]);
        }
    }
}

/// The candidates of a `PATH` search are the non-empty entries, in the
/// order of `PATH`, each joined with the file name.
pub proof fn lemma_path_candidates_order(
    entries: Seq<Seq<char>>,
    name: Seq<char>,
    kind: UvKind,
    windows: bool,
)
    ensures
        path_candidates(entries, name, kind, windows) == entries.filter(
            |e: Seq<char>| e.len() > 0,
        ).map_values(|e: Seq<char>| cand(join(e, name, windows), kind, false)),
    decreases entries.len(),
{
    let f = |e: Seq<char>| cand(join(e, name, windows), kind, false);
    let nonempty = |e: Seq<char>| e.len() > 0;
    reveal(Seq::filter);
    if entries.len() == 0 {
        assert(entries.filter(nonempty) =~= Seq::<Seq<char>>::empty());
        assert(entries.filter(nonempty).map_values(f) =~= Seq::<(Seq<char>, UvKind, bool)>::empty());
    } else {
        lemma_path_candidates_order(entries.drop_last(), name, kind, windows);
        let sub = entries.drop_last().filter(nonempty);
        if entries.last().len() > 0 {
            assert(entries.filter(nonempty) == sub.push(entries.last()));
            assert(sub.push(entries.last()).map_values(f) =~= sub.map_values(f).push(
                f(entries.last()),
            ));
        } else {
            assert(entries.filter(nonempty) == sub);
        }
    }
}

/// The first stop at or after `k` is the first candidate that exists, when
/// none is explicit.
proof fn lemma_first_stop_first_existing(
    c: Seq<(Seq<char>, UvKind, bool)>,
    exists: Seq<bool>,
    k: int,
)
    requires
        0 <= k <= c.len(),
        exists.len() == c.len(),
        forall|j: int| 0 <= j < c.len() ==> !(#[trigger] c[j]).2,
    ensures
        k <= first_stop(c, exists, k) <= c.len(),
        first_stop(c, exists, k) < c.len() ==> exists[first_stop(c, exists, k)],
        forall|j: int| k <= j < first_stop(c, exists, k) ==> !(#[trigger] exists[j]),
    decreases c.len() - k,
{
    if k < c.len() && !exists[k] {
        lemma_first_stop_first_existing(c, exists, k + 1);
    }
}

/// Without `$UVXY_UV`, the search tries `$UV` when it is given, then `uv`
/// in each non-empty `PATH` entry in order, then `uvx` in each, and takes
/// the first file that exists; with none, the lookup finds nothing.
pub proof fn law_search_order(
    uvxy_uv: Option<Seq<char>>,
    uv: Option<Seq<char>>,
    entries: Seq<Seq<char>>,
    windows: bool,
    exists: Seq<bool>,
)
    requires
        !given(uvxy_uv),
        exists.len() == candidates_spec(uvxy_uv, uv, entries, windows).len(),
    ensures
        ({
            let c = candidates_spec(uvxy_uv, uv, entries, windows);
            let k = first_stop(c, exists, 0);
            let nonempty = entries.filter(|e: Seq<char>| e.len() > 0);
            &&& c == (if given(uv) {
                seq![cand(uv->Some_0, UvKind::Uv, false)]
            } else {
                Seq::empty()
            }) + nonempty.map_values(
                |e: Seq<char>| cand(join(e, uv_name(windows), windows), UvKind::Uv, false),
            ) + nonempty.map_values(
                |e: Seq<char>| cand(join(e, uvx_name(windows), windows), UvKind::Uvx, false),
            )
            &&& k <= c.len()
            &&& k < c.len() ==> exists[k]
            &&& forall|j: int| 0 <= j < k ==> !(#[trigger] exists[j])
        }),
{
    let c = candidates_spec(uvxy_uv, uv, entries, windows);
    lemma_path_candidates_order(entries, uv_name(windows), UvKind::Uv, windows);
    lemma_path_candidates_order(entries, uvx_name(windows), UvKind::Uvx, windows);
    lemma_path_candidates_kind(entries, uv_name(windows), UvKind::Uv, windows);
    lemma_path_candidates_kind(entries, uvx_name(windows), UvKind::Uvx, windows);
    let pre = if given(uv) {
        seq![cand(uv->Some_0, UvKind::Uv, false)]
    } else {
        Seq::empty()
    };
    let pu = path_candidates(entries, uv_name(windows), UvKind::Uv, windows);
    let px = path_candidates(entries, uvx_name(windows), UvKind::Uvx, windows);
    assert(c == pre + pu + px);
    assert forall|j: int| 0 <= j < c.len() implies !(#[trigger] c[j]).2 by {
        if j < pre.len() {
            assert(c[j] == pre[j]);
        } else if j < pre.len() + pu.len() {
            assert(c[j] == pu[j - pre.len()]);
        } else {
            assert(c[j] == px[j - pre.len() - pu.len()]);
        }
    }
    lemma_first_stop_first_existing(c, exists, 0);
}

} // verus!
