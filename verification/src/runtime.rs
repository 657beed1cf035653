//! The user's Node/pnpm toolchain as the setup page reports it, and the
//! binding the launcher spawns with.

use crate::config::{opt_tool_view, opt_view, BindingView, BoundTool, Config, ToolView, ToolchainBinding};
use crate::paths::{join_path, path_join};
use crate::text::{chars_of, string_of, vec_eq, view_strings};
use crate::toolchain::{node_major, node_major_of, MIN_PNPM_MAJOR, PNPM_INSTALL_HINT};
use vstd::prelude::*;

verus! {

/// The Node major the launcher recommends: a warning threshold, never a
/// hard gate (DSH itself declares no engine requirement).
pub const RECOMMENDED_NODE_MAJOR: u64 = 20;

/// The cwd every version probe runs in: `--version` must not depend on the
/// app's own working directory (pnpm reads a `packageManager` field there).
pub const PROBE_CWD: &'static str = "/";

/// What a probe found of one tool.
#[derive(Clone, Debug)]
pub struct ToolStatus {
    pub installed: bool,
    pub version: Option<String>,
    pub path: Option<String>,
}

/// What the launcher needs from the user's toolchain, as the setup page
/// states it.
#[derive(Clone, Debug)]
pub struct ToolchainRequirements {
    pub min_pnpm_major: u32,
    pub recommended_node_major: u64,
    pub pnpm_install_command: String,
    /// The Node install command to suggest for this machine.
    pub node_install_command: String,
}

/// The setup page's view of the toolchain.
#[derive(Clone, Debug)]
pub struct RuntimeStatus {
    pub node: ToolStatus,
    pub pnpm: ToolStatus,
    /// Node version managers present (`nvm`, `fnm`, `brew`), most preferred
    /// first.
    pub managers: Vec<String>,
    /// Node is present but older than the recommended major.
    pub node_below_recommended: bool,
    pub requirements: ToolchainRequirements,
}

pub struct StatusView {
    pub installed: bool,
    pub version: Option<Seq<char>>,
    pub path: Option<Seq<char>>,
}

impl View for ToolStatus {
    type V = StatusView;

    open spec fn view(&self) -> StatusView {
        StatusView {
            installed: self.installed,
            version: opt_view(self.version),
            path: opt_view(self.path),
        }
    }
}

// ---------------------------------------------------------------------------
// Install suggestions
// ---------------------------------------------------------------------------

/// The Node install command for a machine with these managers: extend the
/// one the user already has (nvm, then fnm, then Homebrew); with none, install
/// nvm first and then Node.
pub open spec fn node_install_command_for(managers: Seq<Seq<char>>) -> Seq<char> {
    if managers.contains("nvm"@) {
        "nvm install --lts"@
    } else if managers.contains("fnm"@) {
        "fnm install --lts"@
    } else if managers.contains("brew"@) {
        "brew install node"@
    } else {
        "curl -o- https://raw.githubusercontent.com/nvm-sh/nvm/v0.40.1/install.sh | bash\nnvm install --lts"@
    }
}

fn has_manager(managers: &Vec<String>, m: &str) -> (r: bool)
    ensures
        r == view_strings(managers@).contains(m@),
{
    let mc = chars_of(m);
    let mut k: usize = 0;
    while k < managers.len()
        invariant
            k <= managers.len(),
            mc@ == m@,
            forall|i: int| 0 <= i < k ==> view_strings(managers@)[i] != m@,
        decreases managers.len() - k,
    {
        if vec_eq(&chars_of(managers[k].as_str()), &mc) {
            assert(view_strings(managers@)[k as int] == m@);
            return true;
        }
        k = k + 1;
    }
    false
}

/// The Node install command for a machine (see [`node_install_command_for`]).
pub fn node_install_command(managers: &Vec<String>) -> (r: String)
    ensures
        r@ == node_install_command_for(view_strings(managers@)),
{
    if has_manager(managers, "nvm") {
        return String::from_str("nvm install --lts");
    }
    if has_manager(managers, "fnm") {
        return String::from_str("fnm install --lts");
    }
    if has_manager(managers, "brew") {
        return String::from_str("brew install node");
    }
    String::from_str(
        "curl -o- https://raw.githubusercontent.com/nvm-sh/nvm/v0.40.1/install.sh | bash\nnvm install --lts",
    )
}

impl ToolchainRequirements {
    /// The requirements as the setup page states them for a machine with
    /// these managers.
    pub fn current(managers: &Vec<String>) -> (r: ToolchainRequirements)
        ensures
            r.min_pnpm_major == MIN_PNPM_MAJOR,
            r.recommended_node_major == RECOMMENDED_NODE_MAJOR,
            r.pnpm_install_command@ == PNPM_INSTALL_HINT@,
            r.node_install_command@ == node_install_command_for(view_strings(managers@)),
    {
        ToolchainRequirements {
            min_pnpm_major: MIN_PNPM_MAJOR,
            recommended_node_major: RECOMMENDED_NODE_MAJOR,
            pnpm_install_command: String::from_str(PNPM_INSTALL_HINT),
            node_install_command: node_install_command(managers),
        }
    }
}

/// The Node version managers found on this machine, most preferred first,
/// from what the filesystem shows (`~/.nvm`, an fnm layout, a Homebrew
/// `brew` binary).
pub fn detected_managers(nvm: bool, fnm: bool, brew: bool) -> (r: Vec<String>)
    ensures
        view_strings(r@) == (if nvm { seq!["nvm"@] } else { seq![] }) + (if fnm {
            seq!["fnm"@]
        } else {
            seq![]
        }) + (if brew {
            seq!["brew"@]
        } else {
            seq![]
        }),
{
    let mut found: Vec<String> = Vec::new();
    if nvm {
        found.push(String::from_str("nvm"));
    }
    if fnm {
        found.push(String::from_str("fnm"));
    }
    if brew {
        found.push(String::from_str("brew"));
    }
    proof {
        assert(view_strings(found@) =~= (if nvm { seq!["nvm"@] } else { seq![] }) + (if fnm {
            seq!["fnm"@]
        } else {
            seq![]
        }) + (if brew {
            seq!["brew"@]
        } else {
            seq![]
        }));
    }
    found
}

// ---------------------------------------------------------------------------
// Probing and the binding
// ---------------------------------------------------------------------------

/// The directories searched for a program, in order: the inherited PATH,
/// then the known tool directories not already on it.
pub open spec fn search_dirs(path_dirs: Seq<Seq<char>>, fallback: Seq<Seq<char>>) -> Seq<Seq<char>>
    decreases fallback.len(),
{
    if fallback.len() == 0 {
        path_dirs
    } else {
        let d = search_dirs(path_dirs, fallback.drop_last());
        if d.contains(fallback.last()) {
            d
        } else {
            d.push(fallback.last())
        }
    }
}

/// The executable path a directory gives: the bare program name for an
/// empty entry, `<dir>/<program>` otherwise.
pub open spec fn exe_in(dir: Seq<char>, program: Seq<char>) -> Seq<char> {
    if dir.len() == 0 {
        program
    } else {
        path_join(dir, program)
    }
}

/// `ls` with each item kept only at its first occurrence.
pub open spec fn first_occurrences(ls: Seq<Seq<char>>) -> Seq<Seq<char>>
    decreases ls.len(),
{
    if ls.len() == 0 {
        seq![]
    } else {
        let d = first_occurrences(ls.drop_last());
        if d.contains(ls.last()) {
            d
        } else {
            d.push(ls.last())
        }
    }
}

/// Every path a program of this name may live at, in resolution order:
/// each search directory (PATH first, then the known tool directories) with
/// the program joined on, each path once.
pub open spec fn candidates(
    program: Seq<char>,
    path_dirs: Seq<Seq<char>>,
    fallback: Seq<Seq<char>>,
) -> Seq<Seq<char>> {
    first_occurrences(
        search_dirs(path_dirs, fallback).map_values(|d: Seq<char>| exe_in(d, program)),
    )
}

fn contains_str(v: &Vec<String>, x: &String) -> (r: bool)
    ensures
        r == view_strings(v@).contains(x@),
{
    let mut k: usize = 0;
    while k < v.len()
        invariant
            k <= v.len(),
            forall|i: int| 0 <= i < k ==> view_strings(v@)[i] != x@,
        decreases v.len() - k,
    {
        if v[k] == *x {
            assert(view_strings(v@)[k as int] == x@);
            return true;
        }
        k = k + 1;
    }
    false
}

proof fn lemma_first_occurrences_distinct(ls: Seq<Seq<char>>)
    ensures
        first_occurrences(ls).no_duplicates(),
    decreases ls.len(),
{
    if ls.len() > 0 {
        lemma_first_occurrences_distinct(ls.drop_last());
        let d = first_occurrences(ls.drop_last());
        if !d.contains(ls.last()) {
            assert forall|i: int, j: int|
                0 <= i < j < d.push(ls.last()).len() implies d.push(ls.last())[i] != d.push(
                ls.last(),
            )[j] by {
                if j == d.len() {
                    assert(d.push(ls.last())[i] == d[i]);
                } else {
                    assert(d.push(ls.last())[i] == d[i]);
                    assert(d.push(ls.last())[j] == d[j]);
                }
            }
        }
    }
}

proof fn lemma_first_occurrences_same_items(ls: Seq<Seq<char>>)
    ensures
        forall|x: Seq<char>| #[trigger] first_occurrences(ls).contains(x) <==> ls.contains(x),
    decreases ls.len(),
{
    if ls.len() > 0 {
        lemma_first_occurrences_same_items(ls.drop_last());
        let d = first_occurrences(ls.drop_last());
        assert forall|x: Seq<char>| #[trigger] first_occurrences(ls).contains(x) <==> ls.contains(
            x,
        ) by {
            if ls.contains(x) {
                let i = choose|i: int| 0 <= i < ls.len() && ls[i] == x;
                if i < ls.len() - 1 {
                    assert(ls.drop_last()[i] == x);
                    assert(ls.drop_last().contains(x));
                    assert(d.contains(x));
                    if !d.contains(ls.last()) {
                        let j = choose|j: int| 0 <= j < d.len() && d[j] == x;
                        assert(d.push(ls.last())[j] == x);
                    }
                } else {
                    if !d.contains(ls.last()) {
                        assert(d.push(ls.last())[d.len() as int] == x);
                    }
                }
            }
            if first_occurrences(ls).contains(x) {
                if d.contains(x) {
                    let i = choose|i: int| 0 <= i < ls.drop_last().len() && ls.drop_last()[i] == x;
                    assert(ls[i] == x);
                } else {
                    let j = choose|j: int|
                        0 <= j < first_occurrences(ls).len() && first_occurrences(ls)[j] == x;
                    assert(x == ls.last());
                    assert(ls[ls.len() - 1] == x);
                }
            }
        }
    }
}

/// What the setup page probes and what spawned children resolve never
/// disagree: for the same inherited PATH and known tool directories, the
/// probe's candidates are exactly the program joined onto the directories
/// the spawn PATH lists (see [`candidate_paths`] and [`merge_path_dirs`]).
pub proof fn lemma_probe_matches_spawn_path(
    program: Seq<char>,
    path_dirs: Seq<Seq<char>>,
    fallback: Seq<Seq<char>>,
)
    ensures
        forall|x: Seq<char>|
            #[trigger] candidates(program, path_dirs, fallback).contains(x) <==> exists|j: int|
                0 <= j < search_dirs(path_dirs, fallback).len() && x == exe_in(
                    #[trigger] search_dirs(path_dirs, fallback)[j],
                    program,
                ),
{
    let dirs = search_dirs(path_dirs, fallback);
    let exes = dirs.map_values(|d: Seq<char>| exe_in(d, program));
    lemma_first_occurrences_same_items(exes);
    assert forall|x: Seq<char>| #[trigger] candidates(program, path_dirs, fallback).contains(x)
        <==> exists|j: int| 0 <= j < dirs.len() && x == exe_in(#[trigger] dirs[j], program) by {
        if exes.contains(x) {
            let j = choose|j: int| 0 <= j < exes.len() && exes[j] == x;
            assert(x == exe_in(dirs[j], program));
        }
        if exists|j: int| 0 <= j < dirs.len() && x == exe_in(#[trigger] dirs[j], program) {
            let j = choose|j: int| 0 <= j < dirs.len() && x == exe_in(#[trigger] dirs[j], program);
            assert(exes[j] == x);
        }
    }
}

/// Every candidate path for `program`, in resolution order (see
/// [`candidates`]); `path_dirs` is the inherited PATH split at `:` and
/// `fallback` the known tool directories that exist. No path appears twice.
pub fn candidate_paths(program: &str, path_dirs: &Vec<String>, fallback: &Vec<String>) -> (r: Vec<
    String,
>)
    ensures
        view_strings(r@) == candidates(program@, view_strings(path_dirs@), view_strings(fallback@)),
        view_strings(r@).no_duplicates(),
{
    let ghost pd = view_strings(path_dirs@);
    let ghost fb = view_strings(fallback@);
    let mut dirs: Vec<String> = crate::text::copy_strings(path_dirs);
    let mut k: usize = 0;
    assert(fb.take(0) =~= Seq::<Seq<char>>::empty());
    while k < fallback.len()
        invariant
            k <= fallback.len(),
            fb == view_strings(fallback@),
            view_strings(dirs@) == search_dirs(pd, fb.take(k as int)),
        decreases fallback.len() - k,
    {
        assert(fb.take(k + 1).drop_last() =~= fb.take(k as int));
        assert(fb.take(k + 1).last() == fallback@[k as int]@);
        if !contains_str(&dirs, &fallback[k]) {
            let x = fallback[k].clone();
            let ghost before = view_strings(dirs@);
            dirs.push(x);
            assert(view_strings(dirs@) =~= before.push(fallback@[k as int]@));
        }
        k = k + 1;
    }
    assert(fb.take(fallback.len() as int) =~= fb);
    let ghost sd = view_strings(dirs@);
    let ghost exes = sd.map_values(|d: Seq<char>| exe_in(d, program@));
    let mut out: Vec<String> = Vec::new();
    let mut j: usize = 0;
    assert(exes.take(0) =~= Seq::<Seq<char>>::empty());
    while j < dirs.len()
        invariant
            j <= dirs.len(),
            sd == view_strings(dirs@),
            exes == sd.map_values(|d: Seq<char>| exe_in(d, program@)),
            view_strings(out@) == first_occurrences(exes.take(j as int)),
        decreases dirs.len() - j,
    {
        assert(exes.take(j + 1).drop_last() =~= exes.take(j as int));
        assert(exes.take(j + 1).last() == exe_in(sd[j as int], program@));
        let exe = if chars_of(dirs[j].as_str()).len() == 0 {
            String::from_str(program)
        } else {
            join_path(dirs[j].as_str(), program)
        };
        if !contains_str(&out, &exe) {
            let ghost before = view_strings(out@);
            out.push(exe);
            assert(view_strings(out@) =~= before.push(exe@));
        }
        j = j + 1;
    }
    assert(exes.take(dirs.len() as int) =~= exes);
    proof {
        lemma_first_occurrences_distinct(exes);
    }
    out
}

/// The binding a probe yields: a tool with both a path and a version.
pub fn bound_from(status: ToolStatus) -> (r: Option<BoundTool>)
    ensures
        match (status.path, status.version) {
            (Some(p), Some(v)) => r matches Some(b) && b.path@ == p@ && b.version@ == v@,
            _ => r is None,
        },
{
    match (status.path, status.version) {
        (Some(path), Some(version)) => Some(BoundTool { path, version }),
        _ => None,
    }
}

/// Whether two bindings describe the same tools (same paths and versions),
/// so an unchanged probe does not rewrite the config file.
pub fn binding_matches(a: &ToolchainBinding, b: &ToolchainBinding) -> (r: bool)
    ensures
        r == (a@ == b@),
{
    same_tool(&a.node, &b.node) && same_tool(&a.pnpm, &b.pnpm)
}

fn same_tool(x: &Option<BoundTool>, y: &Option<BoundTool>) -> (r: bool)
    ensures
        r == (opt_tool_view(*x) == opt_tool_view(*y)),
{
    match (x, y) {
        (Some(x), Some(y)) => {
            let r = x.path == y.path && x.version == y.version;
            assert(r == (x@ == y@));
            r
        },
        (None, None) => true,
        _ => false,
    }
}

/// What the setup page shows of a bound tool.
pub fn status_from(tool: &Option<BoundTool>) -> (r: ToolStatus)
    ensures
        match tool {
            Some(b) => r@ == (StatusView {
                installed: true,
                version: Some(b.version@),
                path: Some(b.path@),
            }),
            None => r@ == (StatusView { installed: false, version: None, path: None }),
        },
{
    match tool {
        Some(bound) => ToolStatus {
            installed: true,
            version: Some(bound.version.clone()),
            path: Some(bound.path.clone()),
        },
        None => ToolStatus { installed: false, version: None, path: None },
    }
}

/// The binding after a refresh: each tool keeps its recorded entry while
/// that is still usable (`None` probe), and otherwise takes what the probe
/// found (`node_probe` is a probe status, `pnpm_probe` the resolver's pick).
pub fn refreshed_binding(
    current: &ToolchainBinding,
    node_probe: Option<ToolStatus>,
    pnpm_probe: Option<Option<BoundTool>>,
) -> (r: ToolchainBinding)
    ensures
        r@.node == match node_probe {
            None => current@.node,
            Some(s) => match (s.path, s.version) {
                (Some(p), Some(v)) => Some(ToolView { path: p@, version: v@ }),
                _ => None,
            },
        },
        r@.pnpm == match pnpm_probe {
            None => current@.pnpm,
            Some(t) => opt_tool_view(t),
        },
{
    let node = match node_probe {
        None => copy_tool(&current.node),
        Some(s) => bound_from(s),
    };
    let pnpm = match pnpm_probe {
        None => copy_tool(&current.pnpm),
        Some(t) => t,
    };
    ToolchainBinding { node, pnpm }
}

fn copy_tool(t: &Option<BoundTool>) -> (r: Option<BoundTool>)
    ensures
        opt_tool_view(r) == opt_tool_view(*t),
{
    match t {
        Some(b) => Some(BoundTool { path: b.path.clone(), version: b.version.clone() }),
        None => None,
    }
}

/// The node executable a spawn uses for a config snapshot: the bound path
/// while it is still a file (`bound_is_file`), the bare name `node`
/// otherwise.
pub fn node_for_spawn(cfg: &Config, bound_is_file: bool) -> (r: String)
    ensures
        r@ == match cfg@.settings.toolchain.node {
            Some(b) => if bound_is_file {
                b.path
            } else {
                "node"@
            },
            None => "node"@,
        },
{
    match &cfg.settings.toolchain.node {
        Some(bound) => {
            if bound_is_file {
                bound.path.clone()
            } else {
                String::from_str(crate::process::node())
            }
        },
        None => String::from_str(crate::process::node()),
    }
}

/// The error when no usable Node.js was found.
pub fn node_missing_error() -> (r: String)
    ensures
        r@ == "未找到可用的 Node.js（需要 20 或更高版本）。\n请在终端安装（如 nvm install --lts）后，回到「设置 → 环境」点重新检测。"@,
{
    String::from_str(
        "未找到可用的 Node.js（需要 20 或更高版本）。\n请在终端安装（如 nvm install --lts）后，回到「设置 → 环境」点重新检测。",
    )
}

/// Whether the probed node reports a major older than the recommended one;
/// a missing or unparsable version is not flagged.
pub open spec fn below_recommended(version: Option<Seq<char>>) -> bool {
    match version {
        Some(v) => match node_major_of(v) {
            Some(m) => m < RECOMMENDED_NODE_MAJOR,
            None => false,
        },
        None => false,
    }
}

/// Whether the probed node is older than the recommended major.
pub fn node_is_below_recommended(node: &ToolStatus) -> (r: bool)
    ensures
        r == below_recommended(node@.version),
{
    match &node.version {
        Some(v) => match node_major(v.as_str()) {
            Some(m) => m < RECOMMENDED_NODE_MAJOR,
            None => false,
        },
        None => false,
    }
}

/// The setup page's view of a binding on a machine with these managers.
pub fn runtime_status(binding: &ToolchainBinding, managers: Vec<String>) -> (r: RuntimeStatus)
    ensures
        r.node@ == status_from_spec(binding@.node),
        r.pnpm@ == status_from_spec(binding@.pnpm),
        r.node_below_recommended == below_recommended(status_from_spec(binding@.node).version),
        view_strings(r.managers@) == view_strings(managers@),
        r.requirements.node_install_command@ == node_install_command_for(view_strings(managers@)),
        r.requirements.min_pnpm_major == MIN_PNPM_MAJOR,
        r.requirements.recommended_node_major == RECOMMENDED_NODE_MAJOR,
{
    let node = status_from(&binding.node);
    let requirements = ToolchainRequirements::current(&managers);
    RuntimeStatus {
        node_below_recommended: node_is_below_recommended(&node),
        node,
        pnpm: status_from(&binding.pnpm),
        requirements,
        managers,
    }
}

/// What [`status_from`] shows of a bound tool.
pub open spec fn status_from_spec(t: Option<ToolView>) -> StatusView {
    match t {
        Some(b) => StatusView { installed: true, version: Some(b.version), path: Some(b.path) },
        None => StatusView { installed: false, version: None, path: None },
    }
}

/// The PATH entries after adding the known tool directories that exist and
/// are not on it yet, in order.
pub fn merge_path_dirs(parts: &Vec<String>, extra: &Vec<String>) -> (r: Vec<String>)
    ensures
        view_strings(r@) == search_dirs(view_strings(parts@), view_strings(extra@)),
{
    let ghost pd = view_strings(parts@);
    let ghost fb = view_strings(extra@);
    let mut dirs: Vec<String> = crate::text::copy_strings(parts);
    let mut k: usize = 0;
    assert(fb.take(0) =~= Seq::<Seq<char>>::empty());
    while k < extra.len()
        invariant
            k <= extra.len(),
            fb == view_strings(extra@),
            view_strings(dirs@) == search_dirs(pd, fb.take(k as int)),
        decreases extra.len() - k,
    {
        assert(fb.take(k + 1).drop_last() =~= fb.take(k as int));
        assert(fb.take(k + 1).last() == extra@[k as int]@);
        if !contains_str(&dirs, &extra[k]) {
            let x = extra[k].clone();
            let ghost before = view_strings(dirs@);
            dirs.push(x);
            assert(view_strings(dirs@) =~= before.push(extra@[k as int]@));
        }
        k = k + 1;
    }
    assert(fb.take(extra.len() as int) =~= fb);
    dirs
}

} // verus!
