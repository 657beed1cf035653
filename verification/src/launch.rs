//! How the launcher invokes DSH: the one owner of every argv and
//! environment a DSH-related process gets.
//!
//! Four call shapes drive a DSH CLI:
//!
//! * an instance run ([`instance_command`]): `node [flags] bin --profile P
//!   [--port N] [--no-open]`; `--host` is never passed, the profile layer
//!   owns the bind host;
//! * the template boot ([`template_boot_command`]): the one invocation that
//!   passes `--host 127.0.0.1`;
//! * plugin management ([`plugin_command`]): `dsh plugin --profile P <pnpm
//!   args>` with `CI=true` and the resolved pnpm first on PATH;
//! * the terminal ([`wrapper_script`] + [`terminal_env_pairs`]).
//!
//! Node's runtime flags always come before the CLI script.

use crate::config::{
    homes_view, instances_view, opt_view, pairs_view, Config, ConfigView, DshHome, DshInstance,
    HomeView, InstanceView,
};
use crate::paths::{join_path, path_join};
use crate::plugins::{find_home, home_index};
use crate::text::{
    append_vec, cat, chars_of, contains, dec, dec_vec, join, join_strings, starts_with,
    str_contains, str_starts_with, string_of, vec_eq, view_strings,
};
use vstd::prelude::*;

verus! {

/// A process to spawn: program, argv (without the program), environment
/// additions, and whether stdout/stderr are piped back.
#[derive(Clone, Debug)]
pub struct LaunchSpec {
    pub program: String,
    pub args: Vec<String>,
    pub env: Vec<(String, String)>,
    pub piped: bool,
}

pub struct LaunchView {
    pub program: Seq<char>,
    pub args: Seq<Seq<char>>,
    pub env: Seq<(Seq<char>, Seq<char>)>,
    pub piped: bool,
}

impl View for LaunchSpec {
    type V = LaunchView;

    open spec fn view(&self) -> LaunchView {
        LaunchView {
            program: self.program@,
            args: view_strings(self.args@),
            env: pairs_view(self.env@),
            piped: self.piped,
        }
    }
}

// ---------------------------------------------------------------------------
// Version layout (npm tree vs source checkout)
// ---------------------------------------------------------------------------

/// The file whose presence marks a version directory as a source checkout
/// (the upstream monorepo's CLI package manifest).
pub open spec fn checkout_marker_of(version_dir: Seq<char>) -> Seq<char> {
    path_join(path_join(path_join(version_dir, "apps"@), "cli"@), "package.json"@)
}

/// The path whose existence makes a version directory a source checkout.
pub fn checkout_marker(version_dir: &str) -> (r: String)
    ensures
        r@ == checkout_marker_of(version_dir@),
{
    let a = join_path(version_dir, "apps");
    let b = join_path(a.as_str(), "cli");
    join_path(b.as_str(), "package.json")
}

/// The DSH CLI entry script of a version: `apps/cli/lib/bin.js` in a source
/// checkout, `node_modules/@deepseek-ai/dsh/lib/bin.js` in an npm tree.
pub open spec fn version_bin_of(version_dir: Seq<char>, checkout: bool) -> Seq<char> {
    if checkout {
        path_join(
            path_join(path_join(path_join(version_dir, "apps"@), "cli"@), "lib"@),
            "bin.js"@,
        )
    } else {
        path_join(
            path_join(
                path_join(path_join(path_join(version_dir, "node_modules"@), "@deepseek-ai"@), "dsh"@),
                "lib"@,
            ),
            "bin.js"@,
        )
    }
}

/// The DSH CLI entry script inside an installed version tree (`checkout`
/// tells whether the tree is a source checkout).
pub fn version_bin(version_dir: &str, checkout: bool) -> (r: String)
    ensures
        r@ == version_bin_of(version_dir@, checkout),
{
    if checkout {
        let a = join_path(version_dir, "apps");
        let b = join_path(a.as_str(), "cli");
        let c = join_path(b.as_str(), "lib");
        join_path(c.as_str(), "bin.js")
    } else {
        let a = join_path(version_dir, "node_modules");
        let b = join_path(a.as_str(), "@deepseek-ai");
        let c = join_path(b.as_str(), "dsh");
        let d = join_path(c.as_str(), "lib");
        join_path(d.as_str(), "bin.js")
    }
}

/// Where the `dsh-web-app` bundle's startup script lives: at its workspace
/// path in a source checkout, in pnpm's hoisted public store otherwise.
pub open spec fn web_app_startup_of(version_dir: Seq<char>, checkout: bool) -> Seq<char> {
    if checkout {
        path_join(
            path_join(
                path_join(path_join(path_join(version_dir, "packages"@), "bundle"@), "web-app"@),
                "lib"@,
            ),
            "startup.js"@,
        )
    } else {
        path_join(
            path_join(
                path_join(
                    path_join(
                        path_join(path_join(version_dir, "node_modules"@), ".pnpm"@),
                        "node_modules"@,
                    ),
                    "@deepseek-ai"@,
                ),
                "dsh-web-app"@,
            ),
            path_join("lib"@, "startup.js"@),
        )
    }
}

/// The startup script of the installed `dsh-web-app` bundle.
pub fn web_app_startup_path(version_dir: &str, checkout: bool) -> (r: String)
    ensures
        r@ == web_app_startup_of(version_dir@, checkout),
{
    if checkout {
        let a = join_path(version_dir, "packages");
        let b = join_path(a.as_str(), "bundle");
        let c = join_path(b.as_str(), "web-app");
        let d = join_path(c.as_str(), "lib");
        join_path(d.as_str(), "startup.js")
    } else {
        let a = join_path(version_dir, "node_modules");
        let b = join_path(a.as_str(), ".pnpm");
        let c = join_path(b.as_str(), "node_modules");
        let d = join_path(c.as_str(), "@deepseek-ai");
        let e = join_path(d.as_str(), "dsh-web-app");
        let f = join_path("lib", "startup.js");
        join_path(e.as_str(), f.as_str())
    }
}

/// Whether the bundle's startup script (its text) accepts `--no-open`: the
/// flag is a string literal in the script, so its presence is an exact
/// signal.
pub fn web_app_supports_no_open(startup_js: &str) -> (r: bool)
    ensures
        r == (contains(startup_js@, "--no-open"@) || contains(startup_js@, "no-open"@)),
{
    str_contains(startup_js, "--no-open") || str_contains(startup_js, "no-open")
}

// ---------------------------------------------------------------------------
// Node runtime flags and the base invocation
// ---------------------------------------------------------------------------

/// Node's own flags for a spawned DSH process: `--preserve-symlinks` when
/// the setting is on, nothing otherwise.
pub open spec fn runtime_flags(preserve_symlinks: bool) -> Seq<Seq<char>> {
    if preserve_symlinks {
        seq!["--preserve-symlinks"@]
    } else {
        seq![]
    }
}

/// Node's own flags for a spawned DSH process (see [`runtime_flags`]).
pub fn node_runtime_flags(preserve_symlinks: bool) -> (r: Vec<String>)
    ensures
        view_strings(r@) == runtime_flags(preserve_symlinks),
{
    let mut v: Vec<String> = Vec::new();
    if preserve_symlinks {
        v.push(String::from_str("--preserve-symlinks"));
    }
    proof {
        assert(view_strings(v@) =~= runtime_flags(preserve_symlinks));
    }
    v
}

/// The error when a version's CLI entry script is missing or empty.
pub open spec fn incomplete_install_error(bin: Seq<char>) -> Seq<char> {
    "版本安装不完整（缺少 "@ + bin + "），请重新安装该 DSH 版本"@
}

fn incomplete_install(bin: &str) -> (r: String)
    ensures
        r@ == incomplete_install_error(bin@),
{
    let mut m = chars_of("版本安装不完整（缺少 ");
    append_vec(&mut m, &chars_of(bin));
    append_vec(&mut m, &chars_of("），请重新安装该 DSH 版本"));
    string_of(&m)
}

/// Appends `x` to an argument list.
fn push_arg(v: &mut Vec<String>, x: &str)
    ensures
        view_strings(final(v)@) == view_strings(old(v)@).push(x@),
{
    let ghost before = v@;
    v.push(String::from_str(x));
    assert(view_strings(v@) =~= view_strings(before).push(x@));
}

/// The base argv of every DSH spawn: Node's runtime flags, then the CLI
/// entry script.
fn base_args(bin: &str, preserve_symlinks: bool) -> (r: Vec<String>)
    ensures
        view_strings(r@) == runtime_flags(preserve_symlinks) + seq![bin@],
{
    let mut v = node_runtime_flags(preserve_symlinks);
    push_arg(&mut v, bin);
    v
}

// ---------------------------------------------------------------------------
// Instance run
// ---------------------------------------------------------------------------

/// The argv of an instance run: runtime flags, the entry script,
/// `--profile P`, and for a web profile `--port N` plus `--no-open` when the
/// bundle accepts it.
pub open spec fn instance_args(
    bin: Seq<char>,
    profile: Seq<char>,
    web_port: Option<u16>,
    no_open: bool,
    preserve_symlinks: bool,
) -> Seq<Seq<char>> {
    runtime_flags(preserve_symlinks) + seq![bin, "--profile"@, profile] + match web_port {
        Some(p) => seq!["--port"@, dec(p as nat)] + (if no_open {
            seq!["--no-open"@]
        } else {
            seq![]
        }),
        None => seq![],
    }
}

/// An instance's DSH process: `node FLAGS bin --profile P [--port N]
/// [--no-open]` (`web_port` is given for web profiles only; 0 asks for a
/// random free port). Refused when the version's entry script is not ready.
/// No environment is attached here; see [`instance_env`].
pub fn instance_command(
    node: &str,
    bin: &str,
    bin_ready: bool,
    profile: &str,
    web_port: Option<u16>,
    no_open: bool,
    preserve_symlinks: bool,
) -> (r: Result<LaunchSpec, String>)
    ensures
        !bin_ready ==> (r matches Err(e) && e@ == incomplete_install_error(bin@)),
        bin_ready ==> (r matches Ok(c) && c@ == (LaunchView {
            program: node@,
            args: instance_args(bin@, profile@, web_port, no_open, preserve_symlinks),
            env: seq![],
            piped: false,
        })),
{
    if !bin_ready {
        return Err(incomplete_install(bin));
    }
    let mut args = base_args(bin, preserve_symlinks);
    push_arg(&mut args, "--profile");
    push_arg(&mut args, profile);
    match web_port {
        Some(p) => {
            push_arg(&mut args, "--port");
            let port = string_of(&dec_vec(p as u64));
            push_arg(&mut args, port.as_str());
            if no_open {
                push_arg(&mut args, "--no-open");
            }
        },
        None => {},
    }
    proof {
        let expected = instance_args(bin@, profile@, web_port, no_open, preserve_symlinks);
        assert(view_strings(args@) =~= expected);
    }
    let env: Vec<(String, String)> = Vec::new();
    assert(pairs_view(env@) =~= Seq::<(Seq<char>, Seq<char>)>::empty());
    Ok(LaunchSpec { program: String::from_str(node), args, env, piped: false })
}

/// Node's runtime flags come first, then the entry script, in every
/// instance run.
pub proof fn lemma_instance_flags_first(
    bin: Seq<char>,
    profile: Seq<char>,
    web_port: Option<u16>,
    no_open: bool,
    preserve_symlinks: bool,
)
    ensures
        ({
            let a = instance_args(bin, profile, web_port, no_open, preserve_symlinks);
            let n = runtime_flags(preserve_symlinks).len() as int;
            &&& a.take(n) == runtime_flags(preserve_symlinks)
            &&& a[n] == bin
            &&& a[n + 1] == "--profile"@
            &&& a[n + 2] == profile
        }),
{
    let a = instance_args(bin, profile, web_port, no_open, preserve_symlinks);
    let n = runtime_flags(preserve_symlinks).len();
    assert(a.take(n as int) =~= runtime_flags(preserve_symlinks));
}

/// Web flags go to web profiles only. Without a web port the run is exactly
/// Node's runtime flags, the entry script and `--profile P`, whatever
/// `no_open` says; with a port `p` those are followed by `--port p` and,
/// exactly when the bundle accepts it, by a final `--no-open`.
pub proof fn lemma_instance_web_flags_only_for_web(
    bin: Seq<char>,
    profile: Seq<char>,
    web_port: Option<u16>,
    no_open: bool,
    preserve_symlinks: bool,
)
    ensures
        ({
            let a = instance_args(bin, profile, web_port, no_open, preserve_symlinks);
            let head = runtime_flags(preserve_symlinks) + seq![bin, "--profile"@, profile];
            &&& web_port is None ==> a == head
            &&& web_port matches Some(p) ==> {
                &&& a.len() == head.len() + 2 + (if no_open { 1int } else { 0int })
                &&& a.take(head.len() as int) == head
                &&& a[head.len() as int] == "--port"@
                &&& a[head.len() as int + 1] == dec(p as nat)
                &&& no_open ==> a.last() == "--no-open"@
            }
        }),
{
    let a = instance_args(bin, profile, web_port, no_open, preserve_symlinks);
    let head = runtime_flags(preserve_symlinks) + seq![bin, "--profile"@, profile];
    match web_port {
        Some(p) => {
            assert(a.take(head.len() as int) =~= head);
        },
        None => {
            assert(a =~= head);
        },
    }
}

/// An instance run never passes `--host`: the profile layer owns the bind
/// host (unless the entry script or the profile name itself is spelled
/// `--host`).
pub proof fn lemma_instance_never_passes_host(
    bin: Seq<char>,
    profile: Seq<char>,
    web_port: Option<u16>,
    no_open: bool,
    preserve_symlinks: bool,
)
    requires
        bin != "--host"@,
        profile != "--host"@,
    ensures
        !instance_args(bin, profile, web_port, no_open, preserve_symlinks).contains("--host"@),
{
    reveal_strlit("--host");
    reveal_strlit("--profile");
    reveal_strlit("--port");
    reveal_strlit("--no-open");
    reveal_strlit("--preserve-symlinks");
    let a = instance_args(bin, profile, web_port, no_open, preserve_symlinks);
    let h: Seq<char> = "--host"@;
    let f = runtime_flags(preserve_symlinks);
    let n = f.len() as int;
    assert(h.len() == 6 && h[0] == '-' && h[2] == 'h');
    assert forall|i: int| 0 <= i < a.len() implies a[i] != h by {
        if i < n {
            assert(a[i] == f[i]);
            assert(f[i] == "--preserve-symlinks"@);
            assert(f[i].len() == 19);
        } else if i == n {
            assert(a[i] == bin);
        } else if i == n + 1 {
            assert(a[i] == "--profile"@);
            assert(a[i].len() == 9);
        } else if i == n + 2 {
            assert(a[i] == profile);
        } else {
            let p = web_port->0;
            assert(web_port is Some);
            if i == n + 3 {
                assert(a[i] == "--port"@);
                assert(a[i][2] == 'p');
            } else if i == n + 4 {
                assert(a[i] == dec(p as nat));
                crate::text::lemma_dec_digits(p as nat);
                assert(crate::text::is_digit(a[i][0]));
            } else {
                assert(a[i] == "--no-open"@);
                assert(a[i].len() == 9);
            }
        }
    }
}

// ---------------------------------------------------------------------------
// Template boot
// ---------------------------------------------------------------------------

/// The argv of the template boot: the only DSH invocation allowed to pass
/// `--host`.
pub open spec fn template_boot_args(bin: Seq<char>, port: u16, preserve_symlinks: bool) -> Seq<
    Seq<char>,
> {
    runtime_flags(preserve_symlinks) + seq![
        bin,
        "--profile"@,
        "web"@,
        "--host"@,
        "127.0.0.1"@,
        "--port"@,
        dec(port as nat),
    ]
}

/// The short-lived boot that materialises the `web` profile template:
/// `node FLAGS bin --profile web --host 127.0.0.1 --port N` with `DSH_HOME`
/// set and output piped.
pub fn template_boot_command(
    node: &str,
    bin: &str,
    bin_ready: bool,
    home_path: &str,
    port: u16,
    preserve_symlinks: bool,
) -> (r: Result<LaunchSpec, String>)
    ensures
        !bin_ready ==> (r matches Err(e) && e@ == incomplete_install_error(bin@)),
        bin_ready ==> (r matches Ok(c) && c@ == (LaunchView {
            program: node@,
            args: template_boot_args(bin@, port, preserve_symlinks),
            env: seq![("DSH_HOME"@, home_path@)],
            piped: true,
        })),
{
    if !bin_ready {
        return Err(incomplete_install(bin));
    }
    let mut args = base_args(bin, preserve_symlinks);
    push_arg(&mut args, "--profile");
    push_arg(&mut args, "web");
    push_arg(&mut args, "--host");
    push_arg(&mut args, "127.0.0.1");
    push_arg(&mut args, "--port");
    let p = string_of(&dec_vec(port as u64));
    push_arg(&mut args, p.as_str());
    assert(view_strings(args@) =~= template_boot_args(bin@, port, preserve_symlinks));
    let mut env: Vec<(String, String)> = Vec::new();
    env.push((String::from_str("DSH_HOME"), String::from_str(home_path)));
    assert(pairs_view(env@) =~= seq![("DSH_HOME"@, home_path@)]);
    Ok(LaunchSpec { program: String::from_str(node), args, env, piped: true })
}

// ---------------------------------------------------------------------------
// Plugin management
// ---------------------------------------------------------------------------

/// The directory part of a path (`Path::parent`, rendered as text); `None`
/// for a root or an empty path.
pub uninterp spec fn path_parent(p: Seq<char>) -> Option<Seq<char>>;

/// `Path::parent` of `p`: the path without its final component. The
/// result is a function of the text alone.
#[verifier::external_body]
pub(crate) fn parent_dir(p: &str) -> (r: Option<String>)
    ensures
        opt_view(r) == path_parent(p@),
{
    std::path::Path::new(p).parent().map(|d| d.to_string_lossy().to_string())
}

/// The PATH a `dsh plugin` process gets: the resolved pnpm's directory first,
/// then the inherited PATH; `None` (PATH left alone) when the directory is
/// empty or cannot be joined because it holds the `:` separator.
pub open spec fn plugin_path(pnpm_dir: Option<Seq<char>>, inherited: Seq<char>) -> Option<
    Seq<char>,
> {
    match pnpm_dir {
        Some(d) => if d.len() == 0 || d.contains(':') {
            None
        } else {
            Some(d + seq![':'] + inherited)
        },
        None => None,
    }
}

/// The argv of `dsh plugin`: runtime flags, the entry script, `plugin
/// --profile P`, then the pnpm arguments.
pub open spec fn plugin_args(
    bin: Seq<char>,
    profile: Seq<char>,
    pnpm_args: Seq<Seq<char>>,
    preserve_symlinks: bool,
) -> Seq<Seq<char>> {
    runtime_flags(preserve_symlinks) + seq![bin, "plugin"@, "--profile"@, profile] + pnpm_args
}

/// The environment of `dsh plugin`: `DSH_HOME`, `CI=true` (no TTY, so pnpm
/// must stay non-interactive), and the PATH with the resolved pnpm first.
pub open spec fn plugin_env(home_path: Seq<char>, path: Option<Seq<char>>) -> Seq<
    (Seq<char>, Seq<char>),
> {
    seq![("DSH_HOME"@, home_path), ("CI"@, "true"@)] + match path {
        Some(p) => seq![("PATH"@, p)],
        None => seq![],
    }
}

/// A `dsh plugin --profile <name> <pnpm args…>` invocation through an
/// instance's own CLI, with output piped. `pnpm_prog` is the resolved pnpm
/// whose directory goes first on PATH; `inherited_path` is the launcher's
/// own PATH.
pub fn plugin_command(
    node: &str,
    bin: &str,
    bin_ready: bool,
    home_path: &str,
    profile: &str,
    pnpm_args: &Vec<String>,
    pnpm_prog: &str,
    inherited_path: &str,
    preserve_symlinks: bool,
) -> (r: Result<LaunchSpec, String>)
    ensures
        !bin_ready ==> (r matches Err(e) && e@ == incomplete_install_error(bin@)),
        bin_ready ==> (r matches Ok(c) && c@ == (LaunchView {
            program: node@,
            args: plugin_args(bin@, profile@, view_strings(pnpm_args@), preserve_symlinks),
            env: plugin_env(home_path@, plugin_path(path_parent(pnpm_prog@), inherited_path@)),
            piped: true,
        })),
{
    if !bin_ready {
        return Err(incomplete_install(bin));
    }
    let mut args = base_args(bin, preserve_symlinks);
    push_arg(&mut args, "plugin");
    push_arg(&mut args, "--profile");
    push_arg(&mut args, profile);
    let ghost head = view_strings(args@);
    let mut k: usize = 0;
    while k < pnpm_args.len()
        invariant
            k <= pnpm_args.len(),
            view_strings(args@) == head + view_strings(pnpm_args@).take(k as int),
        decreases pnpm_args.len() - k,
    {
        push_arg(&mut args, pnpm_args[k].as_str());
        assert(view_strings(pnpm_args@).take(k + 1) =~= view_strings(pnpm_args@).take(
            k as int,
        ).push(pnpm_args@[k as int]@));
        k = k + 1;
    }
    assert(view_strings(pnpm_args@).take(pnpm_args.len() as int) =~= view_strings(pnpm_args@));
    assert(view_strings(args@) =~= plugin_args(
        bin@,
        profile@,
        view_strings(pnpm_args@),
        preserve_symlinks,
    ));
    let mut env: Vec<(String, String)> = Vec::new();
    env.push((String::from_str("DSH_HOME"), String::from_str(home_path)));
    env.push((String::from_str("CI"), String::from_str("true")));
    let ghost e2 = pairs_view(env@);
    assert(e2 =~= seq![("DSH_HOME"@, home_path@), ("CI"@, "true"@)]);
    let path: Option<String> = match parent_dir(pnpm_prog) {
        Some(d) => {
            let dc = chars_of(d.as_str());
            if dc.len() == 0 || crate::text::has_char(&dc, ':') {
                None
            } else {
                let mut p = dc;
                p.push(':');
                append_vec(&mut p, &chars_of(inherited_path));
                Some(string_of(&p))
            }
        },
        None => None,
    };
    assert(opt_view(path) == plugin_path(path_parent(pnpm_prog@), inherited_path@));
    match path {
        Some(p) => {
            env.push((String::from_str("PATH"), p));
        },
        None => {},
    }
    assert(pairs_view(env@) =~= plugin_env(
        home_path@,
        plugin_path(path_parent(pnpm_prog@), inherited_path@),
    ));
    Ok(LaunchSpec { program: String::from_str(node), args, env, piped: true })
}


// ---------------------------------------------------------------------------
// Environment policy
// ---------------------------------------------------------------------------

/// The overrides whose key is neither `a` nor `b`, in order.
pub open spec fn without_keys(ov: Seq<(Seq<char>, Seq<char>)>, a: Seq<char>, b: Seq<char>) -> Seq<
    (Seq<char>, Seq<char>),
>
    decreases ov.len(),
{
    if ov.len() == 0 {
        seq![]
    } else if ov.last().0 == a || ov.last().0 == b {
        without_keys(ov.drop_last(), a, b)
    } else {
        without_keys(ov.drop_last(), a, b).push(ov.last())
    }
}

proof fn lemma_without_keys(ov: Seq<(Seq<char>, Seq<char>)>, a: Seq<char>, b: Seq<char>)
    ensures
        forall|i: int|
            0 <= i < without_keys(ov, a, b).len() ==> (#[trigger] without_keys(ov, a, b)[i]).0
                != a && without_keys(ov, a, b)[i].0 != b,
    decreases ov.len(),
{
    if ov.len() > 0 {
        lemma_without_keys(ov.drop_last(), a, b);
        let w = without_keys(ov.drop_last(), a, b);
        if !(ov.last().0 == a || ov.last().0 == b) {
            assert forall|i: int| 0 <= i < w.push(ov.last()).len() implies (#[trigger] w.push(
                ov.last(),
            )[i]).0 != a && w.push(ov.last())[i].0 != b by {
                if i < w.len() {
                    assert(w.push(ov.last())[i] == w[i]);
                }
            }
        }
    }
}

/// Dropping keys keeps overrides in ascending key order.
proof fn lemma_without_keys_ascending(ov: Seq<(Seq<char>, Seq<char>)>, a: Seq<char>, b: Seq<char>)
    requires
        crate::config::keys_ascending(ov),
    ensures
        crate::config::keys_ascending(without_keys(ov, a, b)),
        forall|i: int|
            0 <= i < without_keys(ov, a, b).len() ==> exists|j: int|
                0 <= j < ov.len() && #[trigger] without_keys(ov, a, b)[i] == ov[j],
    decreases ov.len(),
{
    if ov.len() > 0 {
        let p = ov.drop_last();
        assert forall|i: int, j: int| 0 <= i < j < p.len() implies crate::order::str_lt(
            #[trigger] p[i].0,
            #[trigger] p[j].0,
        ) by {
            assert(p[i] == ov[i] && p[j] == ov[j]);
        }
        lemma_without_keys_ascending(p, a, b);
        let w = without_keys(p, a, b);
        let l = ov.last();
        if !(l.0 == a || l.0 == b) {
            let w2 = w.push(l);
            assert forall|i: int| 0 <= i < w2.len() implies exists|j: int|
                0 <= j < ov.len() && #[trigger] w2[i] == ov[j] by {
                if i < w.len() {
                    let j = choose|j: int| 0 <= j < p.len() && #[trigger] w[i] == p[j];
                    assert(w2[i] == ov[j]);
                } else {
                    assert(w2[i] == ov[ov.len() - 1]);
                }
            }
            assert forall|i: int, j: int| 0 <= i < j < w2.len() implies crate::order::str_lt(
                #[trigger] w2[i].0,
                #[trigger] w2[j].0,
            ) by {
                if j < w.len() {
                    assert(w2[i] == w[i] && w2[j] == w[j]);
                } else {
                    assert(w2[i] == w[i]);
                    let k = choose|k: int| 0 <= k < p.len() && #[trigger] w[i] == p[k];
                    assert(ov[k] == p[k]);
                    assert(crate::order::str_lt(ov[k].0, ov[ov.len() - 1].0));
                }
            }
        } else {
            assert forall|i: int| 0 <= i < w.len() implies exists|j: int|
                0 <= j < ov.len() && #[trigger] w[i] == ov[j] by {
                let j = choose|j: int| 0 <= j < p.len() && #[trigger] w[i] == p[j];
                assert(w[i] == ov[j]);
            }
        }
    }
}

fn push_overrides(
    env: &mut Vec<(String, String)>,
    ov: &Vec<(String, String)>,
    a: &str,
    b: &str,
)
    ensures
        pairs_view(final(env)@) == pairs_view(old(env)@) + without_keys(pairs_view(ov@), a@, b@),
{
    let ghost e0 = pairs_view(env@);
    let ghost pv = pairs_view(ov@);
    let ka = String::from_str(a);
    let kb = String::from_str(b);
    let mut k: usize = 0;
    assert(pv.take(0) =~= Seq::<(Seq<char>, Seq<char>)>::empty());
    assert(e0 + Seq::<(Seq<char>, Seq<char>)>::empty() =~= e0);
    while k < ov.len()
        invariant
            k <= ov.len(),
            pv == pairs_view(ov@),
            ka@ == a@,
            kb@ == b@,
            pairs_view(env@) == e0 + without_keys(pv.take(k as int), a@, b@),
        decreases ov.len() - k,
    {
        assert(pv.take(k + 1).drop_last() =~= pv.take(k as int));
        assert(pv.take(k + 1).last() == (ov@[k as int].0@, ov@[k as int].1@));
        if !(ov[k].0 == ka || ov[k].0 == kb) {
            let p = (ov[k].0.clone(), ov[k].1.clone());
            let ghost before = pairs_view(env@);
            env.push(p);
            assert(pairs_view(env@) =~= before.push((p.0@, p.1@)));
        }
        k = k + 1;
    }
    assert(pv.take(ov.len() as int) =~= pv);
}

/// The environment of an instance: `DSH_HOME` (its HOME's path), the
/// launcher marker `DSH_LAUNCHER_INSTANCE` (its name), then its overrides
/// in ascending key order except `DSH_HOME`, which is reserved.
pub open spec fn instance_env_of(home_path: Seq<char>, inst: InstanceView) -> Seq<
    (Seq<char>, Seq<char>),
> {
    seq![("DSH_HOME"@, home_path), ("DSH_LAUNCHER_INSTANCE"@, inst.name)] + without_keys(
        inst.env_overrides,
        "DSH_HOME"@,
        "DSH_HOME"@,
    )
}

/// Builds the environment of an instance (see [`instance_env_of`]).
/// Refused when the instance or its HOME record is missing.
pub fn instance_env(cfg: &Config, instance_id: &str) -> (r: Result<Vec<(String, String)>, String>)
    requires
        crate::config::overrides_ordered(cfg@.instances),
    ensures
        r matches Ok(env) ==> crate::config::keys_ascending(pairs_view(env@).skip(2)),
        ({
            let k = crate::config::instance_index(cfg@.instances, instance_id@);
            &&& k < 0 ==> (r matches Err(e) && e@ == "实例不存在"@)
            &&& k >= 0 && home_index(cfg@.homes, cfg@.instances[k].home_id) < 0 ==> (r matches Err(
                e,
            ) && e@ == "DSH_HOME 不存在"@)
            &&& k >= 0 && home_index(cfg@.homes, cfg@.instances[k].home_id) >= 0 ==> (r matches Ok(
                env,
            ) && pairs_view(env@) == instance_env_of(
                cfg@.homes[home_index(cfg@.homes, cfg@.instances[k].home_id)].path,
                cfg@.instances[k],
            ))
        }),
{
    let k = match crate::config::find_instance(&cfg.instances, instance_id) {
        Some(k) => k,
        None => return Err(String::from_str("实例不存在")),
    };
    proof {
        crate::config::lemma_instance_index(cfg@.instances, instance_id@);
    }
    let inst = &cfg.instances[k];
    let h = match find_home(&cfg.homes, inst.home_id.as_str()) {
        Some(h) => h,
        None => return Err(String::from_str("DSH_HOME 不存在")),
    };
    proof {
        crate::plugins::lemma_home_index(cfg@.homes, inst@.home_id);
    }
    let mut env: Vec<(String, String)> = Vec::new();
    env.push((String::from_str("DSH_HOME"), cfg.homes[h].path.clone()));
    env.push((String::from_str("DSH_LAUNCHER_INSTANCE"), inst.name.clone()));
    assert(pairs_view(env@) =~= seq![
        ("DSH_HOME"@, cfg@.homes[h as int].path),
        ("DSH_LAUNCHER_INSTANCE"@, inst@.name),
    ]);
    push_overrides(&mut env, &inst.env_overrides, "DSH_HOME", "DSH_HOME");
    proof {
        assert(crate::config::keys_ascending(cfg@.instances[k as int].env_overrides));
        lemma_without_keys_ascending(inst@.env_overrides, "DSH_HOME"@, "DSH_HOME"@);
        assert(pairs_view(env@).skip(2) =~= without_keys(inst@.env_overrides, "DSH_HOME"@, "DSH_HOME"@));
    }
    Ok(env)
}

/// `DSH_HOME` is reserved: only the first entry of an instance's
/// environment sets it.
pub proof fn lemma_instance_env_reserves_home(home_path: Seq<char>, inst: InstanceView)
    ensures
        instance_env_of(home_path, inst)[0] == ("DSH_HOME"@, home_path),
        forall|i: int|
            1 <= i < instance_env_of(home_path, inst).len() ==> (#[trigger] instance_env_of(
                home_path,
                inst,
            )[i]).0 != "DSH_HOME"@,
{
    reveal_strlit("DSH_HOME");
    reveal_strlit("DSH_LAUNCHER_INSTANCE");
    lemma_without_keys(inst.env_overrides, "DSH_HOME"@, "DSH_HOME"@);
    let e = instance_env_of(home_path, inst);
    let w = without_keys(inst.env_overrides, "DSH_HOME"@, "DSH_HOME"@);
    assert forall|i: int| 1 <= i < e.len() implies (#[trigger] e[i]).0 != "DSH_HOME"@ by {
        if i == 1 {
            assert(e[1].0 == "DSH_LAUNCHER_INSTANCE"@);
            assert(e[1].0.len() != 8);
        } else {
            assert(e[i] == w[i - 2]);
        }
    }
}

/// Whether the launcher's proxy is also injected into launched instances
/// (overriding their own proxy variables).
pub fn proxy_applies_to_dsh(proxy_enabled: bool, proxy_apply_dsh: bool) -> (r: bool)
    ensures
        r == (proxy_enabled && proxy_apply_dsh),
{
    proxy_enabled && proxy_apply_dsh
}

// ---------------------------------------------------------------------------
// Terminal
// ---------------------------------------------------------------------------

/// The environment exported in an instance terminal: `DSH_HOME`, the
/// launcher marker, then the overrides except `DSH_HOME` and `PATH`.
pub open spec fn terminal_env_of(
    home_path: Seq<char>,
    name: Seq<char>,
    ov: Seq<(Seq<char>, Seq<char>)>,
) -> Seq<(Seq<char>, Seq<char>)> {
    seq![("DSH_HOME"@, home_path), ("DSH_LAUNCHER_INSTANCE"@, name)] + without_keys(
        ov,
        "DSH_HOME"@,
        "PATH"@,
    )
}

/// The environment exports for an instance terminal (see
/// [`terminal_env_of`]).
pub fn terminal_env_pairs(home_path: &str, instance_name: &str, overrides: &Vec<(String, String)>) -> (r:
    Vec<(String, String)>)
    ensures
        pairs_view(r@) == terminal_env_of(home_path@, instance_name@, pairs_view(overrides@)),
{
    let mut env: Vec<(String, String)> = Vec::new();
    env.push((String::from_str("DSH_HOME"), String::from_str(home_path)));
    env.push((String::from_str("DSH_LAUNCHER_INSTANCE"), String::from_str(instance_name)));
    assert(pairs_view(env@) =~= seq![
        ("DSH_HOME"@, home_path@),
        ("DSH_LAUNCHER_INSTANCE"@, instance_name@),
    ]);
    push_overrides(&mut env, overrides, "DSH_HOME", "PATH");
    env
}

proof fn lemma_without_keys_twice(ov: Seq<(Seq<char>, Seq<char>)>, a: Seq<char>, b: Seq<char>)
    ensures
        without_keys(without_keys(ov, a, a), b, b) == without_keys(ov, a, b),
    decreases ov.len(),
{
    if ov.len() > 0 {
        lemma_without_keys_twice(ov.drop_last(), a, b);
        let w = without_keys(ov.drop_last(), a, a);
        if !(ov.last().0 == a) {
            assert(w.push(ov.last()).drop_last() =~= w);
        }
    }
}

/// An instance terminal exports the environment the instance runs with,
/// less the overrides of `PATH` (the terminal builds its own `PATH`).
pub proof fn lemma_terminal_env_is_instance_env(home_path: Seq<char>, inst: InstanceView)
    ensures
        terminal_env_of(home_path, inst.name, inst.env_overrides) == instance_env_of(
            home_path,
            inst,
        ).take(2) + without_keys(instance_env_of(home_path, inst).skip(2), "PATH"@, "PATH"@),
{
    let e = instance_env_of(home_path, inst);
    let w = without_keys(inst.env_overrides, "DSH_HOME"@, "DSH_HOME"@);
    assert(e.take(2) =~= seq![("DSH_HOME"@, home_path), ("DSH_LAUNCHER_INSTANCE"@, inst.name)]);
    assert(e.skip(2) =~= w);
    lemma_without_keys_twice(inst.env_overrides, "DSH_HOME"@, "PATH"@);
}

/// A terminal's exports never set `DSH_HOME` or `PATH` from the overrides.
pub proof fn lemma_terminal_env_reserved(
    home_path: Seq<char>,
    name: Seq<char>,
    ov: Seq<(Seq<char>, Seq<char>)>,
)
    ensures
        forall|i: int|
            2 <= i < terminal_env_of(home_path, name, ov).len() ==> (#[trigger] terminal_env_of(
                home_path,
                name,
                ov,
            )[i]).0 != "DSH_HOME"@ && terminal_env_of(home_path, name, ov)[i].0 != "PATH"@,
{
    lemma_without_keys(ov, "DSH_HOME"@, "PATH"@);
    let e = terminal_env_of(home_path, name, ov);
    let w = without_keys(ov, "DSH_HOME"@, "PATH"@);
    assert forall|i: int| 2 <= i < e.len() implies (#[trigger] e[i]).0 != "DSH_HOME"@ && e[i].0
        != "PATH"@ by {
        assert(e[i] == w[i - 2]);
    }
}

/// The `.bin` directory of a version tree, where the `dsh` wrapper lives.
pub fn terminal_bin_dir(version_dir: &str) -> (r: String)
    ensures
        r@ == path_join(path_join(version_dir@, "node_modules"@), ".bin"@),
{
    let a = join_path(version_dir, "node_modules");
    join_path(a.as_str(), ".bin")
}

/// The wrapper script `node_modules/.bin/dsh` should hold: it boots the
/// given entry script with the launcher's runtime flags; `None` when the
/// version tree has no entry script to point at.
pub open spec fn wrapper_text(bin: Seq<char>, bin_exists: bool, preserve_symlinks: bool) -> Option<
    Seq<char>,
> {
    if !bin_exists {
        None
    } else {
        Some(
            "#!/bin/sh\nexec node "@ + join(runtime_flags(preserve_symlinks), " "@) + " \""@ + bin
                + "\" \"$@\"\n"@,
        )
    }
}

/// The wrapper script for a version's `node_modules/.bin/dsh` (see
/// [`wrapper_text`]).
pub fn wrapper_script(bin: &str, bin_exists: bool, preserve_symlinks: bool) -> (r: Option<String>)
    ensures
        opt_view(r) == wrapper_text(bin@, bin_exists, preserve_symlinks),
{
    if !bin_exists {
        return None;
    }
    let flags = join_strings(&node_runtime_flags(preserve_symlinks), " ");
    let mut m = chars_of("#!/bin/sh\nexec node ");
    append_vec(&mut m, &chars_of(flags.as_str()));
    append_vec(&mut m, &chars_of(" \""));
    append_vec(&mut m, &chars_of(bin));
    append_vec(&mut m, &chars_of("\" \"$@\"\n"));
    Some(string_of(&m))
}

/// Whether the `dsh` wrapper must be (re)written: never over a real
/// pnpm-provided `dsh`; a wrapper of the launcher's own (it starts with
/// `#!/bin/sh\nexec node `) is rewritten whenever it differs from the
/// desired text, and a missing one is written.
pub fn wrapper_needs_write(existing: &Option<String>, dsh_exists: bool, desired: &str) -> (r: bool)
    ensures
        r == ((!dsh_exists || (existing matches Some(e) && starts_with(
            e@,
            "#!/bin/sh\nexec node "@,
        ))) && !(existing matches Some(e) && e@ == desired@)),
{
    let ours = match existing {
        Some(e) => str_starts_with(e.as_str(), "#!/bin/sh\nexec node "),
        None => false,
    };
    let same = match existing {
        Some(e) => vec_eq(&chars_of(e.as_str()), &chars_of(desired)),
        None => false,
    };
    (!dsh_exists || ours) && !same
}

/// The PATH directories an instance terminal prepends: the version's
/// `.bin` when it exists.
pub fn terminal_path_dirs(bin_dir: Option<String>) -> (r: Vec<String>)
    ensures
        view_strings(r@) == match bin_dir {
            Some(d) => seq![d@],
            None => Seq::<Seq<char>>::empty(),
        },
{
    let mut dirs: Vec<String> = Vec::new();
    match bin_dir {
        Some(d) => {
            dirs.push(d);
        },
        None => {},
    }
    proof {
        assert(view_strings(dirs@) =~= match bin_dir {
            Some(d) => seq![d@],
            None => Seq::<Seq<char>>::empty(),
        });
    }
    dirs
}

} // verus!
