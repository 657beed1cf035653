//! Persistent configuration: DSH_HOME records, installed versions, instances
//! and launcher settings, plus the repairs applied when the configuration is
//! loaded (duplicate HOMEs, orphan HOMEs, the 1-version-1-instance contract).

use crate::paths::{join_path, join_path_vec, path_join};
use crate::text::{
    alphanumeric, append_vec, is_ascii_alnum, chars_of, concat_vec, copy_vec, is_alphanumeric, lowercase,
    slice_vec, string_of, to_lowercase, trim, trim_vec, vec_eq, view_strings,
};
use vstd::prelude::*;

verus! {

// ---------------------------------------------------------------------------
// Persistent configuration models
// ---------------------------------------------------------------------------

/// A DSH data directory record.
#[derive(Clone, Debug)]
pub struct DshHome {
    pub id: String,
    pub name: String,
    pub path: String,
}

/// An installed DSH version.
#[derive(Clone, Debug)]
pub struct DshVersion {
    pub id: String,
    pub version: String,
    pub dir: String,
}

/// An instance: name + version + HOME + environment overrides + optional
/// fixed port. `env_overrides` is kept in key order with each key once.
#[derive(Clone, Debug)]
pub struct DshInstance {
    pub id: String,
    pub name: String,
    pub version_id: String,
    pub home_id: String,
    pub env_overrides: Vec<(String, String)>,
    pub default_profile: Option<String>,
    pub last_profile: Option<String>,
    /// Instance icon: an http(s) URL, or "local" for a cropped PNG stored at
    /// `<home>/icons/<id>.png`. `None` falls back to the launcher icon.
    pub icon: Option<String>,
    /// Preferred web port: `Some(1-65535)` pins it; `None` binds a random
    /// free port (`--port 0`).
    pub port: Option<u16>,
}

/// One bound tool: the absolute path the launcher will execute, plus the
/// version it reported when it was probed.
#[derive(Clone, Debug)]
pub struct BoundTool {
    pub path: String,
    pub version: String,
}

/// The resolved toolchain. Each entry is `None` until a probe finds it.
#[derive(Clone, Debug)]
pub struct ToolchainBinding {
    pub node: Option<BoundTool>,
    pub pnpm: Option<BoundTool>,
}

/// Launcher settings.
#[derive(Clone, Debug)]
pub struct LauncherSettings {
    pub locale: String,
    pub minimize_to_tray: bool,
    pub autostart: bool,
    pub last_instance_id: Option<String>,
    /// UI theme: "light" | "dark" | "system".
    pub theme: String,
    /// Runtime log level: "debug" | "info" | "warn" | "error".
    pub log_level: String,
    pub proxy_enabled: bool,
    /// Proxy URL without port, e.g. `http://127.0.0.1`.
    pub proxy_url: String,
    pub proxy_port: u16,
    /// Comma-separated hosts that bypass the proxy (NO_PROXY).
    pub no_proxy: String,
    pub proxy_apply_dsh: bool,
    /// External terminal for instance shells: "system" or "ghostty".
    pub terminal: String,
    /// Pass `--preserve-symlinks` to every DSH process the launcher spawns.
    pub preserve_symlinks: bool,
    /// Where the launcher's own toolchain resolution last landed (a probe
    /// cache, not a user preference).
    pub toolchain: ToolchainBinding,
}

/// The whole configuration file.
#[derive(Clone, Debug)]
pub struct Config {
    pub homes: Vec<DshHome>,
    pub versions: Vec<DshVersion>,
    pub instances: Vec<DshInstance>,
    pub settings: LauncherSettings,
}

/// A version offered by the registry or by a GitHub release tag.
#[derive(Clone, Debug)]
pub struct RemoteVersion {
    pub version: String,
    pub released_at: Option<String>,
    /// Absent or `npm`: installs from the registry; `github`: a GitHub-only
    /// tag that must be built from source.
    pub source: Option<String>,
}

/// Partial settings update: only present fields are applied.
#[derive(Clone, Debug)]
pub struct SettingsPatch {
    pub locale: Option<String>,
    pub minimize_to_tray: Option<bool>,
    pub autostart: Option<bool>,
    pub last_instance_id: Option<String>,
    pub theme: Option<String>,
    pub log_level: Option<String>,
    pub proxy_enabled: Option<bool>,
    pub proxy_url: Option<String>,
    pub proxy_port: Option<u16>,
    pub no_proxy: Option<String>,
    pub proxy_apply_dsh: Option<bool>,
    pub terminal: Option<String>,
    pub preserve_symlinks: Option<bool>,
}

/// Lifecycle state of an instance as reported to the frontend.
#[derive(Clone, Copy, Debug, PartialEq, Eq, Structural)]
pub enum InstanceState {
    Stopped,
    Starting,
    Running,
    Exited,
}

/// Status event payload of an instance.
#[derive(Clone, Debug)]
pub struct InstanceStatus {
    pub id: String,
    pub state: InstanceState,
    pub url: Option<String>,
    pub profile: Option<String>,
    pub exit_code: Option<i32>,
}

// ---------------------------------------------------------------------------
// Views
// ---------------------------------------------------------------------------

pub open spec fn opt_view(o: Option<String>) -> Option<Seq<char>> {
    match o {
        Some(s) => Some(s@),
        None => None,
    }
}

pub struct HomeView {
    pub id: Seq<char>,
    pub name: Seq<char>,
    pub path: Seq<char>,
}

impl View for DshHome {
    type V = HomeView;

    open spec fn view(&self) -> HomeView {
        HomeView { id: self.id@, name: self.name@, path: self.path@ }
    }
}

pub struct VersionView {
    pub id: Seq<char>,
    pub version: Seq<char>,
    pub dir: Seq<char>,
}

impl View for DshVersion {
    type V = VersionView;

    open spec fn view(&self) -> VersionView {
        VersionView { id: self.id@, version: self.version@, dir: self.dir@ }
    }
}

pub open spec fn pairs_view(v: Seq<(String, String)>) -> Seq<(Seq<char>, Seq<char>)> {
    v.map_values(|p: (String, String)| (p.0@, p.1@))
}

pub struct InstanceView {
    pub id: Seq<char>,
    pub name: Seq<char>,
    pub version_id: Seq<char>,
    pub home_id: Seq<char>,
    pub env_overrides: Seq<(Seq<char>, Seq<char>)>,
    pub default_profile: Option<Seq<char>>,
    pub last_profile: Option<Seq<char>>,
    pub icon: Option<Seq<char>>,
    pub port: Option<u16>,
}

impl View for DshInstance {
    type V = InstanceView;

    open spec fn view(&self) -> InstanceView {
        InstanceView {
            id: self.id@,
            name: self.name@,
            version_id: self.version_id@,
            home_id: self.home_id@,
            env_overrides: pairs_view(self.env_overrides@),
            default_profile: opt_view(self.default_profile),
            last_profile: opt_view(self.last_profile),
            icon: opt_view(self.icon),
            port: self.port,
        }
    }
}

pub struct ToolView {
    pub path: Seq<char>,
    pub version: Seq<char>,
}

impl View for BoundTool {
    type V = ToolView;

    open spec fn view(&self) -> ToolView {
        ToolView { path: self.path@, version: self.version@ }
    }
}

pub open spec fn opt_tool_view(o: Option<BoundTool>) -> Option<ToolView> {
    match o {
        Some(t) => Some(t@),
        None => None,
    }
}

pub struct BindingView {
    pub node: Option<ToolView>,
    pub pnpm: Option<ToolView>,
}

impl View for ToolchainBinding {
    type V = BindingView;

    open spec fn view(&self) -> BindingView {
        BindingView { node: opt_tool_view(self.node), pnpm: opt_tool_view(self.pnpm) }
    }
}

pub struct SettingsView {
    pub locale: Seq<char>,
    pub minimize_to_tray: bool,
    pub autostart: bool,
    pub last_instance_id: Option<Seq<char>>,
    pub theme: Seq<char>,
    pub log_level: Seq<char>,
    pub proxy_enabled: bool,
    pub proxy_url: Seq<char>,
    pub proxy_port: u16,
    pub no_proxy: Seq<char>,
    pub proxy_apply_dsh: bool,
    pub terminal: Seq<char>,
    pub preserve_symlinks: bool,
    pub toolchain: BindingView,
}

impl View for LauncherSettings {
    type V = SettingsView;

    open spec fn view(&self) -> SettingsView {
        SettingsView {
            locale: self.locale@,
            minimize_to_tray: self.minimize_to_tray,
            autostart: self.autostart,
            last_instance_id: opt_view(self.last_instance_id),
            theme: self.theme@,
            log_level: self.log_level@,
            proxy_enabled: self.proxy_enabled,
            proxy_url: self.proxy_url@,
            proxy_port: self.proxy_port,
            no_proxy: self.no_proxy@,
            proxy_apply_dsh: self.proxy_apply_dsh,
            terminal: self.terminal@,
            preserve_symlinks: self.preserve_symlinks,
            toolchain: self.toolchain@,
        }
    }
}

pub open spec fn homes_view(v: Seq<DshHome>) -> Seq<HomeView> {
    v.map_values(|h: DshHome| h@)
}

pub open spec fn versions_view(v: Seq<DshVersion>) -> Seq<VersionView> {
    v.map_values(|h: DshVersion| h@)
}

pub open spec fn instances_view(v: Seq<DshInstance>) -> Seq<InstanceView> {
    v.map_values(|h: DshInstance| h@)
}

pub struct ConfigView {
    pub homes: Seq<HomeView>,
    pub versions: Seq<VersionView>,
    pub instances: Seq<InstanceView>,
    pub settings: SettingsView,
}

impl View for Config {
    type V = ConfigView;

    open spec fn view(&self) -> ConfigView {
        ConfigView {
            homes: homes_view(self.homes@),
            versions: versions_view(self.versions@),
            instances: instances_view(self.instances@),
            settings: self.settings@,
        }
    }
}

// ---------------------------------------------------------------------------
// Copies with known contents
// ---------------------------------------------------------------------------

pub fn copy_string(s: &String) -> (r: String)
    ensures
        r@ == s@,
{
    s.clone()
}

pub fn copy_opt_string(s: &Option<String>) -> (r: Option<String>)
    ensures
        opt_view(r) == opt_view(*s),
{
    match s {
        Some(x) => Some(x.clone()),
        None => None,
    }
}

impl DshHome {
    pub fn copy(&self) -> (r: DshHome)
        ensures
            r@ == self@,
    {
        DshHome { id: self.id.clone(), name: self.name.clone(), path: self.path.clone() }
    }
}

impl DshVersion {
    pub fn copy(&self) -> (r: DshVersion)
        ensures
            r@ == self@,
    {
        DshVersion { id: self.id.clone(), version: self.version.clone(), dir: self.dir.clone() }
    }
}

pub fn copy_pairs(v: &Vec<(String, String)>) -> (r: Vec<(String, String)>)
    ensures
        pairs_view(r@) == pairs_view(v@),
{
    let mut r: Vec<(String, String)> = Vec::new();
    let mut k: usize = 0;
    while k < v.len()
        invariant
            k <= v.len(),
            pairs_view(r@) == pairs_view(v@).take(k as int),
        decreases v.len() - k,
    {
        let p = (v[k].0.clone(), v[k].1.clone());
        proof {
            assert(pairs_view(r@.push(p)) =~= pairs_view(r@).push((p.0@, p.1@)));
            assert(pairs_view(v@).take(k + 1) =~= pairs_view(v@).take(k as int).push(
                pairs_view(v@)[k as int],
            ));
        }
        r.push(p);
        k = k + 1;
    }
    assert(pairs_view(v@).take(v.len() as int) =~= pairs_view(v@));
    r
}

impl DshInstance {
    pub fn copy(&self) -> (r: DshInstance)
        ensures
            r@ == self@,
    {
        DshInstance {
            id: self.id.clone(),
            name: self.name.clone(),
            version_id: self.version_id.clone(),
            home_id: self.home_id.clone(),
            env_overrides: copy_pairs(&self.env_overrides),
            default_profile: copy_opt_string(&self.default_profile),
            last_profile: copy_opt_string(&self.last_profile),
            icon: copy_opt_string(&self.icon),
            port: self.port,
        }
    }
}

pub fn copy_homes(v: &Vec<DshHome>) -> (r: Vec<DshHome>)
    ensures
        homes_view(r@) == homes_view(v@),
{
    let mut r: Vec<DshHome> = Vec::new();
    let mut k: usize = 0;
    while k < v.len()
        invariant
            k <= v.len(),
            homes_view(r@) == homes_view(v@).take(k as int),
        decreases v.len() - k,
    {
        let h = v[k].copy();
        proof {
            assert(homes_view(r@.push(h)) =~= homes_view(r@).push(h@));
            assert(homes_view(v@).take(k + 1) =~= homes_view(v@).take(k as int).push(v@[k as int]@));
        }
        r.push(h);
        k = k + 1;
    }
    assert(homes_view(v@).take(v.len() as int) =~= homes_view(v@));
    r
}

// ---------------------------------------------------------------------------
// Names, ids, paths
// ---------------------------------------------------------------------------

/// Environment overrides in ascending key order with each key once (the
/// order and uniqueness of a map keyed by variable name).
pub open spec fn keys_ascending(ov: Seq<(Seq<char>, Seq<char>)>) -> bool {
    forall|i: int, j: int| 0 <= i < j < ov.len() ==> crate::order::str_lt(#[trigger] ov[i].0, #[trigger] ov[j].0)
}

/// Every instance keeps its environment overrides in ascending key order
/// with each key once.
pub open spec fn overrides_ordered(insts: Seq<InstanceView>) -> bool {
    forall|i: int| 0 <= i < insts.len() ==> keys_ascending(#[trigger] insts[i].env_overrides)
}

/// A character `sanitize_name` keeps: on ASCII a letter, a digit, `-`,
/// `_`, `.` or a space; no C1 control character; beyond those whatever
/// `char::is_alphanumeric` accepts (see [`alphanumeric`]).
pub open spec fn name_char_kept(c: char) -> bool {
    if (c as u32) < 0x80 {
        is_ascii_alnum(c) || c == '-' || c == '_' || c == '.' || c == ' '
    } else if (c as u32) <= 0x9f {
        false
    } else {
        alphanumeric(c)
    }
}

/// A control character (general category `Cc`).
pub open spec fn is_control(c: char) -> bool {
    (c as u32) < 0x20 || (0x7f <= (c as u32) && (c as u32) <= 0x9f)
}

/// A character that is safe in a directory name: no path separator and no
/// control character.
pub open spec fn dir_safe_char(c: char) -> bool {
    c != '/' && c != '\\' && !is_control(c)
}

proof fn lemma_trim_keeps_safe(s: Seq<char>)
    requires
        forall|i: int| 0 <= i < s.len() ==> dir_safe_char(#[trigger] s[i]),
    ensures
        forall|i: int| 0 <= i < trim(s).len() ==> dir_safe_char(#[trigger] trim(s)[i]),
{
    lemma_trim_start_keeps_safe(s);
    lemma_trim_end_keeps_safe(crate::text::trim_start(s));
}

proof fn lemma_trim_start_keeps_safe(s: Seq<char>)
    requires
        forall|i: int| 0 <= i < s.len() ==> dir_safe_char(#[trigger] s[i]),
    ensures
        forall|i: int| 0 <= i < crate::text::trim_start(s).len() ==> dir_safe_char(
            #[trigger] crate::text::trim_start(s)[i],
        ),
    decreases s.len(),
{
    if s.len() > 0 && crate::text::is_ws(s[0]) {
        let t = s.drop_first();
        assert forall|i: int| 0 <= i < t.len() implies dir_safe_char(#[trigger] t[i]) by {
            assert(t[i] == s[i + 1]);
        }
        lemma_trim_start_keeps_safe(t);
        assert(crate::text::trim_start(s) == crate::text::trim_start(t));
    } else {
        assert(crate::text::trim_start(s) == s);
    }
}

proof fn lemma_trim_end_keeps_safe(s: Seq<char>)
    requires
        forall|i: int| 0 <= i < s.len() ==> dir_safe_char(#[trigger] s[i]),
    ensures
        forall|i: int| 0 <= i < crate::text::trim_end(s).len() ==> dir_safe_char(
            #[trigger] crate::text::trim_end(s)[i],
        ),
    decreases s.len(),
{
    if s.len() > 0 && crate::text::is_ws(s.last()) {
        let t = s.drop_last();
        assert forall|i: int| 0 <= i < t.len() implies dir_safe_char(#[trigger] t[i]) by {
            assert(t[i] == s[i]);
        }
        lemma_trim_end_keeps_safe(t);
        assert(crate::text::trim_end(s) == crate::text::trim_end(t));
    } else {
        assert(crate::text::trim_end(s) == s);
    }
}

/// A sanitized name is never empty and holds no path separator and no
/// control character.
pub proof fn lemma_sanitized_is_dir_safe(name: Seq<char>)
    ensures
        sanitized(name).len() > 0,
        forall|i: int| 0 <= i < sanitized(name).len() ==> dir_safe_char(#[trigger] sanitized(name)[i]),
{
    reveal_strlit("instance");
    let m = sanitize_chars(name);
    assert forall|i: int| 0 <= i < m.len() implies dir_safe_char(#[trigger] m[i]) by {
        let c = name[i];
        assert(m[i] == if name_char_kept(c) { c } else { '_' });
    }
    lemma_trim_keeps_safe(m);
}

/// `name` with every other character replaced by `_`.
pub open spec fn sanitize_chars(name: Seq<char>) -> Seq<char> {
    name.map_values(|c: char| if name_char_kept(c) { c } else { '_' })
}

/// A directory-safe version of `name`: unsafe characters become `_`, the
/// result is trimmed, and an empty result becomes `instance`.
pub open spec fn sanitized(name: Seq<char>) -> Seq<char> {
    let t = trim(sanitize_chars(name));
    if t.len() == 0 {
        "instance"@
    } else {
        t
    }
}

/// A directory-safe version of `name` (see [`sanitized`]).
pub fn sanitize_name(name: &str) -> (r: String)
    ensures
        r@ == sanitized(name@),
{
    let n = chars_of(name);
    let mut out: Vec<char> = Vec::new();
    let mut k: usize = 0;
    while k < n.len()
        invariant
            k <= n.len(),
            out@ == sanitize_chars(n@.take(k as int)),
        decreases n.len() - k,
    {
        let c = n[k];
        if is_alphanumeric(c) || c == '-' || c == '_' || c == '.' || c == ' ' {
            out.push(c);
        } else {
            out.push('_');
        }
        assert(out@ =~= sanitize_chars(n@.take(k + 1)));
        k = k + 1;
    }
    assert(n@.take(n.len() as int) =~= n@);
    let t = trim_vec(&out);
    if t.len() == 0 {
        String::from_str("instance")
    } else {
        string_of(&t)
    }
}

/// A name made only of ASCII letters (either case) and digits, `-`, `_`,
/// `.`, spaces and, beyond ASCII and the C1 controls, characters that
/// `char::is_alphanumeric` accepts, with no whitespace around it, names its
/// directory as it is: `sanitize_name` returns it unchanged.
pub proof fn lemma_sanitize_keeps_plain_names(name: Seq<char>)
    requires
        name.len() > 0,
        trim(name) == name,
        forall|i: int|
            0 <= i < name.len() ==> {
                let u = (#[trigger] name[i]) as u32;
                ||| (0x61 <= u && u <= 0x7a)
                ||| (0x41 <= u && u <= 0x5a)
                ||| (0x30 <= u && u <= 0x39)
                ||| name[i] == '-' || name[i] == '_' || name[i] == '.' || name[i] == ' '
                ||| (u >= 0xa0 && alphanumeric(name[i]))
            },
    ensures
        sanitized(name) == name,
{
    assert(sanitize_chars(name) =~= name) by {
        assert forall|i: int| 0 <= i < name.len() implies #[trigger] sanitize_chars(name)[i]
            == name[i] by {
            assert(name_char_kept(name[i]));
        }
    }
}

/// The hyphenated lowercase text of a version-4 UUID: 36 characters,
/// hyphens at 8, 13, 18 and 23, lowercase hex digits elsewhere, and the
/// version digit `4` at 14.
pub open spec fn uuid_v4_shape(u: Seq<char>) -> bool {
    &&& u.len() == 36
    &&& forall|i: int|
        0 <= i < 36 ==> if i == 8 || i == 13 || i == 18 || i == 23 {
            #[trigger] u[i] == '-'
        } else {
            ('0' <= u[i] && u[i] <= '9') || ('a' <= u[i] && u[i] <= 'f')
        }
    &&& u[14] == '4'
}

/// Calls `uuid::Uuid::new_v4` and renders it with `to_string`: a random
/// version-4 UUID, written hyphenated in lowercase hex (its `Display` is
/// `LowerHex`).
#[verifier::external_body]
fn uuid_v4_text() -> (r: String)
    ensures
        uuid_v4_shape(r@),
{
    uuid::Uuid::new_v4().to_string()
}

/// A fresh record id: `<prefix>-<random UUID>`.
pub fn new_id(prefix: &str) -> (r: String)
    ensures
        is_new_id(r@, prefix@),
{
    let mut v = chars_of(prefix);
    v.push('-');
    let u = chars_of(&uuid_v4_text());
    append_vec(&mut v, &u);
    assert(v@.take(prefix@.len() as int + 1) =~= prefix@ + seq!['-']);
    assert(v@.skip(prefix@.len() as int + 1) =~= u@);
    string_of(&v)
}

/// Path equality as macOS, the one platform the launcher is built for,
/// resolves it: APFS volumes are case-insensitive by default, so both paths
/// are compared in lowercase.
pub open spec fn same_path(a: Seq<char>, b: Seq<char>) -> bool {
    lowercase(a) == lowercase(b)
}

/// Path equality, folding case the way the filesystem resolves paths.
pub fn paths_equal(a: &str, b: &str) -> (r: bool)
    ensures
        r == same_path(a@, b@),
{
    let la = chars_of(&to_lowercase(a));
    let lb = chars_of(&to_lowercase(b));
    vec_eq(&la, &lb)
}


// ---------------------------------------------------------------------------
// Repairs applied on load
// ---------------------------------------------------------------------------

/// Whether some instance refers to the HOME id `id`.
pub open spec fn home_referenced(instances: Seq<InstanceView>, id: Seq<char>) -> bool {
    exists|i: int| 0 <= i < instances.len() && (#[trigger] instances[i]).home_id == id
}

/// Whether some HOME record carries the id `id`.
pub open spec fn has_home(homes: Seq<HomeView>, id: Seq<char>) -> bool {
    exists|i: int| 0 <= i < homes.len() && (#[trigger] homes[i]).id == id
}

/// Whether some version record carries the id `id`.
pub open spec fn has_version(versions: Seq<VersionView>, id: Seq<char>) -> bool {
    exists|i: int| 0 <= i < versions.len() && (#[trigger] versions[i]).id == id
}

/// The ids of HOME records whose directory is gone and that no instance
/// refers to (`exists[i]` tells whether the directory of `homes[i]` exists).
pub open spec fn orphan_home_id(c: ConfigView, exists: Seq<bool>, id: Seq<char>) -> bool {
    &&& exists|i: int| 0 <= i < c.homes.len() && (#[trigger] c.homes[i]).id == id && !exists[i]
    &&& !home_referenced(c.instances, id)
}

/// `homes` without the records whose id satisfies `drop`.
pub open spec fn retain_homes(homes: Seq<HomeView>, drop: spec_fn(Seq<char>) -> bool) -> Seq<
    HomeView,
>
    decreases homes.len(),
{
    if homes.len() == 0 {
        seq![]
    } else {
        let r = retain_homes(homes.drop_last(), drop);
        if drop(homes.last().id) {
            r
        } else {
            r.push(homes.last())
        }
    }
}

proof fn lemma_retain_keeps(homes: Seq<HomeView>, drop: spec_fn(Seq<char>) -> bool, id: Seq<char>)
    requires
        has_home(homes, id),
        !drop(id),
    ensures
        has_home(retain_homes(homes, drop), id),
    decreases homes.len(),
{
    if homes.last().id == id {
        let r = retain_homes(homes.drop_last(), drop);
        assert(r.push(homes.last())[r.len() as int].id == id);
    } else {
        let i = choose|i: int| 0 <= i < homes.len() && (#[trigger] homes[i]).id == id;
        assert(homes.drop_last()[i].id == id);
        lemma_retain_keeps(homes.drop_last(), drop, id);
        let r = retain_homes(homes.drop_last(), drop);
        if !drop(homes.last().id) {
            let j = choose|j: int| 0 <= j < r.len() && (#[trigger] r[j]).id == id;
            assert(r.push(homes.last())[j].id == id);
        }
    }
}

/// Whether an instance of `instances` refers to the HOME id in `id`.
fn referenced_exec(instances: &Vec<DshInstance>, id: &String) -> (r: bool)
    ensures
        r == home_referenced(instances_view(instances@), id@),
{
    let mut k: usize = 0;
    while k < instances.len()
        invariant
            k <= instances.len(),
            forall|t: int| 0 <= t < k ==> instances_view(instances@)[t].home_id != id@,
        decreases instances.len() - k,
    {
        if instances[k].home_id == *id {
            assert(instances_view(instances@)[k as int].home_id == id@);
            return true;
        }
        k = k + 1;
    }
    false
}

/// Whether `ids` holds `id`.
fn has_string(ids: &Vec<String>, id: &String) -> (r: bool)
    ensures
        r == view_strings(ids@).contains(id@),
{
    let mut k: usize = 0;
    while k < ids.len()
        invariant
            k <= ids.len(),
            forall|t: int| 0 <= t < k ==> #[trigger] view_strings(ids@)[t] != id@,
        decreases ids.len() - k,
    {
        if ids[k] == *id {
            assert(view_strings(ids@)[k as int] == id@);
            return true;
        }
        k = k + 1;
    }
    false
}

/// Removes HOME records whose directory no longer exists AND that are not
/// referenced by any instance; `home_exists[i]` tells whether the directory
/// of `cfg.homes[i]` exists. Directories that still exist are kept even if
/// unreferenced (they may be user-managed), and a HOME an instance refers to
/// is never removed.
pub fn cleanup_orphan_homes(cfg: &mut Config, home_exists: &Vec<bool>)
    requires
        home_exists.len() == old(cfg).homes.len(),
    ensures
        final(cfg)@.homes == retain_homes(
            old(cfg)@.homes,
            |id: Seq<char>| orphan_home_id(old(cfg)@, home_exists@, id),
        ),
        final(cfg)@.versions == old(cfg)@.versions,
        final(cfg)@.instances == old(cfg)@.instances,
        final(cfg)@.settings == old(cfg)@.settings,
        forall|i: int|
            0 <= i < old(cfg)@.instances.len() && has_home(
                old(cfg)@.homes,
                (#[trigger] old(cfg)@.instances[i]).home_id,
            ) ==> has_home(final(cfg)@.homes, old(cfg)@.instances[i].home_id),
{
    let ghost c0 = cfg@;
    let ghost drop = |id: Seq<char>| orphan_home_id(c0, home_exists@, id);
    let mut orphans: Vec<String> = Vec::new();
    let mut k: usize = 0;
    while k < cfg.homes.len()
        invariant
            k <= cfg.homes.len(),
            cfg@ == c0,
            drop == (|id: Seq<char>| orphan_home_id(c0, home_exists@, id)),
            home_exists.len() == cfg.homes.len(),
            forall|id: Seq<char>|
                view_strings(orphans@).contains(id) ==> #[trigger] drop(id),
            forall|t: int|
                0 <= t < k && !home_exists@[t] && !home_referenced(c0.instances, c0.homes[t].id)
                    ==> view_strings(orphans@).contains(#[trigger] c0.homes[t].id),
        decreases cfg.homes.len() - k,
    {
        if !home_exists[k] && !referenced_exec(&cfg.instances, &cfg.homes[k].id) {
            let id = cfg.homes[k].id.clone();
            proof {
                assert(c0.homes[k as int].id == id@);
                assert(!home_exists@[k as int]);
                assert(!home_referenced(c0.instances, id@));
                assert(orphan_home_id(c0, home_exists@, id@));
                assert(drop(id@));
                assert(view_strings(orphans@.push(id)) =~= view_strings(orphans@).push(id@));
                assert forall|t: int|
                    0 <= t < k + 1 && !home_exists@[t] && !home_referenced(
                        c0.instances,
                        c0.homes[t].id,
                    ) implies view_strings(orphans@.push(id)).contains(
                    #[trigger] c0.homes[t].id,
                ) by {
                    if t == k {
                        assert(view_strings(orphans@.push(id))[orphans@.len() as int]
                            == id@);
                    } else {
                        let j = choose|j: int|
                            0 <= j < orphans@.len() && view_strings(orphans@)[j]
                                == c0.homes[t].id;
                        assert(view_strings(orphans@.push(id))[j] == c0.homes[t].id);
                    }
                }
            }
            orphans.push(id);
        }
        k = k + 1;
    }
    // The ids to drop are exactly the collected orphans.
    assert forall|id: Seq<char>| drop(id) <==> view_strings(orphans@).contains(id) by {
        if drop(id) {
            let t = choose|t: int|
                0 <= t < c0.homes.len() && (#[trigger] c0.homes[t]).id == id && !home_exists@[t];
            assert(!home_referenced(c0.instances, c0.homes[t].id));
        }
    }
    let mut kept: Vec<DshHome> = Vec::new();
    let mut j: usize = 0;
    while j < cfg.homes.len()
        invariant
            j <= cfg.homes.len(),
            cfg@ == c0,
            drop == (|id: Seq<char>| orphan_home_id(c0, home_exists@, id)),
            forall|id: Seq<char>| drop(id) <==> view_strings(orphans@).contains(id),
            homes_view(kept@) == retain_homes(c0.homes.take(j as int), drop),
        decreases cfg.homes.len() - j,
    {
        proof {
            assert(c0.homes.take(j + 1).drop_last() =~= c0.homes.take(j as int));
            assert(c0.homes.take(j + 1).last() == c0.homes[j as int]);
        }
        if !has_string(&orphans, &cfg.homes[j].id) {
            let h = cfg.homes[j].copy();
            proof {
                assert(homes_view(kept@.push(h)) =~= homes_view(kept@).push(h@));
            }
            kept.push(h);
        }
        j = j + 1;
    }
    proof {
        assert(c0.homes.take(cfg.homes.len() as int) =~= c0.homes);
        assert forall|i: int|
            0 <= i < c0.instances.len() && has_home(
                c0.homes,
                (#[trigger] c0.instances[i]).home_id,
            ) implies has_home(retain_homes(c0.homes, drop), c0.instances[i].home_id) by {
            assert(home_referenced(c0.instances, c0.instances[i].home_id));
            assert(!drop(c0.instances[i].home_id));
            lemma_retain_keeps(c0.homes, drop, c0.instances[i].home_id);
        }
    }
    cfg.homes = kept;
}


/// Index of the first record in `kept` whose path is the same as `p`, or -1.
pub open spec fn find_same_path(kept: Seq<HomeView>, p: Seq<char>) -> int
    decreases kept.len(),
{
    if kept.len() == 0 {
        -1
    } else {
        let f = find_same_path(kept.drop_last(), p);
        if f >= 0 {
            f
        } else if same_path(kept.last().path, p) {
            kept.len() - 1
        } else {
            -1
        }
    }
}

/// One HOME of the duplicate merge: the records kept so far and the
/// `(dropped id, surviving id)` redirects in the order they were found.
pub open spec fn dedupe_step(
    st: (Seq<HomeView>, Seq<(Seq<char>, Seq<char>)>),
    h: HomeView,
) -> (Seq<HomeView>, Seq<(Seq<char>, Seq<char>)>) {
    let e = find_same_path(st.0, h.path);
    if e >= 0 {
        (st.0, st.1.push((h.id, st.0[e].id)))
    } else {
        (st.0.push(h), st.1)
    }
}

pub open spec fn dedupe_scan(hs: Seq<HomeView>) -> (Seq<HomeView>, Seq<(Seq<char>, Seq<char>)>)
    decreases hs.len(),
{
    if hs.len() == 0 {
        (seq![], seq![])
    } else {
        dedupe_step(dedupe_scan(hs.drop_last()), hs.last())
    }
}

/// The surviving id a dropped HOME id is redirected to: the latest redirect
/// recorded for it.
pub open spec fn redirect_of(r: Seq<(Seq<char>, Seq<char>)>, id: Seq<char>) -> Option<Seq<char>>
    decreases r.len(),
{
    if r.len() == 0 {
        None
    } else if r.last().0 == id {
        Some(r.last().1)
    } else {
        redirect_of(r.drop_last(), id)
    }
}

/// An instance with its HOME reference redirected.
pub open spec fn redirect_instance(i: InstanceView, r: Seq<(Seq<char>, Seq<char>)>) -> InstanceView {
    match redirect_of(r, i.home_id) {
        Some(t) => InstanceView { home_id: t, ..i },
        None => i,
    }
}

/// No two records of `hs` name the same path.
pub open spec fn distinct_paths(hs: Seq<HomeView>) -> bool {
    forall|i: int, j: int|
        0 <= i < j < hs.len() ==> !same_path(#[trigger] hs[i].path, #[trigger] hs[j].path)
}

pub proof fn lemma_find_same_path(kept: Seq<HomeView>, p: Seq<char>)
    ensures
        -1 <= find_same_path(kept, p) < kept.len(),
        find_same_path(kept, p) >= 0 ==> same_path(kept[find_same_path(kept, p)].path, p),
        find_same_path(kept, p) < 0 ==> forall|i: int|
            0 <= i < kept.len() ==> !same_path(#[trigger] kept[i].path, p),
    decreases kept.len(),
{
    if kept.len() > 0 {
        lemma_find_same_path(kept.drop_last(), p);
        assert forall|i: int| 0 <= i < kept.len() - 1 implies kept.drop_last()[i] == kept[i] by {}
    }
}

proof fn lemma_dedupe_scan(hs: Seq<HomeView>)
    ensures
        distinct_paths(dedupe_scan(hs).0),
        forall|t: int|
            0 <= t < hs.len() ==> has_home(dedupe_scan(hs).0, (#[trigger] hs[t]).id) || redirect_of(
                dedupe_scan(hs).1,
                hs[t].id,
            ) is Some,
        forall|id: Seq<char>|
            (#[trigger] redirect_of(dedupe_scan(hs).1, id)) is Some ==> has_home(
                dedupe_scan(hs).0,
                redirect_of(dedupe_scan(hs).1, id)->0,
            ),
    decreases hs.len(),
{
    if hs.len() > 0 {
        let prev = dedupe_scan(hs.drop_last());
        lemma_dedupe_scan(hs.drop_last());
        let h = hs.last();
        lemma_find_same_path(prev.0, h.path);
        let e = find_same_path(prev.0, h.path);
        let cur = dedupe_scan(hs);
        if e >= 0 {
            assert(cur.0 == prev.0);
            assert(cur.1 == prev.1.push((h.id, prev.0[e].id)));
            assert forall|id: Seq<char>| (#[trigger] redirect_of(cur.1, id)) is Some implies has_home(
                cur.0,
                redirect_of(cur.1, id)->0,
            ) by {
                assert(cur.1.drop_last() =~= prev.1);
                if id == h.id {
                    assert(cur.0[e].id == prev.0[e].id);
                } else {
                    assert(redirect_of(cur.1, id) == redirect_of(prev.1, id));
                }
            }
            assert forall|t: int| 0 <= t < hs.len() implies has_home(cur.0, (#[trigger] hs[t]).id)
                || redirect_of(cur.1, hs[t].id) is Some by {
                assert(cur.1.drop_last() =~= prev.1);
                if t == hs.len() - 1 {
                } else {
                    assert(hs.drop_last()[t] == hs[t]);
                    if hs[t].id != h.id {
                        assert(redirect_of(cur.1, hs[t].id) == redirect_of(prev.1, hs[t].id));
                    }
                }
            }
        } else {
            assert(cur.0 == prev.0.push(h));
            assert(cur.1 == prev.1);
            assert forall|i: int, j: int| 0 <= i < j < cur.0.len() implies !same_path(
                #[trigger] cur.0[i].path,
                #[trigger] cur.0[j].path,
            ) by {
                if j == cur.0.len() - 1 {
                    assert(cur.0[j] == h);
                    assert(cur.0[i] == prev.0[i]);
                } else {
                    assert(cur.0[i] == prev.0[i]);
                    assert(cur.0[j] == prev.0[j]);
                }
            }
            assert forall|id: Seq<char>| has_home(prev.0, id) implies has_home(cur.0, id) by {
                let i = choose|i: int| 0 <= i < prev.0.len() && (#[trigger] prev.0[i]).id == id;
                assert(cur.0[i] == prev.0[i]);
            }
            assert(has_home(cur.0, h.id)) by {
                assert(cur.0[prev.0.len() as int] == h);
            }
            assert forall|t: int| 0 <= t < hs.len() implies has_home(cur.0, (#[trigger] hs[t]).id)
                || redirect_of(cur.1, hs[t].id) is Some by {
                if t < hs.len() - 1 {
                    assert(hs.drop_last()[t] == hs[t]);
                }
            }
        }
    }
}

/// Finds the first kept record with the same path as `p`.
fn find_same_path_exec(kept: &Vec<DshHome>, p: &String) -> (r: Option<usize>)
    ensures
        match r {
            Some(e) => e as int == find_same_path(homes_view(kept@), p@),
            None => find_same_path(homes_view(kept@), p@) == -1,
        },
{
    let mut k: usize = 0;
    while k < kept.len()
        invariant
            k <= kept.len(),
            find_same_path(homes_view(kept@).take(k as int), p@) == -1,
        decreases kept.len() - k,
    {
        proof {
            assert(homes_view(kept@).take(k + 1).drop_last() =~= homes_view(kept@).take(k as int));
        }
        if paths_equal(&kept[k].path, p) {
            proof {
                lemma_find_same_path_prefix(homes_view(kept@), p@, k as int);
            }
            return Some(k);
        }
        k = k + 1;
    }
    assert(homes_view(kept@).take(kept.len() as int) =~= homes_view(kept@));
    None
}

pub proof fn lemma_find_same_path_prefix(hs: Seq<HomeView>, p: Seq<char>, k: int)
    requires
        0 <= k < hs.len(),
        find_same_path(hs.take(k), p) == -1,
        same_path(hs[k].path, p),
    ensures
        find_same_path(hs, p) == k,
    decreases hs.len(),
{
    assert(hs.take(k + 1).drop_last() =~= hs.take(k));
    assert(find_same_path(hs.take(k + 1), p) == k);
    if hs.len() > k + 1 {
        assert(hs.drop_last().take(k) =~= hs.take(k));
        lemma_find_same_path_prefix(hs.drop_last(), p, k);
    } else {
        assert(hs.take(k + 1) =~= hs);
    }
}

/// The redirect target recorded last for `id`.
fn redirect_of_exec(r: &Vec<(String, String)>, id: &String) -> (t: Option<String>)
    ensures
        opt_view(t) == redirect_of(pairs_view(r@), id@),
{
    let mut j = r.len();
    assert(pairs_view(r@).take(j as int) =~= pairs_view(r@));
    while j > 0
        invariant
            j <= r.len(),
            redirect_of(pairs_view(r@), id@) == redirect_of(pairs_view(r@).take(j as int), id@),
        decreases j,
    {
        proof {
            assert(pairs_view(r@).take(j as int).drop_last() =~= pairs_view(r@).take(j - 1));
            assert(pairs_view(r@).take(j as int).last() == (r@[j - 1].0@, r@[j - 1].1@));
        }
        if r[j - 1].0 == *id {
            return Some(r[j - 1].1.clone());
        }
        j = j - 1;
    }
    None
}

proof fn lemma_dedupe_scan_distinct(hs: Seq<HomeView>)
    requires
        distinct_paths(hs),
    ensures
        dedupe_scan(hs).0 == hs,
        dedupe_scan(hs).1.len() == 0,
    decreases hs.len(),
{
    if hs.len() > 0 {
        let d = hs.drop_last();
        assert(distinct_paths(d)) by {
            assert forall|i: int, j: int| 0 <= i < j < d.len() implies !same_path(
                #[trigger] d[i].path,
                #[trigger] d[j].path,
            ) by {
                assert(d[i] == hs[i] && d[j] == hs[j]);
            }
        }
        lemma_dedupe_scan_distinct(d);
        lemma_find_same_path(d, hs.last().path);
        if find_same_path(d, hs.last().path) >= 0 {
            let e = find_same_path(d, hs.last().path);
            assert(hs[e] == d[e]);
            assert(same_path(hs[e].path, hs[hs.len() - 1].path));
            assert(false);
        }
        assert(d.push(hs.last()) =~= hs);
    }
}

/// Merging duplicate HOMEs settles after one run: on records that already
/// name distinct paths (which is what [`dedupe_homes`] leaves) the merge
/// keeps every record and redirects no instance.
pub proof fn lemma_dedupe_idempotent(c: ConfigView)
    requires
        distinct_paths(c.homes),
    ensures
        dedupe_scan(c.homes).0 == c.homes,
        c.instances.map_values(|i: InstanceView| redirect_instance(i, dedupe_scan(c.homes).1))
            == c.instances,
{
    lemma_dedupe_scan_distinct(c.homes);
    let r = dedupe_scan(c.homes).1;
    assert(c.instances.map_values(|i: InstanceView| redirect_instance(i, r)) =~= c.instances);
}

/// Merges HOME records that point at the same path, keeping the first and
/// redirecting instance references to the surviving home id. Afterwards no
/// two records share a path, and an instance that referred to a HOME still
/// refers to one.
pub fn dedupe_homes(cfg: &mut Config)
    ensures
        final(cfg)@.homes == dedupe_scan(old(cfg)@.homes).0,
        final(cfg)@.instances == old(cfg)@.instances.map_values(
            |i: InstanceView| redirect_instance(i, dedupe_scan(old(cfg)@.homes).1),
        ),
        final(cfg)@.versions == old(cfg)@.versions,
        final(cfg)@.settings == old(cfg)@.settings,
        distinct_paths(final(cfg)@.homes),
        forall|i: int|
            0 <= i < old(cfg)@.instances.len() && has_home(
                old(cfg)@.homes,
                (#[trigger] old(cfg)@.instances[i]).home_id,
            ) ==> has_home(final(cfg)@.homes, final(cfg)@.instances[i].home_id),
{
    let ghost c0 = cfg@;
    proof {
        lemma_dedupe_scan(c0.homes);
    }
    let mut kept: Vec<DshHome> = Vec::new();
    let mut redirect: Vec<(String, String)> = Vec::new();
    let mut k: usize = 0;
    while k < cfg.homes.len()
        invariant
            k <= cfg.homes.len(),
            cfg@ == c0,
            (homes_view(kept@), pairs_view(redirect@)) == dedupe_scan(c0.homes.take(k as int)),
        decreases cfg.homes.len() - k,
    {
        proof {
            assert(c0.homes.take(k + 1).drop_last() =~= c0.homes.take(k as int));
            assert(c0.homes.take(k + 1).last() == c0.homes[k as int]);
        }
        match find_same_path_exec(&kept, &cfg.homes[k].path) {
            Some(e) => {
                proof {
                    lemma_find_same_path(homes_view(kept@), cfg.homes[k as int].path@);
                }
                let p = (cfg.homes[k].id.clone(), kept[e].id.clone());
                proof {
                    assert(pairs_view(redirect@.push(p)) =~= pairs_view(redirect@).push(
                        (p.0@, p.1@),
                    ));
                }
                redirect.push(p);
            },
            None => {
                let h = cfg.homes[k].copy();
                proof {
                    assert(homes_view(kept@.push(h)) =~= homes_view(kept@).push(h@));
                }
                kept.push(h);
            },
        }
        k = k + 1;
    }
    proof {
        assert(c0.homes.take(cfg.homes.len() as int) =~= c0.homes);
    }
    let ghost r = pairs_view(redirect@);
    let mut insts: Vec<DshInstance> = Vec::new();
    let mut j: usize = 0;
    while j < cfg.instances.len()
        invariant
            j <= cfg.instances.len(),
            cfg@ == c0,
            r == pairs_view(redirect@),
            r == dedupe_scan(c0.homes).1,
            instances_view(insts@) == c0.instances.take(j as int).map_values(
                |i: InstanceView| redirect_instance(i, r),
            ),
        decreases cfg.instances.len() - j,
    {
        let mut inst = cfg.instances[j].copy();
        match redirect_of_exec(&redirect, &cfg.instances[j].home_id) {
            Some(t) => {
                inst.home_id = t;
            },
            None => {},
        }
        proof {
            assert(inst@ == redirect_instance(c0.instances[j as int], r));
            assert(instances_view(insts@.push(inst)) =~= instances_view(insts@).push(inst@));
            assert(c0.instances.take(j + 1).map_values(|i: InstanceView| redirect_instance(i, r))
                =~= c0.instances.take(j as int).map_values(
                |i: InstanceView| redirect_instance(i, r),
            ).push(redirect_instance(c0.instances[j as int], r)));
        }
        insts.push(inst);
        j = j + 1;
    }
    proof {
        assert(c0.instances.take(cfg.instances.len() as int) =~= c0.instances);
        let hs = dedupe_scan(c0.homes).0;
        assert forall|i: int|
            0 <= i < c0.instances.len() && has_home(
                c0.homes,
                (#[trigger] c0.instances[i]).home_id,
            ) implies has_home(hs, redirect_instance(c0.instances[i], r).home_id) by {
            let t = choose|t: int| 0 <= t < c0.homes.len() && (#[trigger] c0.homes[t]).id
                == c0.instances[i].home_id;
            assert(has_home(hs, c0.homes[t].id) || redirect_of(r, c0.homes[t].id) is Some);
        }
    }
    cfg.homes = kept;
    cfg.instances = insts;
}


/// The `~/.dsh` HOME record the launcher adds when that directory exists.
pub open spec fn user_dsh_home(path: Seq<char>) -> HomeView {
    HomeView { id: "home-user-dsh"@, name: "用户默认 (~/.dsh)"@, path }
}

/// `homes` with a record for the existing `~/.dsh` directory `dsh` (if any),
/// unless a record already points at that path.
pub open spec fn with_user_dsh_home(homes: Seq<HomeView>, dsh: Option<Seq<char>>) -> Seq<
    HomeView,
> {
    match dsh {
        None => homes,
        Some(p) => if find_same_path(homes, p) >= 0 {
            homes
        } else {
            homes.push(user_dsh_home(p))
        },
    }
}

/// If the user's home directory contains a `.dsh` folder (`dsh_dir`, given
/// only when it exists), make sure a HOME record points at it.
pub fn ensure_user_dsh_home(cfg: &mut Config, dsh_dir: Option<String>)
    ensures
        final(cfg)@.homes == with_user_dsh_home(old(cfg)@.homes, opt_view(dsh_dir)),
        final(cfg)@.versions == old(cfg)@.versions,
        final(cfg)@.instances == old(cfg)@.instances,
        final(cfg)@.settings == old(cfg)@.settings,
{
    let dsh = match dsh_dir {
        Some(d) => d,
        None => return,
    };
    if find_same_path_exec(&cfg.homes, &dsh).is_some() {
        return;
    }
    let h = DshHome {
        id: String::from_str("home-user-dsh"),
        name: String::from_str("用户默认 (~/.dsh)"),
        path: dsh,
    };
    proof {
        assert(homes_view(cfg.homes@.push(h)) =~= homes_view(cfg.homes@).push(h@));
    }
    cfg.homes.push(h);
}

/// Adding the `~/.dsh` HOME is idempotent: a second pass finds the record the
/// first one added.
pub proof fn lemma_user_dsh_home_idempotent(homes: Seq<HomeView>, dsh: Option<Seq<char>>)
    ensures
        with_user_dsh_home(with_user_dsh_home(homes, dsh), dsh) == with_user_dsh_home(homes, dsh),
{
    match dsh {
        None => {},
        Some(p) => {
            if find_same_path(homes, p) < 0 {
                let h2 = homes.push(user_dsh_home(p));
                assert(h2.drop_last() =~= homes);
                lemma_find_same_path(homes, p);
                assert(same_path(h2.last().path, p));
                assert(find_same_path(h2, p) >= 0);
            }
        },
    }
}

// ---------------------------------------------------------------------------
// The 1-version-1-instance contract
// ---------------------------------------------------------------------------

/// `<data_dir>/homes/<sanitized version>`: the dedicated HOME of a version.
pub open spec fn dedicated_home_path(data_dir: Seq<char>, version: Seq<char>) -> Seq<char> {
    path_join(path_join(data_dir, "homes"@), sanitized(version))
}

/// Index of the first instance of the version `vid`, or -1.
pub open spec fn find_version_instance(insts: Seq<InstanceView>, vid: Seq<char>) -> int
    decreases insts.len(),
{
    if insts.len() == 0 {
        -1
    } else {
        let f = find_version_instance(insts.drop_last(), vid);
        if f >= 0 {
            f
        } else if insts.last().version_id == vid {
            insts.len() - 1
        } else {
            -1
        }
    }
}

/// The instance created for a version that has none.
pub open spec fn new_version_instance(id: Seq<char>, v: VersionView, home_id: Seq<char>) -> InstanceView {
    InstanceView {
        id,
        name: v.version,
        version_id: v.id,
        home_id,
        env_overrides: seq![],
        default_profile: Some("web"@),
        last_profile: None,
        icon: None,
        port: None,
    }
}

/// One version of the migration: find or create its dedicated HOME (`hid`
/// names a created one), then make its first instance carry the version as
/// its name and a valid HOME, or create that instance (`iid`). The flag
/// records whether anything changed.
pub open spec fn migrate_step(
    st: (Seq<HomeView>, Seq<InstanceView>, bool),
    v: VersionView,
    data_dir: Seq<char>,
    hid: Seq<char>,
    iid: Seq<char>,
) -> (Seq<HomeView>, Seq<InstanceView>, bool) {
    let p = dedicated_home_path(data_dir, v.version);
    let f = find_same_path(st.0, p);
    let homes1 = if f >= 0 {
        st.0
    } else {
        st.0.push(HomeView { id: hid, name: v.version, path: p })
    };
    let home_id = if f >= 0 {
        st.0[f].id
    } else {
        hid
    };
    let m1 = st.2 || f < 0;
    let g = find_version_instance(st.1, v.id);
    if g >= 0 {
        let i0 = st.1[g];
        let renamed = i0.name != v.version;
        let rehome = !has_home(homes1, i0.home_id);
        let i1 = InstanceView { name: v.version, ..i0 };
        let i2 = if rehome {
            InstanceView { home_id, ..i1 }
        } else {
            i1
        };
        (homes1, st.1.update(g, i2), m1 || renamed || rehome)
    } else {
        (homes1, st.1.push(new_version_instance(iid, v, home_id)), true)
    }
}

pub open spec fn migrate_scan(
    vs: Seq<VersionView>,
    data_dir: Seq<char>,
    hids: Seq<Seq<char>>,
    iids: Seq<Seq<char>>,
    init: (Seq<HomeView>, Seq<InstanceView>, bool),
) -> (Seq<HomeView>, Seq<InstanceView>, bool)
    decreases vs.len(),
{
    if vs.len() == 0 {
        init
    } else {
        migrate_step(
            migrate_scan(vs.drop_last(), data_dir, hids, iids, init),
            vs.last(),
            data_dir,
            hids[vs.len() - 1],
            iids[vs.len() - 1],
        )
    }
}

/// `insts` without the instances whose version is not installed and
/// without every instance of a version after its first (one version, one
/// instance).
pub open spec fn retain_installed(insts: Seq<InstanceView>, vs: Seq<VersionView>) -> Seq<
    InstanceView,
>
    decreases insts.len(),
{
    if insts.len() == 0 {
        seq![]
    } else {
        let r = retain_installed(insts.drop_last(), vs);
        if has_version(vs, insts.last().version_id) && find_version_instance(
            r,
            insts.last().version_id,
        ) < 0 {
            r.push(insts.last())
        } else {
            r
        }
    }
}

/// No two instances share a version.
pub open spec fn one_per_version(insts: Seq<InstanceView>) -> bool {
    forall|i: int, j: int|
        0 <= i < j < insts.len() ==> (#[trigger] insts[i]).version_id != (#[trigger] insts[j]).version_id
}

proof fn lemma_find_version_instance_none(insts: Seq<InstanceView>, vid: Seq<char>)
    ensures
        find_version_instance(insts, vid) < 0 <==> forall|i: int|
            0 <= i < insts.len() ==> (#[trigger] insts[i]).version_id != vid,
    decreases insts.len(),
{
    if insts.len() > 0 {
        lemma_find_version_instance_none(insts.drop_last(), vid);
        lemma_find_version_instance(insts, vid);
        if find_version_instance(insts, vid) < 0 {
            assert forall|i: int| 0 <= i < insts.len() implies (#[trigger] insts[i]).version_id
                != vid by {
                if i < insts.len() - 1 {
                    assert(insts[i] == insts.drop_last()[i]);
                }
            }
        }
    }
}

/// The migration's result: homes, instances, and whether anything changed.
pub open spec fn migrated(
    c: ConfigView,
    data_dir: Seq<char>,
    hids: Seq<Seq<char>>,
    iids: Seq<Seq<char>>,
) -> (Seq<HomeView>, Seq<InstanceView>, bool) {
    let kept = retain_installed(c.instances, c.versions);
    migrate_scan(c.versions, data_dir, hids, iids, (c.homes, kept, kept.len() != c.instances.len()))
}


proof fn lemma_find_version_instance(insts: Seq<InstanceView>, vid: Seq<char>)
    ensures
        -1 <= find_version_instance(insts, vid) < insts.len(),
        find_version_instance(insts, vid) >= 0 ==> insts[find_version_instance(
            insts,
            vid,
        )].version_id == vid,
    decreases insts.len(),
{
    if insts.len() > 0 {
        lemma_find_version_instance(insts.drop_last(), vid);
        let f = find_version_instance(insts.drop_last(), vid);
        if f >= 0 {
            assert(insts.drop_last()[f] == insts[f]);
        }
    }
}

proof fn lemma_find_version_instance_prefix(insts: Seq<InstanceView>, vid: Seq<char>, k: int)
    requires
        0 <= k < insts.len(),
        find_version_instance(insts.take(k), vid) == -1,
        insts[k].version_id == vid,
    ensures
        find_version_instance(insts, vid) == k,
    decreases insts.len(),
{
    assert(insts.take(k + 1).drop_last() =~= insts.take(k));
    assert(find_version_instance(insts.take(k + 1), vid) == k);
    if insts.len() > k + 1 {
        assert(insts.drop_last().take(k) =~= insts.take(k));
        lemma_find_version_instance_prefix(insts.drop_last(), vid, k);
    } else {
        assert(insts.take(k + 1) =~= insts);
    }
}

fn find_version_instance_exec(insts: &Vec<DshInstance>, vid: &String) -> (r: Option<usize>)
    ensures
        match r {
            Some(e) => e as int == find_version_instance(instances_view(insts@), vid@),
            None => find_version_instance(instances_view(insts@), vid@) == -1,
        },
{
    let mut k: usize = 0;
    while k < insts.len()
        invariant
            k <= insts.len(),
            find_version_instance(instances_view(insts@).take(k as int), vid@) == -1,
        decreases insts.len() - k,
    {
        proof {
            assert(instances_view(insts@).take(k + 1).drop_last() =~= instances_view(insts@).take(
                k as int,
            ));
        }
        if insts[k].version_id == *vid {
            proof {
                lemma_find_version_instance_prefix(instances_view(insts@), vid@, k as int);
            }
            return Some(k);
        }
        k = k + 1;
    }
    assert(instances_view(insts@).take(insts.len() as int) =~= instances_view(insts@));
    None
}

proof fn lemma_retain_installed(insts: Seq<InstanceView>, vs: Seq<VersionView>)
    ensures
        retain_installed(insts, vs).len() <= insts.len(),
        retain_installed(insts, vs).len() == insts.len() ==> retain_installed(insts, vs) == insts,
        forall|i: int|
            0 <= i < retain_installed(insts, vs).len() ==> has_version(
                vs,
                (#[trigger] retain_installed(insts, vs)[i]).version_id,
            ),
        one_per_version(retain_installed(insts, vs)),
    decreases insts.len(),
{
    if insts.len() > 0 {
        lemma_retain_installed(insts.drop_last(), vs);
        let r = retain_installed(insts.drop_last(), vs);
        lemma_find_version_instance_none(r, insts.last().version_id);
        if has_version(vs, insts.last().version_id) && find_version_instance(
            r,
            insts.last().version_id,
        ) < 0 {
            let r2 = r.push(insts.last());
            assert forall|i: int, j: int| 0 <= i < j < r2.len() implies (#[trigger] r2[i]).version_id
                != (#[trigger] r2[j]).version_id by {
                assert(r2[i] == r[i]);
                if j < r.len() {
                    assert(r2[j] == r[j]);
                }
            }
            if r.len() == insts.len() - 1 {
                assert(r == insts.drop_last());
                assert(r.push(insts.last()) =~= insts);
            }
            assert forall|i: int| 0 <= i < r.push(insts.last()).len() implies has_version(
                vs,
                (#[trigger] r.push(insts.last())[i]).version_id,
            ) by {
                if i < r.len() {
                    assert(r.push(insts.last())[i] == r[i]);
                }
            }
        }
    }
}

/// Every instance names an installed version.
pub open spec fn all_installed(insts: Seq<InstanceView>, vs: Seq<VersionView>) -> bool {
    forall|i: int| 0 <= i < insts.len() ==> has_version(vs, (#[trigger] insts[i]).version_id)
}

/// The version `vid` has an instance whose HOME exists.
pub open spec fn version_housed(
    homes: Seq<HomeView>,
    insts: Seq<InstanceView>,
    vid: Seq<char>,
) -> bool {
    exists|i: int|
        0 <= i < insts.len() && (#[trigger] insts[i]).version_id == vid && has_home(
            homes,
            insts[i].home_id,
        )
}

proof fn lemma_migrate_scan(
    all: Seq<VersionView>,
    n: int,
    data_dir: Seq<char>,
    hids: Seq<Seq<char>>,
    iids: Seq<Seq<char>>,
    init: (Seq<HomeView>, Seq<InstanceView>, bool),
)
    requires
        0 <= n <= all.len(),
        hids.len() >= all.len(),
        iids.len() >= all.len(),
        all_installed(init.1, all),
    ensures
        ({
            let r = migrate_scan(all.take(n), data_dir, hids, iids, init);
            &&& all_installed(r.1, all)
            &&& forall|t: int| 0 <= t < n ==> version_housed(r.0, r.1, (#[trigger] all[t]).id)
            &&& forall|id: Seq<char>| has_home(init.0, id) ==> has_home(r.0, id)
            &&& init.2 ==> r.2
            &&& !r.2 ==> r.0 == init.0 && r.1 == init.1
        }),
    decreases n,
{
    if n > 0 {
        lemma_migrate_scan(all, n - 1, data_dir, hids, iids, init);
        let vs = all.take(n);
        assert(vs.drop_last() =~= all.take(n - 1));
        assert(vs.last() == all[n - 1]);
        let prev = migrate_scan(all.take(n - 1), data_dir, hids, iids, init);
        let v = all[n - 1];
        let p = dedicated_home_path(data_dir, v.version);
        lemma_find_same_path(prev.0, p);
        let f = find_same_path(prev.0, p);
        let homes1 = if f >= 0 {
            prev.0
        } else {
            prev.0.push(HomeView { id: hids[n - 1], name: v.version, path: p })
        };
        let home_id = if f >= 0 {
            prev.0[f].id
        } else {
            hids[n - 1]
        };
        assert forall|id: Seq<char>| has_home(prev.0, id) implies has_home(homes1, id) by {
            let i = choose|i: int| 0 <= i < prev.0.len() && (#[trigger] prev.0[i]).id == id;
            assert(homes1[i] == prev.0[i]);
        }
        assert(has_home(homes1, home_id)) by {
            if f >= 0 {
                assert(homes1[f] == prev.0[f]);
            } else {
                assert(homes1[prev.0.len() as int].id == hids[n - 1]);
            }
        }
        lemma_find_version_instance(prev.1, v.id);
        let g = find_version_instance(prev.1, v.id);
        let r = migrate_scan(vs, data_dir, hids, iids, init);
        assert(has_version(all, v.id)) by {
            assert(all[n - 1].id == v.id);
        }
        if g >= 0 {
            let i0 = prev.1[g];
            let rehome = !has_home(homes1, i0.home_id);
            let i1 = InstanceView { name: v.version, ..i0 };
            let i2 = if rehome {
                InstanceView { home_id, ..i1 }
            } else {
                i1
            };
            assert(r.1 == prev.1.update(g, i2));
            assert(has_home(r.0, i2.home_id));
            assert forall|i: int| 0 <= i < r.1.len() implies has_version(
                all,
                (#[trigger] r.1[i]).version_id,
            ) by {
                if i != g {
                    assert(r.1[i] == prev.1[i]);
                }
            }
            assert forall|t: int| 0 <= t < n implies version_housed(
                r.0,
                r.1,
                (#[trigger] all[t]).id,
            ) by {
                if t == n - 1 {
                    assert(r.1[g].version_id == all[t].id);
                } else {
                    let w = choose|w: int|
                        0 <= w < prev.1.len() && (#[trigger] prev.1[w]).version_id == all[t].id
                            && has_home(prev.0, prev.1[w].home_id);
                    if w == g {
                        assert(r.1[w].version_id == all[t].id);
                    } else {
                        assert(r.1[w] == prev.1[w]);
                        assert(has_home(homes1, prev.1[w].home_id));
                    }
                }
            }
            if !r.2 {
                assert(i2 == i0);
                assert(prev.1.update(g, i0) =~= prev.1);
            }
        } else {
            let ni = new_version_instance(iids[n - 1], v, home_id);
            assert(r.1 == prev.1.push(ni));
            assert forall|i: int| 0 <= i < r.1.len() implies has_version(
                all,
                (#[trigger] r.1[i]).version_id,
            ) by {
                if i < prev.1.len() {
                    assert(r.1[i] == prev.1[i]);
                }
            }
            assert forall|t: int| 0 <= t < n implies version_housed(
                r.0,
                r.1,
                (#[trigger] all[t]).id,
            ) by {
                if t == n - 1 {
                    assert(r.1[prev.1.len() as int] == ni);
                } else {
                    let w = choose|w: int|
                        0 <= w < prev.1.len() && (#[trigger] prev.1[w]).version_id == all[t].id
                            && has_home(prev.0, prev.1[w].home_id);
                    assert(r.1[w] == prev.1[w]);
                    assert(has_home(homes1, prev.1[w].home_id));
                }
            }
        }
    } else {
        assert(all.take(0) =~= Seq::<VersionView>::empty());
    }
}


/// The migration never gives a version a second instance.
proof fn lemma_migrate_scan_unique(
    vs: Seq<VersionView>,
    data_dir: Seq<char>,
    hids: Seq<Seq<char>>,
    iids: Seq<Seq<char>>,
    init: (Seq<HomeView>, Seq<InstanceView>, bool),
)
    requires
        hids.len() >= vs.len(),
        iids.len() >= vs.len(),
        one_per_version(init.1),
    ensures
        one_per_version(migrate_scan(vs, data_dir, hids, iids, init).1),
    decreases vs.len(),
{
    if vs.len() > 0 {
        lemma_migrate_scan_unique(vs.drop_last(), data_dir, hids, iids, init);
        let prev = migrate_scan(vs.drop_last(), data_dir, hids, iids, init);
        let v = vs.last();
        let r = migrate_scan(vs, data_dir, hids, iids, init);
        lemma_find_version_instance(prev.1, v.id);
        lemma_find_version_instance_none(prev.1, v.id);
        let g = find_version_instance(prev.1, v.id);
        if g >= 0 {
            assert(r.1.len() == prev.1.len());
            assert forall|i: int| 0 <= i < r.1.len() implies (#[trigger] r.1[i]).version_id
                == prev.1[i].version_id by {}
            assert forall|i: int, j: int| 0 <= i < j < r.1.len() implies (#[trigger] r.1[i]).version_id
                != (#[trigger] r.1[j]).version_id by {
                assert(r.1[i].version_id == prev.1[i].version_id);
                assert(r.1[j].version_id == prev.1[j].version_id);
            }
        } else {
            assert forall|i: int, j: int| 0 <= i < j < r.1.len() implies (#[trigger] r.1[i]).version_id
                != (#[trigger] r.1[j]).version_id by {
                assert(r.1[i] == prev.1[i]);
                if j < prev.1.len() {
                    assert(r.1[j] == prev.1[j]);
                } else {
                    assert(r.1[j].version_id == v.id);
                }
            }
        }
    }
}

/// `migrate_scan` reads only the ids of the versions it has reached.
proof fn lemma_migrate_scan_ids(
    vs: Seq<VersionView>,
    data_dir: Seq<char>,
    hids: Seq<Seq<char>>,
    iids: Seq<Seq<char>>,
    hids2: Seq<Seq<char>>,
    iids2: Seq<Seq<char>>,
    init: (Seq<HomeView>, Seq<InstanceView>, bool),
)
    requires
        hids.len() >= vs.len(),
        iids.len() >= vs.len(),
        hids2.len() >= vs.len(),
        iids2.len() >= vs.len(),
        hids.take(vs.len() as int) == hids2.take(vs.len() as int),
        iids.take(vs.len() as int) == iids2.take(vs.len() as int),
    ensures
        migrate_scan(vs, data_dir, hids, iids, init) == migrate_scan(
            vs,
            data_dir,
            hids2,
            iids2,
            init,
        ),
    decreases vs.len(),
{
    if vs.len() > 0 {
        let n = vs.len() as int;
        assert(hids.take(n - 1) =~= hids.take(n).take(n - 1));
        assert(hids2.take(n - 1) =~= hids2.take(n).take(n - 1));
        assert(iids.take(n - 1) =~= iids.take(n).take(n - 1));
        assert(iids2.take(n - 1) =~= iids2.take(n).take(n - 1));
        assert(hids[n - 1] == hids.take(n)[n - 1]);
        assert(hids2[n - 1] == hids2.take(n)[n - 1]);
        assert(iids[n - 1] == iids.take(n)[n - 1]);
        assert(iids2[n - 1] == iids2.take(n)[n - 1]);
        lemma_migrate_scan_ids(vs.drop_last(), data_dir, hids, iids, hids2, iids2, init);
    }
}

/// What the migration guarantees of any configuration: every instance left
/// names an installed version, every installed version has an instance
/// whose HOME record exists, no two instances share a version (so each
/// installed version has exactly one), no HOME record is lost, and a
/// migration that reports no change left the records as they were.
pub proof fn lemma_migration_laws(
    c: ConfigView,
    data_dir: Seq<char>,
    hids: Seq<Seq<char>>,
    iids: Seq<Seq<char>>,
)
    requires
        hids.len() >= c.versions.len(),
        iids.len() >= c.versions.len(),
    ensures
        ({
            let r = migrated(c, data_dir, hids, iids);
            &&& all_installed(r.1, c.versions)
            &&& forall|t: int|
                0 <= t < c.versions.len() ==> version_housed(r.0, r.1, (#[trigger] c.versions[t]).id)
            &&& one_per_version(r.1)
            &&& forall|id: Seq<char>| has_home(c.homes, id) ==> has_home(r.0, id)
            &&& !r.2 ==> r.0 == c.homes && r.1 == c.instances
        }),
{
    let kept = retain_installed(c.instances, c.versions);
    lemma_retain_installed(c.instances, c.versions);
    lemma_migrate_scan_unique(c.versions, data_dir, hids, iids, (c.homes, kept, kept.len() != c.instances.len()));
    let init = (c.homes, kept, kept.len() != c.instances.len());
    lemma_migrate_scan(c.versions, c.versions.len() as int, data_dir, hids, iids, init);
    assert(c.versions.take(c.versions.len() as int) =~= c.versions);
}

// ---------------------------------------------------------------------------
// The migration settles after one run
// ---------------------------------------------------------------------------

/// After the migration has handled the first `n` versions: each has a HOME
/// at its dedicated path, and its first instance carries the version as its
/// name and refers to an existing HOME.
pub open spec fn settled(
    homes: Seq<HomeView>,
    insts: Seq<InstanceView>,
    vs: Seq<VersionView>,
    n: int,
    data_dir: Seq<char>,
) -> bool {
    forall|t: int|
        0 <= t < n ==> {
            let g = find_version_instance(insts, (#[trigger] vs[t]).id);
            &&& find_same_path(homes, dedicated_home_path(data_dir, vs[t].version)) >= 0
            &&& g >= 0
            &&& insts[g].name == vs[t].version
            &&& has_home(homes, insts[g].home_id)
        }
}

proof fn lemma_find_same_path_push(h: Seq<HomeView>, x: HomeView, p: Seq<char>)
    ensures
        find_same_path(h, p) >= 0 ==> find_same_path(h.push(x), p) == find_same_path(h, p),
        find_same_path(h.push(x), x.path) >= 0,
{
    assert(h.push(x).drop_last() =~= h);
    assert(h.push(x).last() == x);
}

proof fn lemma_has_home_push(h: Seq<HomeView>, x: HomeView, id: Seq<char>)
    ensures
        has_home(h, id) ==> has_home(h.push(x), id),
        has_home(h.push(x), x.id),
{
    if has_home(h, id) {
        let i = choose|i: int| 0 <= i < h.len() && (#[trigger] h[i]).id == id;
        assert(h.push(x)[i] == h[i]);
    }
    assert(h.push(x)[h.len() as int] == x);
}

proof fn lemma_find_version_instance_push(insts: Seq<InstanceView>, x: InstanceView, vid: Seq<char>)
    ensures
        find_version_instance(insts, vid) >= 0 ==> find_version_instance(insts.push(x), vid)
            == find_version_instance(insts, vid),
        find_version_instance(insts, vid) < 0 && x.version_id == vid ==> find_version_instance(
            insts.push(x),
            vid,
        ) == insts.len(),
{
    assert(insts.push(x).drop_last() =~= insts);
    assert(insts.push(x).last() == x);
}

proof fn lemma_find_version_instance_update(
    insts: Seq<InstanceView>,
    g: int,
    y: InstanceView,
    vid: Seq<char>,
)
    requires
        0 <= g < insts.len(),
        y.version_id == insts[g].version_id,
    ensures
        find_version_instance(insts.update(g, y), vid) == find_version_instance(insts, vid),
    decreases insts.len(),
{
    let u = insts.update(g, y);
    if g == insts.len() - 1 {
        assert(u.drop_last() =~= insts.drop_last());
    } else {
        assert(u.drop_last() =~= insts.drop_last().update(g, y));
        lemma_find_version_instance_update(insts.drop_last(), g, y, vid);
        assert(u.last() == insts.last());
    }
}

/// Version records that share an id name the same version (records that
/// are merely repeated are allowed).
pub open spec fn same_id_same_version(vs: Seq<VersionView>) -> bool {
    forall|i: int, j: int|
        0 <= i < vs.len() && 0 <= j < vs.len() && (#[trigger] vs[i]).id == (#[trigger] vs[j]).id
            ==> vs[i].version == vs[j].version
}

proof fn lemma_migrate_settles_step(
    st: (Seq<HomeView>, Seq<InstanceView>, bool),
    all: Seq<VersionView>,
    n: int,
    data_dir: Seq<char>,
    hid: Seq<char>,
    iid: Seq<char>,
)
    requires
        0 < n <= all.len(),
        same_id_same_version(all),
        settled(st.0, st.1, all, n - 1, data_dir),
    ensures
        ({
            let r = migrate_step(st, all[n - 1], data_dir, hid, iid);
            settled(r.0, r.1, all, n, data_dir)
        }),
{
    let v = all[n - 1];
    let r = migrate_step(st, v, data_dir, hid, iid);
    let p = dedicated_home_path(data_dir, v.version);
    let f = find_same_path(st.0, p);
    let nh = HomeView { id: hid, name: v.version, path: p };
    let homes1 = if f >= 0 { st.0 } else { st.0.push(nh) };
    let home_id = if f >= 0 { st.0[f].id } else { hid };
    lemma_find_same_path(st.0, p);
    lemma_find_same_path_push(st.0, nh, p);
    assert(r.0 == homes1);
    assert(has_home(homes1, home_id)) by {
        if f >= 0 {
            assert(st.0[f].id == home_id);
        } else {
            lemma_has_home_push(st.0, nh, hid);
        }
    }
    let g = find_version_instance(st.1, v.id);
    lemma_find_version_instance(st.1, v.id);
    assert forall|t: int| 0 <= t < n implies {
        let gt = find_version_instance(r.1, (#[trigger] all[t]).id);
        &&& find_same_path(r.0, dedicated_home_path(data_dir, all[t].version)) >= 0
        &&& gt >= 0
        &&& r.1[gt].name == all[t].version
        &&& has_home(r.0, r.1[gt].home_id)
    } by {
        let pt = dedicated_home_path(data_dir, all[t].version);
        if t < n - 1 && all[t].id == v.id {
            assert(all[t].version == v.version);
            lemma_find_same_path_push(st.0, nh, pt);
            if g >= 0 {
                let i0 = st.1[g];
                let i1 = InstanceView { name: v.version, ..i0 };
                let rehome = !has_home(homes1, i0.home_id);
                let i2 = if rehome { InstanceView { home_id, ..i1 } } else { i1 };
                assert(r.1 == st.1.update(g, i2));
                lemma_find_version_instance_update(st.1, g, i2, v.id);
                assert(r.1[g] == i2);
            } else {
                let ni = new_version_instance(iid, v, home_id);
                assert(r.1 == st.1.push(ni));
                lemma_find_version_instance_push(st.1, ni, v.id);
                assert(r.1[st.1.len() as int] == ni);
            }
        } else if t < n - 1 {
            assert(all[t].id != v.id);
            let g0 = find_version_instance(st.1, all[t].id);
            lemma_find_version_instance(st.1, all[t].id);
            lemma_find_same_path_push(st.0, nh, pt);
            lemma_has_home_push(st.0, nh, st.1[g0].home_id);
            if g >= 0 {
                let i0 = st.1[g];
                let i1 = InstanceView { name: v.version, ..i0 };
                let i2 = if !has_home(homes1, i0.home_id) { InstanceView { home_id, ..i1 } } else { i1 };
                assert(r.1 == st.1.update(g, i2));
                lemma_find_version_instance_update(st.1, g, i2, all[t].id);
                assert(g0 != g);
                assert(r.1[g0] == st.1[g0]);
            } else {
                let ni = new_version_instance(iid, v, home_id);
                assert(r.1 == st.1.push(ni));
                lemma_find_version_instance_push(st.1, ni, all[t].id);
                assert(r.1[g0] == st.1[g0]);
            }
        } else {
            assert(t == n - 1 && all[t] == v);
            if g >= 0 {
                let i0 = st.1[g];
                let i1 = InstanceView { name: v.version, ..i0 };
                let i2 = if !has_home(homes1, i0.home_id) { InstanceView { home_id, ..i1 } } else { i1 };
                assert(r.1 == st.1.update(g, i2));
                lemma_find_version_instance_update(st.1, g, i2, v.id);
                assert(r.1[g] == i2);
            } else {
                let ni = new_version_instance(iid, v, home_id);
                assert(r.1 == st.1.push(ni));
                lemma_find_version_instance_push(st.1, ni, v.id);
                assert(r.1[st.1.len() as int] == ni);
            }
        }
    }
}

proof fn lemma_migrate_settles(
    all: Seq<VersionView>,
    n: int,
    data_dir: Seq<char>,
    hids: Seq<Seq<char>>,
    iids: Seq<Seq<char>>,
    init: (Seq<HomeView>, Seq<InstanceView>, bool),
)
    requires
        0 <= n <= all.len(),
        hids.len() >= all.len(),
        iids.len() >= all.len(),
        same_id_same_version(all),
    ensures
        ({
            let r = migrate_scan(all.take(n), data_dir, hids, iids, init);
            settled(r.0, r.1, all, n, data_dir)
        }),
    decreases n,
{
    if n > 0 {
        lemma_migrate_settles(all, n - 1, data_dir, hids, iids, init);
        assert(all.take(n).drop_last() =~= all.take(n - 1));
        assert(all.take(n).last() == all[n - 1]);
        let prev = migrate_scan(all.take(n - 1), data_dir, hids, iids, init);
        lemma_migrate_settles_step(prev, all, n, data_dir, hids[n - 1], iids[n - 1]);
    }
}

proof fn lemma_migrate_fixed(
    all: Seq<VersionView>,
    n: int,
    data_dir: Seq<char>,
    hids: Seq<Seq<char>>,
    iids: Seq<Seq<char>>,
    homes: Seq<HomeView>,
    insts: Seq<InstanceView>,
)
    requires
        0 <= n <= all.len(),
        hids.len() >= all.len(),
        iids.len() >= all.len(),
        settled(homes, insts, all, all.len() as int, data_dir),
    ensures
        migrate_scan(all.take(n), data_dir, hids, iids, (homes, insts, false)) == (homes, insts, false),
    decreases n,
{
    if n > 0 {
        lemma_migrate_fixed(all, n - 1, data_dir, hids, iids, homes, insts);
        assert(all.take(n).drop_last() =~= all.take(n - 1));
        assert(all.take(n).last() == all[n - 1]);
        let v = all[n - 1];
        assert(settled(homes, insts, all, all.len() as int, data_dir));
        let g = find_version_instance(insts, v.id);
        lemma_find_version_instance(insts, v.id);
        let i0 = insts[g];
        assert(InstanceView { name: v.version, ..i0 } == i0);
        assert(insts.update(g, i0) =~= insts);
    }
}

proof fn lemma_retain_all_installed(insts: Seq<InstanceView>, vs: Seq<VersionView>)
    requires
        all_installed(insts, vs),
        one_per_version(insts),
    ensures
        retain_installed(insts, vs) == insts,
    decreases insts.len(),
{
    if insts.len() > 0 {
        let p = insts.drop_last();
        assert(all_installed(p, vs)) by {
            assert forall|i: int| 0 <= i < p.len() implies has_version(
                vs,
                (#[trigger] p[i]).version_id,
            ) by {
                assert(p[i] == insts[i]);
            }
        }
        assert(one_per_version(p)) by {
            assert forall|i: int, j: int| 0 <= i < j < p.len() implies (#[trigger] p[i]).version_id
                != (#[trigger] p[j]).version_id by {
                assert(p[i] == insts[i] && p[j] == insts[j]);
            }
        }
        lemma_retain_all_installed(p, vs);
        lemma_find_version_instance_none(p, insts.last().version_id);
        assert forall|i: int| 0 <= i < p.len() implies (#[trigger] p[i]).version_id
            != insts.last().version_id by {
            assert(p[i] == insts[i]);
            assert(insts[i].version_id != insts[insts.len() - 1].version_id);
        }
        assert(has_version(vs, insts[insts.len() - 1].version_id));
        assert(insts.drop_last().push(insts.last()) =~= insts);
    }
}

/// The migration settles after one run: migrating its result again (with
/// any fresh ids) changes nothing and reports no change, when version
/// records that share an id also name the same version.
pub proof fn lemma_migration_settles(
    c: ConfigView,
    data_dir: Seq<char>,
    hids: Seq<Seq<char>>,
    iids: Seq<Seq<char>>,
    hids2: Seq<Seq<char>>,
    iids2: Seq<Seq<char>>,
)
    requires
        hids.len() >= c.versions.len(),
        iids.len() >= c.versions.len(),
        hids2.len() >= c.versions.len(),
        iids2.len() >= c.versions.len(),
        same_id_same_version(c.versions),
    ensures
        ({
            let r = migrated(c, data_dir, hids, iids);
            let c2 = ConfigView { homes: r.0, instances: r.1, ..c };
            migrated(c2, data_dir, hids2, iids2) == (r.0, r.1, false)
        }),
{
    let all = c.versions;
    let kept = retain_installed(c.instances, all);
    let init = (c.homes, kept, kept.len() != c.instances.len());
    lemma_migrate_settles(all, all.len() as int, data_dir, hids, iids, init);
    assert(all.take(all.len() as int) =~= all);
    lemma_migration_laws(c, data_dir, hids, iids);
    let r = migrated(c, data_dir, hids, iids);
    lemma_retain_all_installed(r.1, all);
    lemma_migrate_fixed(all, all.len() as int, data_dir, hids2, iids2, r.0, r.1);
}

/// A record id made by [`new_id`] with `prefix`: the prefix, a hyphen and
/// the text of a random version-4 UUID.
pub open spec fn is_new_id(id: Seq<char>, prefix: Seq<char>) -> bool {
    &&& id.len() == prefix.len() + 37
    &&& id.take(prefix.len() as int + 1) == prefix + seq!['-']
    &&& uuid_v4_shape(id.skip(prefix.len() as int + 1))
}

/// Whether some HOME record carries the id `id`.
fn has_home_exec(homes: &Vec<DshHome>, id: &String) -> (r: bool)
    ensures
        r == has_home(homes_view(homes@), id@),
{
    let mut k: usize = 0;
    while k < homes.len()
        invariant
            k <= homes.len(),
            forall|t: int| 0 <= t < k ==> homes_view(homes@)[t].id != id@,
        decreases homes.len() - k,
    {
        if homes[k].id == *id {
            assert(homes_view(homes@)[k as int].id == id@);
            return true;
        }
        k = k + 1;
    }
    false
}

/// Whether some version record carries the id `id`.
fn has_version_exec(versions: &Vec<DshVersion>, id: &String) -> (r: bool)
    ensures
        r == has_version(versions_view(versions@), id@),
{
    let mut k: usize = 0;
    while k < versions.len()
        invariant
            k <= versions.len(),
            forall|t: int| 0 <= t < k ==> versions_view(versions@)[t].id != id@,
        decreases versions.len() - k,
    {
        if versions[k].id == *id {
            assert(versions_view(versions@)[k as int].id == id@);
            return true;
        }
        k = k + 1;
    }
    false
}

/// Enforces the 1-version-1-instance contract and moves instances to the
/// dedicated HOME of their version under `<data_dir>/homes/<version>`:
/// instances of versions that are gone are dropped, and so is every
/// instance of a version after its first; every version gets its
/// dedicated HOME record (found by path, or created with a fresh `h-` id)
/// and an instance (its first one is renamed after the version and, if its
/// HOME record is missing, pointed at the dedicated HOME; if it has none, a
/// new one with a fresh `i-` id and the `web` profile is created). Returns
/// whether anything changed.
pub fn migrate_instances_to_dedicated_homes(data_dir: &str, cfg: &mut Config) -> (changed: bool)
    ensures
        exists|hids: Seq<Seq<char>>, iids: Seq<Seq<char>>|
            #![trigger migrated(old(cfg)@, data_dir@, hids, iids)]
            hids.len() == old(cfg)@.versions.len() && iids.len() == old(cfg)@.versions.len()
                && (final(cfg)@.homes, final(cfg)@.instances, changed) == migrated(
                old(cfg)@,
                data_dir@,
                hids,
                iids,
            ),
        final(cfg)@.versions == old(cfg)@.versions,
        final(cfg)@.settings == old(cfg)@.settings,
        final(cfg)@.homes.len() >= old(cfg)@.homes.len(),
        final(cfg)@.homes.take(old(cfg)@.homes.len() as int) == old(cfg)@.homes,
        forall|t: int|
            old(cfg)@.homes.len() <= t < final(cfg)@.homes.len() ==> is_new_id(
                #[trigger] final(cfg)@.homes[t].id,
                "h"@,
            ),
        forall|t: int|
            retain_installed(old(cfg)@.instances, old(cfg)@.versions).len() <= t
                < final(cfg)@.instances.len() ==> is_new_id(
                #[trigger] final(cfg)@.instances[t].id,
                "i"@,
            ),
        all_installed(final(cfg)@.instances, final(cfg)@.versions),
        one_per_version(final(cfg)@.instances),
        forall|t: int|
            0 <= t < final(cfg)@.versions.len() ==> version_housed(
                final(cfg)@.homes,
                final(cfg)@.instances,
                (#[trigger] final(cfg)@.versions[t]).id,
            ),
        forall|id: Seq<char>| has_home(old(cfg)@.homes, id) ==> has_home(final(cfg)@.homes, id),
        !changed ==> final(cfg)@ == old(cfg)@,
{
    let ghost c0 = cfg@;
    // 1. Drop the instances whose version is gone.
    let mut kept: Vec<DshInstance> = Vec::new();
    let mut j: usize = 0;
    while j < cfg.instances.len()
        invariant
            j <= cfg.instances.len(),
            cfg@ == c0,
            instances_view(kept@) == retain_installed(c0.instances.take(j as int), c0.versions),
        decreases cfg.instances.len() - j,
    {
        proof {
            assert(c0.instances.take(j + 1).drop_last() =~= c0.instances.take(j as int));
            assert(c0.instances.take(j + 1).last() == c0.instances[j as int]);
        }
        if has_version_exec(&cfg.versions, &cfg.instances[j].version_id)
            && find_version_instance_exec(&kept, &cfg.instances[j].version_id).is_none() {
            let i = cfg.instances[j].copy();
            proof {
                assert(instances_view(kept@.push(i)) =~= instances_view(kept@).push(i@));
            }
            kept.push(i);
        }
        j = j + 1;
    }
    proof {
        assert(c0.instances.take(cfg.instances.len() as int) =~= c0.instances);
        lemma_retain_installed(c0.instances, c0.versions);
    }
    let mut modified = kept.len() != cfg.instances.len();
    cfg.instances = kept;
    let ghost kept_v = retain_installed(c0.instances, c0.versions);
    let ghost init = (c0.homes, kept_v, kept_v.len() != c0.instances.len());
    let ghost mut hids: Seq<Seq<char>> = seq![];
    let ghost mut iids: Seq<Seq<char>> = seq![];
    let homes_seg = String::from_str("homes");
    let homes_root = join_path(data_dir, homes_seg.as_str());
    proof {
        reveal_strlit("homes");
        reveal_strlit("h");
        reveal_strlit("i");
        reveal_strlit("web");
        assert(c0.versions.take(0) =~= Seq::<VersionView>::empty());
        assert(homes_view(cfg.homes@).take(c0.homes.len() as int) =~= c0.homes);
    }
    // 2. Give every version its dedicated HOME and its instance.
    let mut k: usize = 0;
    while k < cfg.versions.len()
        invariant
            k <= cfg.versions.len(),
            cfg@.versions == c0.versions,
            cfg@.settings == c0.settings,
            homes_root@ == path_join(data_dir@, "homes"@),
            hids.len() == k,
            iids.len() == k,
            (cfg@.homes, cfg@.instances, modified) == migrate_scan(
                c0.versions.take(k as int),
                data_dir@,
                hids,
                iids,
                init,
            ),
            cfg@.homes.len() >= c0.homes.len(),
            cfg@.homes.take(c0.homes.len() as int) == c0.homes,
            forall|t: int|
                c0.homes.len() <= t < cfg@.homes.len() ==> is_new_id(
                    #[trigger] cfg@.homes[t].id,
                    "h"@,
                ),
            cfg@.instances.len() >= kept_v.len(),
            forall|t: int|
                kept_v.len() <= t < cfg@.instances.len() ==> is_new_id(
                    #[trigger] cfg@.instances[t].id,
                    "i"@,
                ),
        decreases cfg.versions.len() - k,
    {
        let v = cfg.versions[k].copy();
        let ghost st = (cfg@.homes, cfg@.instances, modified);
        let name = sanitize_name(v.version.as_str());
        let p = join_path(homes_root.as_str(), name.as_str());
        assert(p@ == dedicated_home_path(data_dir@, v@.version));
        let ghost mut hid: Seq<char> = seq![];
        let home_id = match find_same_path_exec(&cfg.homes, &p) {
            Some(e) => {
                proof {
                    lemma_find_same_path(homes_view(cfg.homes@), p@);
                }
                cfg.homes[e].id.clone()
            },
            None => {
                let id = new_id("h");
                proof {
                    hid = id@;
                }
                let h = DshHome { id: id.clone(), name: v.version.clone(), path: p };
                proof {
                    assert(homes_view(cfg.homes@.push(h)) =~= homes_view(cfg.homes@).push(h@));
                }
                cfg.homes.push(h);
                modified = true;
                id
            },
        };
        proof {
            assert(cfg@.homes.take(c0.homes.len() as int) =~= st.0.take(c0.homes.len() as int));
        }
        let ghost mut iid: Seq<char> = seq![];
        match find_version_instance_exec(&cfg.instances, &v.id) {
            Some(g) => {
                proof {
                    lemma_find_version_instance(instances_view(cfg.instances@), v@.id);
                }
                let mut inst = cfg.instances[g].copy();
                if inst.name != v.version {
                    inst.name = v.version.clone();
                    modified = true;
                }
                if !has_home_exec(&cfg.homes, &inst.home_id) {
                    inst.home_id = home_id;
                    modified = true;
                }
                let ghost before = cfg@.instances;
                proof {
                    assert(inst@.id == before[g as int].id);
                    assert(instances_view(cfg.instances@.update(g as int, inst)) =~= instances_view(
                        cfg.instances@,
                    ).update(g as int, inst@));
                }
                cfg.instances.set(g, inst);
                proof {
                    assert forall|t: int|
                        kept_v.len() <= t < cfg@.instances.len() implies is_new_id(
                        #[trigger] cfg@.instances[t].id,
                        "i"@,
                    ) by {
                        assert(cfg@.instances[t].id == before[t].id);
                    }
                }
            },
            None => {
                let id = new_id("i");
                proof {
                    iid = id@;
                }
                let inst = DshInstance {
                    id,
                    name: v.version.clone(),
                    version_id: v.id.clone(),
                    home_id,
                    env_overrides: Vec::new(),
                    default_profile: Some(String::from_str("web")),
                    last_profile: None,
                    icon: None,
                    port: None,
                };
                proof {
                    assert(pairs_view(inst.env_overrides@) =~= Seq::<(Seq<char>, Seq<char>)>::empty());
                    assert(instances_view(cfg.instances@.push(inst)) =~= instances_view(
                        cfg.instances@,
                    ).push(inst@));
                }
                cfg.instances.push(inst);
                modified = true;
            },
        }
        proof {
            let hids2 = hids.push(hid);
            let iids2 = iids.push(iid);
            let vs = c0.versions.take(k + 1);
            assert(vs.drop_last() =~= c0.versions.take(k as int));
            assert(vs.last() == v@);
            assert(hids2.take(k as int) =~= hids.take(k as int));
            assert(iids2.take(k as int) =~= iids.take(k as int));
            assert(hids.take(k as int) =~= hids);
            assert(iids.take(k as int) =~= iids);
            lemma_migrate_scan_ids(vs.drop_last(), data_dir@, hids2, iids2, hids, iids, init);
            assert(hids2[k as int] == hid);
            assert(iids2[k as int] == iid);
            hids = hids2;
            iids = iids2;
        }
        k = k + 1;
    }
    proof {
        assert(c0.versions.take(c0.versions.len() as int) =~= c0.versions);
        lemma_migration_laws(c0, data_dir@, hids, iids);
    }
    modified
}


/// Index of the first instance with the id `id`, or -1.
pub open spec fn instance_index(insts: Seq<InstanceView>, id: Seq<char>) -> int
    decreases insts.len(),
{
    if insts.len() == 0 {
        -1
    } else {
        let f = instance_index(insts.drop_last(), id);
        if f >= 0 {
            f
        } else if insts.last().id == id {
            insts.len() - 1
        } else {
            -1
        }
    }
}

pub proof fn lemma_instance_index(insts: Seq<InstanceView>, id: Seq<char>)
    ensures
        -1 <= instance_index(insts, id) < insts.len(),
        instance_index(insts, id) >= 0 ==> insts[instance_index(insts, id)].id == id,
        instance_index(insts, id) < 0 ==> forall|i: int|
            0 <= i < insts.len() ==> (#[trigger] insts[i]).id != id,
    decreases insts.len(),
{
    if insts.len() > 0 {
        lemma_instance_index(insts.drop_last(), id);
        let f = instance_index(insts.drop_last(), id);
        if f >= 0 {
            assert(insts.drop_last()[f] == insts[f]);
        } else {
            assert forall|i: int| 0 <= i < insts.len() - 1 implies (#[trigger] insts[i]).id != id by {
                assert(insts.drop_last()[i] == insts[i]);
            }
        }
    }
}

proof fn lemma_instance_index_prefix(insts: Seq<InstanceView>, id: Seq<char>, k: int)
    requires
        0 <= k < insts.len(),
        instance_index(insts.take(k), id) == -1,
        insts[k].id == id,
    ensures
        instance_index(insts, id) == k,
    decreases insts.len(),
{
    assert(insts.take(k + 1).drop_last() =~= insts.take(k));
    assert(instance_index(insts.take(k + 1), id) == k);
    if insts.len() > k + 1 {
        assert(insts.drop_last().take(k) =~= insts.take(k));
        lemma_instance_index_prefix(insts.drop_last(), id, k);
    } else {
        assert(insts.take(k + 1) =~= insts);
    }
}

/// Finds the instance with the id `id`.
pub fn find_instance(insts: &Vec<DshInstance>, id: &str) -> (r: Option<usize>)
    ensures
        match r {
            Some(k) => k as int == instance_index(instances_view(insts@), id@),
            None => instance_index(instances_view(insts@), id@) == -1,
        },
{
    let key = String::from_str(id);
    let mut k: usize = 0;
    while k < insts.len()
        invariant
            k <= insts.len(),
            key@ == id@,
            instance_index(instances_view(insts@).take(k as int), id@) == -1,
        decreases insts.len() - k,
    {
        proof {
            assert(instances_view(insts@).take(k + 1).drop_last() =~= instances_view(
                insts@,
            ).take(k as int));
        }
        if insts[k].id == key {
            proof {
                lemma_instance_index_prefix(instances_view(insts@), id@, k as int);
            }
            return Some(k);
        }
        k = k + 1;
    }
    assert(instances_view(insts@).take(insts.len() as int) =~= instances_view(insts@));
    None
}


// ---------------------------------------------------------------------------
// Defaults and the toolchain binding
// ---------------------------------------------------------------------------

/// The default external terminal.
pub fn default_terminal() -> (r: String)
    ensures
        r@ == "system"@,
{
    String::from_str("system")
}

/// The default UI locale.
pub fn default_locale() -> (r: String)
    ensures
        r@ == "zh-CN"@,
{
    String::from_str("zh-CN")
}

/// `true`, the default of switches that start on.
pub fn default_true() -> (r: bool)
    ensures
        r,
{
    true
}

/// The default UI theme (follow the OS setting).
pub fn default_theme() -> (r: String)
    ensures
        r@ == "system"@,
{
    String::from_str("system")
}

/// The default runtime log level.
pub fn default_log_level() -> (r: String)
    ensures
        r@ == "info"@,
{
    String::from_str("info")
}

/// The default proxy URL (without port).
pub fn default_proxy_url() -> (r: String)
    ensures
        r@ == "http://127.0.0.1"@,
{
    String::from_str("http://127.0.0.1")
}

/// The default proxy port.
pub fn default_proxy_port() -> (r: u16)
    ensures
        r == 7890,
{
    7890
}

/// The default hosts that bypass the proxy.
pub fn default_no_proxy() -> (r: String)
    ensures
        r@ == "127.0.0.1,localhost,::1"@,
{
    String::from_str("127.0.0.1,localhost,::1")
}

/// The settings of a fresh configuration.
pub open spec fn default_settings() -> SettingsView {
    SettingsView {
        locale: "zh-CN"@,
        minimize_to_tray: true,
        autostart: false,
        last_instance_id: None,
        theme: "system"@,
        log_level: "info"@,
        proxy_enabled: false,
        proxy_url: "http://127.0.0.1"@,
        proxy_port: 7890,
        no_proxy: "127.0.0.1,localhost,::1"@,
        proxy_apply_dsh: false,
        terminal: "system"@,
        preserve_symlinks: false,
        toolchain: BindingView { node: None, pnpm: None },
    }
}

impl Default for ToolchainBinding {
    fn default() -> (r: ToolchainBinding)
        ensures
            r@ == (BindingView { node: None, pnpm: None }),
    {
        ToolchainBinding { node: None, pnpm: None }
    }
}

impl Default for LauncherSettings {
    fn default() -> (r: LauncherSettings)
        ensures
            r@ == default_settings(),
    {
        LauncherSettings {
            locale: default_locale(),
            minimize_to_tray: default_true(),
            autostart: false,
            last_instance_id: None,
            theme: default_theme(),
            log_level: default_log_level(),
            proxy_enabled: false,
            proxy_url: default_proxy_url(),
            proxy_port: default_proxy_port(),
            no_proxy: default_no_proxy(),
            proxy_apply_dsh: false,
            terminal: default_terminal(),
            preserve_symlinks: false,
            toolchain: ToolchainBinding { node: None, pnpm: None },
        }
    }
}

impl Default for Config {
    fn default() -> (r: Config)
        ensures
            r@.homes.len() == 0,
            r@.versions.len() == 0,
            r@.instances.len() == 0,
            r@.settings == default_settings(),
    {
        let homes: Vec<DshHome> = Vec::new();
        let versions: Vec<DshVersion> = Vec::new();
        let instances: Vec<DshInstance> = Vec::new();
        Config { homes, versions, instances, settings: LauncherSettings::default() }
    }
}

impl ToolchainBinding {
    /// Whether a bound tool is still usable as recorded: it is bound and its
    /// path is still a file (`path_is_file`, looked up by the caller). A
    /// vanished path makes the binding stale, which the resolver treats as
    /// "probe again".
    fn is_fresh(&self, tool: &Option<BoundTool>, path_is_file: bool) -> (r: bool)
        ensures
            r == (tool is Some && path_is_file),
    {
        match tool {
            Some(_) => path_is_file,
            None => false,
        }
    }

    /// Whether the node binding is still usable (`path_is_file`: whether
    /// its recorded path is still a file).
    pub fn node_is_fresh(&self, path_is_file: bool) -> (r: bool)
        ensures
            r == (self.node is Some && path_is_file),
    {
        self.is_fresh(&self.node, path_is_file)
    }

    /// Whether the pnpm binding is still usable (`path_is_file`: whether
    /// its recorded path is still a file).
    pub fn pnpm_is_fresh(&self, path_is_file: bool) -> (r: bool)
        ensures
            r == (self.pnpm is Some && path_is_file),
    {
        self.is_fresh(&self.pnpm, path_is_file)
    }
}

} // verus!
