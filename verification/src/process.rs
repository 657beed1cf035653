//! Instance processes: the registry of running instances and the decisions
//! around starting, adopting, stopping and restarting them.
//!
//! The registry holds one entry per running instance id. Every change goes
//! through the functions here; the application performs the process work
//! (spawning, signals, port probes) and reports back.

use crate::config::{
    instances_view, opt_view, versions_view, Config, ConfigView, DshInstance, DshVersion,
    InstanceState, InstanceStatus, InstanceView, VersionView,
};
use crate::text::{
    append_vec, cat, chars_of, contains, dec, dec_vec, is_ws, lines, slice_vec, split_lines,
    starts_with, str_contains, string_of, trim, trim_vec, vec_eq, view_lines,
};
use crate::toolchain::{all_digits, digits_value, parse_u64, parse_uint};
use vstd::prelude::*;

verus! {

/// The event name instance status updates are emitted under.
pub const STATUS_EVENT: &'static str = "instance://status";

/// The program name npm is run as.
pub fn npm() -> (r: &'static str)
    ensures
        r@ == "npm"@,
{
    "npm"
}

/// The program name node falls back to when no binding is recorded.
pub fn node() -> (r: &'static str)
    ensures
        r@ == "node"@,
{
    "node"
}

/// A DSH process the launcher did not spawn but took over as an instance's
/// running entry (DSH restarted itself on the instance's pinned port).
#[derive(Clone, Debug)]
pub struct Adopted {
    pub pid: i32,
    pub port: u16,
    pub host: String,
}

/// One running instance. The stop signal of a spawned child is kept by the
/// application beside it.
#[derive(Clone, Debug)]
pub struct RunEntry {
    pub id: String,
    pub profile: String,
    pub url: Option<String>,
    pub adopted: Option<Adopted>,
}

pub struct EntryView {
    pub id: Seq<char>,
    pub profile: Seq<char>,
    pub url: Option<Seq<char>>,
    pub adopted_pid: Option<i32>,
    /// The port and host an adopted process was found on.
    pub adopted_at: Option<(u16, Seq<char>)>,
}

impl View for RunEntry {
    type V = EntryView;

    open spec fn view(&self) -> EntryView {
        EntryView {
            id: self.id@,
            profile: self.profile@,
            url: opt_view(self.url),
            adopted_pid: match self.adopted {
                Some(a) => Some(a.pid),
                None => None,
            },
            adopted_at: match self.adopted {
                Some(a) => Some((a.port, a.host@)),
                None => None,
            },
        }
    }
}

pub open spec fn entries_view(v: Seq<RunEntry>) -> Seq<EntryView> {
    v.map_values(|e: RunEntry| e@)
}

/// No two entries share an instance id.
pub open spec fn ids_unique(es: Seq<EntryView>) -> bool {
    forall|i: int, j: int| 0 <= i < j < es.len() ==> es[i].id != es[j].id
}

/// Whether an instance has an entry.
pub open spec fn is_running(es: Seq<EntryView>, id: Seq<char>) -> bool {
    exists|i: int| 0 <= i < es.len() && (#[trigger] es[i]).id == id
}

// ---------------------------------------------------------------------------
// Port owners
// ---------------------------------------------------------------------------

/// ASCII lowercase of one character.
pub open spec fn ascii_lower(c: char) -> char {
    match c {
        'A' => 'a',
        'B' => 'b',
        'C' => 'c',
        'D' => 'd',
        'E' => 'e',
        'F' => 'f',
        'G' => 'g',
        'H' => 'h',
        'I' => 'i',
        'J' => 'j',
        'K' => 'k',
        'L' => 'l',
        'M' => 'm',
        'N' => 'n',
        'O' => 'o',
        'P' => 'p',
        'Q' => 'q',
        'R' => 'r',
        'S' => 's',
        'T' => 't',
        'U' => 'u',
        'V' => 'v',
        'W' => 'w',
        'X' => 'x',
        'Y' => 'y',
        'Z' => 'z',
        _ => c,
    }
}

/// ASCII lowercase of one character.
pub fn ascii_lower_exec(c: char) -> (r: char)
    ensures
        r == ascii_lower(c),
{
    match c {
        'A' => 'a',
        'B' => 'b',
        'C' => 'c',
        'D' => 'd',
        'E' => 'e',
        'F' => 'f',
        'G' => 'g',
        'H' => 'h',
        'I' => 'i',
        'J' => 'j',
        'K' => 'k',
        'L' => 'l',
        'M' => 'm',
        'N' => 'n',
        'O' => 'o',
        'P' => 'p',
        'Q' => 'q',
        'R' => 'r',
        'S' => 's',
        'T' => 't',
        'U' => 'u',
        'V' => 'v',
        'W' => 'w',
        'X' => 'x',
        'Y' => 'y',
        'Z' => 'z',
        _ => c,
    }
}

/// ASCII lowercase of a text (`str::to_ascii_lowercase`).
pub open spec fn ascii_lowercase(s: Seq<char>) -> Seq<char> {
    s.map_values(|c: char| ascii_lower(c))
}

/// Whether a port owner's command name looks like a DSH web server (node or
/// a packaged DSH binary), compared without ASCII case.
pub open spec fn dsh_like(command: Seq<char>) -> bool {
    let c = ascii_lowercase(command);
    contains(c, "node"@) || contains(c, "dsh"@)
}

/// Whether a port owner looks like a DSH web server (see [`dsh_like`]).
pub fn looks_like_dsh(command: &str) -> (r: bool)
    ensures
        r == dsh_like(command@),
{
    let s = chars_of(command);
    let mut low: Vec<char> = Vec::new();
    let mut k: usize = 0;
    while k < s.len()
        invariant
            k <= s.len(),
            low@ == ascii_lowercase(s@.take(k as int)),
        decreases s.len() - k,
    {
        let l = ascii_lower_exec(s[k]);
        low.push(l);
        assert(low@ =~= ascii_lowercase(s@.take(k + 1)));
        k = k + 1;
    }
    assert(s@.take(s.len() as int) =~= s@);
    crate::text::contains_exec(&low, &chars_of("node")) || crate::text::contains_exec(
        &low,
        &chars_of("dsh"),
    )
}

/// `str::parse::<i32>`: an optional sign, then at least one ASCII digit and
/// nothing else, within the `i32` range.
pub open spec fn parse_i32(s: Seq<char>) -> Option<int> {
    if s.len() > 0 && s[0] == '-' {
        let d = s.drop_first();
        if d.len() == 0 || !all_digits(d) || digits_value(d) > 0x8000_0000 {
            None
        } else {
            Some(-(digits_value(d) as int))
        }
    } else {
        match parse_uint(s, 0x7fff_ffff) {
            Some(v) => Some(v as int),
            None => None,
        }
    }
}

/// Parses a decimal `i32` (see [`parse_i32`]).
pub fn parse_i32_text(s: &Vec<char>) -> (r: Option<i32>)
    ensures
        match r {
            Some(v) => parse_i32(s@) == Some(v as int),
            None => parse_i32(s@) is None,
        },
{
    if s.len() > 0 && s[0] == '-' {
        let d = slice_vec(s, 1, s.len());
        assert(d@ =~= s@.drop_first());
        if d.len() == 0 {
            return None;
        }
        if d[0] == '+' {
            proof {
                assert(!crate::text::is_digit(d@[0]));
            }
            return None;
        }
        match parse_u64(&d, 0x8000_0000u64) {
            Some(v) => {
                assert(d@.len() == 0 || d@[0] != '+');
                Some((0 - (v as i64)) as i32)
            },
            None => None,
        }
    } else {
        match parse_u64(s, 0x7fff_ffffu64) {
            Some(v) => Some(v as i32),
            None => None,
        }
    }
}

/// The pid in `lsof -Fp` output: the first line starting with `p` holds
/// it; `None` when there is none or it does not parse.
pub open spec fn lsof_pid_of(text: Seq<char>) -> Option<int> {
    let ls = lines(text);
    let i = first_p_line(ls);
    if i < 0 {
        None
    } else {
        parse_i32(ls[i].drop_first())
    }
}

/// Index of the first line starting with `p`, or -1.
pub open spec fn first_p_line(ls: Seq<Seq<char>>) -> int
    decreases ls.len(),
{
    if ls.len() == 0 {
        -1
    } else {
        let f = first_p_line(ls.drop_last());
        if f >= 0 {
            f
        } else if ls.last().len() > 0 && ls.last()[0] == 'p' {
            ls.len() - 1
        } else {
            -1
        }
    }
}

proof fn lemma_first_p_line_prefix(ls: Seq<Seq<char>>, k: int)
    requires
        0 <= k < ls.len(),
        first_p_line(ls.take(k)) == -1,
        ls[k].len() > 0 && ls[k][0] == 'p',
    ensures
        first_p_line(ls) == k,
    decreases ls.len(),
{
    assert(ls.take(k + 1).drop_last() =~= ls.take(k));
    assert(first_p_line(ls.take(k + 1)) == k);
    if ls.len() > k + 1 {
        assert(ls.drop_last().take(k) =~= ls.take(k));
        lemma_first_p_line_prefix(ls.drop_last(), k);
    } else {
        assert(ls.take(k + 1) =~= ls);
    }
}

/// Reads the listener's pid from `lsof -Fp` output (see [`lsof_pid_of`]).
pub fn lsof_pid(text: &str) -> (r: Option<i32>)
    ensures
        match r {
            Some(v) => lsof_pid_of(text@) == Some(v as int),
            None => lsof_pid_of(text@) is None,
        },
{
    let ls = split_lines(&chars_of(text));
    let ghost all = view_lines(ls@);
    let mut k: usize = 0;
    while k < ls.len()
        invariant
            k <= ls.len(),
            all == view_lines(ls@),
            all == lines(text@),
            first_p_line(all.take(k as int)) == -1,
        decreases ls.len() - k,
    {
        assert(all.take(k + 1).drop_last() =~= all.take(k as int));
        if ls[k].len() > 0 && ls[k][0] == 'p' {
            proof {
                lemma_first_p_line_prefix(all, k as int);
            }
            let rest = slice_vec(&ls[k], 1, ls[k].len());
            assert(rest@ =~= all[k as int].drop_first());
            return parse_i32_text(&rest);
        }
        k = k + 1;
    }
    assert(all.take(ls.len() as int) =~= all);
    None
}

/// What starting an instance does about a listener found on its pinned
/// port.
#[derive(Clone, Debug)]
pub enum PortOwnerAction {
    /// The listener looks like DSH (it restarted itself): adopt it.
    Adopt,
    /// Another program holds the port: refuse with this error.
    Refuse(String),
}

/// The decision for a pinned port held by `pid` running `command`.
pub fn port_owner_action(port: u16, pid: i32, command: &str) -> (r: PortOwnerAction)
    ensures
        dsh_like(command@) ==> r is Adopt,
        !dsh_like(command@) ==> (r matches PortOwnerAction::Refuse(e) && e@ == "端口 "@ + dec(
            port as nat,
        ) + " 已被其他进程占用（pid "@ + crate::text::dec_int(pid as int) + "，"@ + (if command@.len()
            == 0 {
            "未知进程"@
        } else {
            command@
        }) + "），请先释放该端口或修改实例端口"@),
{
    if looks_like_dsh(command) {
        return PortOwnerAction::Adopt;
    }
    let mut m = chars_of("端口 ");
    append_vec(&mut m, &dec_vec(port as u64));
    append_vec(&mut m, &chars_of(" 已被其他进程占用（pid "));
    append_vec(&mut m, &crate::text::dec_i64(pid as i64));
    append_vec(&mut m, &chars_of("，"));
    if chars_of(command).len() == 0 {
        append_vec(&mut m, &chars_of("未知进程"));
    } else {
        append_vec(&mut m, &chars_of(command));
    }
    append_vec(&mut m, &chars_of("），请先释放该端口或修改实例端口"));
    PortOwnerAction::Refuse(string_of(&m))
}

/// The URL an adopted process is reached at (its token is unrecoverable,
/// the browser cookie keeps the session).
pub fn adopted_url(host: &str, port: u16) -> (r: String)
    ensures
        r@ == "http://"@ + host@ + ":"@ + dec(port as nat),
{
    let mut m = chars_of("http://");
    append_vec(&mut m, &chars_of(host));
    append_vec(&mut m, &chars_of(":"));
    append_vec(&mut m, &dec_vec(port as u64));
    string_of(&m)
}

// ---------------------------------------------------------------------------
// Starting
// ---------------------------------------------------------------------------

/// Whether a profile gets web flags: its manifest lists the web-app bundle
/// (`manifest_is_web`, read when the instance's HOME is known); without a
/// HOME the profile name `web` decides.
pub fn is_web_launch(home_known: bool, manifest_is_web: bool, profile: &str) -> (r: bool)
    ensures
        r == (if home_known {
            manifest_is_web
        } else {
            profile@ == "web"@
        }),
{
    if home_known {
        manifest_is_web
    } else {
        vec_eq(&chars_of(profile), &chars_of("web"))
    }
}

/// The port a start checks before spawning: a web profile's pinned port.
pub fn pinned_port(is_web: bool, port: Option<u16>) -> (r: Option<u16>)
    ensures
        r == (if is_web {
            port
        } else {
            None
        }),
{
    if is_web {
        port
    } else {
        None
    }
}

/// The `--port` a start passes: for web profiles the pinned port, or 0 (a
/// random free port); nothing for other profiles.
pub fn launch_port(is_web: bool, port: Option<u16>) -> (r: Option<u16>)
    ensures
        r == (if is_web {
            Some(
                match port {
                    Some(p) => p,
                    None => 0u16,
                },
            )
        } else {
            None
        }),
{
    if is_web {
        Some(
            match port {
                Some(p) => p,
                None => 0,
            },
        )
    } else {
        None
    }
}

/// Index of the first version record with the id `id`, or -1.
pub open spec fn version_id_index(vs: Seq<VersionView>, id: Seq<char>) -> int
    decreases vs.len(),
{
    if vs.len() == 0 {
        -1
    } else {
        let f = version_id_index(vs.drop_last(), id);
        if f >= 0 {
            f
        } else if vs.last().id == id {
            vs.len() - 1
        } else {
            -1
        }
    }
}

pub proof fn lemma_version_id_index(vs: Seq<VersionView>, id: Seq<char>)
    ensures
        -1 <= version_id_index(vs, id) < vs.len(),
        version_id_index(vs, id) >= 0 ==> vs[version_id_index(vs, id)].id == id,
    decreases vs.len(),
{
    if vs.len() > 0 {
        lemma_version_id_index(vs.drop_last(), id);
        let f = version_id_index(vs.drop_last(), id);
        if f >= 0 {
            assert(vs.drop_last()[f] == vs[f]);
        }
    }
}

proof fn lemma_version_id_index_prefix(vs: Seq<VersionView>, id: Seq<char>, k: int)
    requires
        0 <= k < vs.len(),
        version_id_index(vs.take(k), id) == -1,
        vs[k].id == id,
    ensures
        version_id_index(vs, id) == k,
    decreases vs.len(),
{
    assert(vs.take(k + 1).drop_last() =~= vs.take(k));
    assert(version_id_index(vs.take(k + 1), id) == k);
    if vs.len() > k + 1 {
        assert(vs.drop_last().take(k) =~= vs.take(k));
        lemma_version_id_index_prefix(vs.drop_last(), id, k);
    } else {
        assert(vs.take(k + 1) =~= vs);
    }
}

/// Finds the version record with the id `id`.
pub fn find_version_by_id(versions: &Vec<DshVersion>, id: &str) -> (r: Option<usize>)
    ensures
        match r {
            Some(k) => k as int == version_id_index(versions_view(versions@), id@),
            None => version_id_index(versions_view(versions@), id@) == -1,
        },
{
    let key = String::from_str(id);
    let mut k: usize = 0;
    while k < versions.len()
        invariant
            k <= versions.len(),
            key@ == id@,
            version_id_index(versions_view(versions@).take(k as int), id@) == -1,
        decreases versions.len() - k,
    {
        proof {
            assert(versions_view(versions@).take(k + 1).drop_last() =~= versions_view(
                versions@,
            ).take(k as int));
        }
        if versions[k].id == key {
            proof {
                lemma_version_id_index_prefix(versions_view(versions@), id@, k as int);
            }
            return Some(k);
        }
        k = k + 1;
    }
    assert(versions_view(versions@).take(versions.len() as int) =~= versions_view(versions@));
    None
}

/// The instance and version record a start works on: refused when the
/// instance is unknown or its version is not installed.
pub fn start_targets(cfg: &Config, instance_id: &str) -> (r: Result<(usize, usize), String>)
    ensures
        ({
            let k = crate::config::instance_index(cfg@.instances, instance_id@);
            &&& k < 0 ==> (r matches Err(e) && e@ == "实例不存在"@)
            &&& k >= 0 && version_id_index(cfg@.versions, cfg@.instances[k].version_id) < 0 ==> (
            r matches Err(e) && e@ == "实例引用的 DSH 版本未安装"@)
            &&& k >= 0 && version_id_index(cfg@.versions, cfg@.instances[k].version_id) >= 0 ==> (
            r matches Ok(p) && p.0 as int == k && p.1 as int == version_id_index(
                cfg@.versions,
                cfg@.instances[k].version_id,
            ))
        }),
{
    let k = match crate::config::find_instance(&cfg.instances, instance_id) {
        Some(k) => k,
        None => return Err(String::from_str("实例不存在")),
    };
    proof {
        crate::config::lemma_instance_index(cfg@.instances, instance_id@);
    }
    match find_version_by_id(&cfg.versions, cfg.instances[k].version_id.as_str()) {
        Some(v) => Ok((k, v)),
        None => Err(String::from_str("实例引用的 DSH 版本未安装")),
    }
}

/// The checks before a spawn: the version's entry script must be ready and
/// the instance must not be running already.
pub fn start_guard(version: &str, bin: &str, bin_ready: bool, already_running: bool) -> (r: Result<
    (),
    String,
>)
    ensures
        !bin_ready ==> (r matches Err(e) && e@ == "版本 "@ + version@ + " 安装不完整（缺少 "@ + bin@
            + "），请重新安装"@),
        bin_ready && already_running ==> (r matches Err(e) && e@ == "实例已在运行"@),
        bin_ready && !already_running ==> r is Ok,
{
    if !bin_ready {
        let mut m = chars_of("版本 ");
        append_vec(&mut m, &chars_of(version));
        append_vec(&mut m, &chars_of(" 安装不完整（缺少 "));
        append_vec(&mut m, &chars_of(bin));
        append_vec(&mut m, &chars_of("），请重新安装"));
        return Err(string_of(&m));
    }
    if already_running {
        return Err(String::from_str("实例已在运行"));
    }
    Ok(())
}

// ---------------------------------------------------------------------------
// The web URL line
// ---------------------------------------------------------------------------

/// The URL of a `dsh web: <url>` banner starting at `i`: `http://` or
/// `https://` followed by the longest run of at least one non-whitespace
/// character.
pub open spec fn url_at(line: Seq<char>, i: int) -> Option<Seq<char>> {
    let j = i + 9;
    if !crate::text::occurs_at(line, "dsh web: "@, i) {
        None
    } else {
        let k = if crate::text::occurs_at(line, "https://"@, j) {
            j + 8
        } else if crate::text::occurs_at(line, "http://"@, j) {
            j + 7
        } else {
            -1
        };
        if k < 0 {
            None
        } else {
            let e = non_ws_end(line, k);
            if e == k {
                None
            } else {
                Some(line.subrange(j, e))
            }
        }
    }
}

/// The end of the run of non-whitespace characters starting at `k`.
pub open spec fn non_ws_end(line: Seq<char>, k: int) -> int
    decreases line.len() - k,
{
    if k < 0 || k >= line.len() || is_ws(line[k]) {
        k
    } else {
        non_ws_end(line, k + 1)
    }
}

/// The URL of the leftmost `dsh web: <url>` banner of a line.
pub open spec fn web_url_from(line: Seq<char>, i: int) -> Option<Seq<char>>
    decreases line.len() - i,
{
    if i < 0 || i >= line.len() {
        None
    } else {
        match url_at(line, i) {
            Some(u) => Some(u),
            None => web_url_from(line, i + 1),
        }
    }
}

/// The URL DSH announces in a stdout line (`dsh web: <url>`).
pub open spec fn web_url(line: Seq<char>) -> Option<Seq<char>> {
    web_url_from(line, 0)
}

/// Captures the URL of a `dsh web: <url>` line with the pattern
/// `dsh web: (https?://[^\s]+)` of the `regex` crate: its leftmost match,
/// group 1 (see [`web_url`]; `\s` is Unicode whitespace).
#[verifier::external_body]
pub(crate) fn capture_web_url(line: &str) -> (r: Option<String>)
    ensures
        opt_view(r) == web_url(line@),
{
    let re = regex::Regex::new(r"dsh web: (https?://[^\s]+)").unwrap();
    re.captures(line).map(|c| c[1].to_string())
}

// ---------------------------------------------------------------------------
// The registry
// ---------------------------------------------------------------------------

/// Index of the entry of instance `id`, or -1.
pub open spec fn entry_index(es: Seq<EntryView>, id: Seq<char>) -> int
    decreases es.len(),
{
    if es.len() == 0 {
        -1
    } else {
        let f = entry_index(es.drop_last(), id);
        if f >= 0 {
            f
        } else if es.last().id == id {
            es.len() - 1
        } else {
            -1
        }
    }
}

pub proof fn lemma_entry_index(es: Seq<EntryView>, id: Seq<char>)
    ensures
        -1 <= entry_index(es, id) < es.len(),
        entry_index(es, id) >= 0 ==> es[entry_index(es, id)].id == id,
        entry_index(es, id) < 0 <==> !is_running(es, id),
    decreases es.len(),
{
    if es.len() > 0 {
        lemma_entry_index(es.drop_last(), id);
        let f = entry_index(es.drop_last(), id);
        if f >= 0 {
            assert(es.drop_last()[f] == es[f]);
        }
        if is_running(es.drop_last(), id) {
            let i = choose|i: int| 0 <= i < es.drop_last().len() && (#[trigger] es.drop_last()[i]).id
                == id;
            assert(es[i] == es.drop_last()[i]);
        }
        if is_running(es, id) && !is_running(es.drop_last(), id) {
            let i = choose|i: int| 0 <= i < es.len() && (#[trigger] es[i]).id == id;
            if i < es.len() - 1 {
                assert(es.drop_last()[i] == es[i]);
            }
        }
        if entry_index(es, id) == es.len() - 1 {
            assert(es[es.len() - 1].id == id);
        }
    }
}

proof fn lemma_entry_index_prefix(es: Seq<EntryView>, id: Seq<char>, k: int)
    requires
        0 <= k < es.len(),
        entry_index(es.take(k), id) == -1,
        es[k].id == id,
    ensures
        entry_index(es, id) == k,
    decreases es.len(),
{
    assert(es.take(k + 1).drop_last() =~= es.take(k));
    assert(entry_index(es.take(k + 1), id) == k);
    if es.len() > k + 1 {
        assert(es.drop_last().take(k) =~= es.take(k));
        lemma_entry_index_prefix(es.drop_last(), id, k);
    } else {
        assert(es.take(k + 1) =~= es);
    }
}

/// Finds the entry of an instance.
pub fn find_entry(entries: &Vec<RunEntry>, id: &str) -> (r: Option<usize>)
    ensures
        match r {
            Some(k) => k as int == entry_index(entries_view(entries@), id@),
            None => entry_index(entries_view(entries@), id@) == -1,
        },
{
    let key = String::from_str(id);
    let mut k: usize = 0;
    while k < entries.len()
        invariant
            k <= entries.len(),
            key@ == id@,
            entry_index(entries_view(entries@).take(k as int), id@) == -1,
        decreases entries.len() - k,
    {
        proof {
            assert(entries_view(entries@).take(k + 1).drop_last() =~= entries_view(
                entries@,
            ).take(k as int));
        }
        if entries[k].id == key {
            proof {
                lemma_entry_index_prefix(entries_view(entries@), id@, k as int);
            }
            return Some(k);
        }
        k = k + 1;
    }
    assert(entries_view(entries@).take(entries.len() as int) =~= entries_view(entries@));
    None
}

/// Whether an instance is running.
pub fn running_contains(entries: &Vec<RunEntry>, id: &str) -> (r: bool)
    ensures
        r == is_running(entries_view(entries@), id@),
{
    let r = find_entry(entries, id).is_some();
    proof {
        lemma_entry_index(entries_view(entries@), id@);
    }
    r
}

/// Inserts (or replaces) the entry of an instance: afterwards it is the
/// one entry for that id, and the others are untouched.
pub fn register_running(entries: &mut Vec<RunEntry>, entry: RunEntry)
    requires
        ids_unique(entries_view(old(entries)@)),
    ensures
        ids_unique(entries_view(final(entries)@)),
        ({
            let k = entry_index(entries_view(old(entries)@), entry@.id);
            &&& k >= 0 ==> entries_view(final(entries)@) == entries_view(old(entries)@).update(
                k,
                entry@,
            )
            &&& k < 0 ==> entries_view(final(entries)@) == entries_view(old(entries)@).push(
                entry@,
            )
        }),
        entry_index(entries_view(final(entries)@), entry@.id) >= 0,
        entries_view(final(entries)@)[entry_index(entries_view(final(entries)@), entry@.id)]
            == entry@,
{
    let ghost before = entries_view(entries@);
    proof {
        lemma_entry_index(before, entry@.id);
    }
    match find_entry(entries, entry.id.as_str()) {
        Some(k) => {
            entries.set(k, entry);
            proof {
                let after = entries_view(entries@);
                assert(after =~= before.update(k as int, entries@[k as int]@));
                assert forall|i: int, j: int| 0 <= i < j < after.len() implies after[i].id
                    != after[j].id by {
                    if i != k && j != k {
                        assert(after[i] == before[i] && after[j] == before[j]);
                    } else if i == k {
                        assert(after[j] == before[j]);
                    } else {
                        assert(after[i] == before[i]);
                    }
                }
                lemma_entry_index(after, entries@[k as int]@.id);
                assert(entry_index(after, entries@[k as int]@.id) == k) by {
                    let f = entry_index(after, entries@[k as int]@.id);
                    if f != k {
                        assert(after[f].id == after[k as int].id);
                    }
                }
            }
        },
        None => {
            let ghost e = entry@;
            entries.push(entry);
            proof {
                let after = entries_view(entries@);
                assert(after =~= before.push(e));
                assert forall|i: int, j: int| 0 <= i < j < after.len() implies after[i].id
                    != after[j].id by {
                    if j == before.len() {
                        assert(after[i] == before[i]);
                        assert(before[i].id != e.id);
                    } else {
                        assert(after[i] == before[i] && after[j] == before[j]);
                    }
                }
                lemma_entry_index(after, e.id);
                assert(entry_index(after, e.id) == before.len()) by {
                    let f = entry_index(after, e.id);
                    if f != before.len() {
                        assert(after[f] == before[f]);
                    }
                }
            }
        },
    }
}

/// Removes the entry of an instance (if any); the others are untouched.
pub fn unregister_running(entries: &mut Vec<RunEntry>, id: &str)
    requires
        ids_unique(entries_view(old(entries)@)),
    ensures
        ids_unique(entries_view(final(entries)@)),
        !is_running(entries_view(final(entries)@), id@),
        ({
            let k = entry_index(entries_view(old(entries)@), id@);
            &&& k >= 0 ==> entries_view(final(entries)@) == entries_view(old(entries)@).remove(k)
            &&& k < 0 ==> final(entries)@ == old(entries)@
        }),
{
    let ghost before = entries_view(entries@);
    proof {
        lemma_entry_index(before, id@);
    }
    match find_entry(entries, id) {
        Some(k) => {
            let _ = entries.remove(k);
            proof {
                let after = entries_view(entries@);
                assert(after =~= before.remove(k as int));
                assert forall|i: int, j: int| 0 <= i < j < after.len() implies after[i].id
                    != after[j].id by {
                    let bi = if i < k { i } else { i + 1 };
                    let bj = if j < k { j } else { j + 1 };
                    assert(after[i] == before[bi] && after[j] == before[bj]);
                }
                if is_running(after, id@) {
                    let i = choose|i: int| 0 <= i < after.len() && (#[trigger] after[i]).id == id@;
                    let bi = if i < k { i } else { i + 1 };
                    assert(after[i] == before[bi]);
                    assert(before[k as int].id == id@);
                }
            }
        },
        None => {},
    }
}

/// Adopts an external DSH process as an instance's entry, unless an entry
/// exists already (a real child registered first: it wins). Returns whether
/// the adoption happened.
pub fn adopt_entry(
    entries: &mut Vec<RunEntry>,
    id: &str,
    profile: &str,
    port: u16,
    host: &str,
    pid: i32,
) -> (r: bool)
    requires
        ids_unique(entries_view(old(entries)@)),
    ensures
        ids_unique(entries_view(final(entries)@)),
        r == !is_running(entries_view(old(entries)@), id@),
        !r ==> final(entries)@ == old(entries)@,
        r ==> entries_view(final(entries)@) == entries_view(old(entries)@).push(
            EntryView {
                id: id@,
                profile: profile@,
                url: Some("http://"@ + host@ + ":"@ + dec(port as nat)),
                adopted_pid: Some(pid),
                adopted_at: Some((port, host@)),
            },
        ),
{
    if running_contains(entries, id) {
        return false;
    }
    let url = adopted_url(host, port);
    let e = RunEntry {
        id: String::from_str(id),
        profile: String::from_str(profile),
        url: Some(url),
        adopted: Some(Adopted { pid, port, host: String::from_str(host) }),
    };
    proof {
        lemma_entry_index(entries_view(entries@), id@);
    }
    register_running(entries, e);
    true
}

/// Records the URL an instance announced, if it still has an entry.
pub fn set_entry_url(entries: &mut Vec<RunEntry>, id: &str, url: String)
    requires
        ids_unique(entries_view(old(entries)@)),
    ensures
        ids_unique(entries_view(final(entries)@)),
        ({
            let k = entry_index(entries_view(old(entries)@), id@);
            &&& k >= 0 ==> entries_view(final(entries)@) == entries_view(old(entries)@).update(
                k,
                EntryView { url: Some(url@), ..entries_view(old(entries)@)[k] },
            )
            &&& k < 0 ==> final(entries)@ == old(entries)@
        }),
{
    match find_entry(entries, id) {
        Some(k) => {
            let ghost before = entries_view(entries@);
            proof {
                lemma_entry_index(before, id@);
            }
            let mut e = entries[k].clone_entry();
            e.url = Some(url);
            entries.set(k, e);
            proof {
                let after = entries_view(entries@);
                assert(after =~= before.update(
                    k as int,
                    EntryView { url: Some(url@), ..before[k as int] },
                ));
                assert forall|i: int, j: int| 0 <= i < j < after.len() implies after[i].id
                    != after[j].id by {
                    assert(after[i].id == before[i].id && after[j].id == before[j].id);
                }
            }
        },
        None => {},
    }
}

/// Handles one stdout line of a spawned instance: when it announces the web
/// URL (see [`web_url`]) the entry records it and the `running` status to
/// emit is returned; any other line changes nothing.
pub fn announced_status(entries: &mut Vec<RunEntry>, id: &str, profile: &str, line: &str) -> (r:
    Option<InstanceStatus>)
    requires
        ids_unique(entries_view(old(entries)@)),
    ensures
        ids_unique(entries_view(final(entries)@)),
        match web_url(line@) {
            None => r is None && final(entries)@ == old(entries)@,
            Some(u) => {
                let k = entry_index(entries_view(old(entries)@), id@);
                &&& r matches Some(st) && st.id@ == id@ && st.state == InstanceState::Running
                    && opt_view(st.url) == Some(u) && opt_view(st.profile) == Some(profile@)
                    && st.exit_code is None
                &&& k >= 0 ==> entries_view(final(entries)@) == entries_view(old(entries)@).update(
                    k,
                    EntryView { url: Some(u), ..entries_view(old(entries)@)[k] },
                )
                &&& k < 0 ==> final(entries)@ == old(entries)@
            },
        },
{
    match capture_web_url(line) {
        None => None,
        Some(url) => {
            set_entry_url(entries, id, url.clone());
            Some(
                InstanceStatus {
                    id: String::from_str(id),
                    state: InstanceState::Running,
                    url: Some(url),
                    profile: Some(String::from_str(profile)),
                    exit_code: None,
                },
            )
        },
    }
}

impl RunEntry {
    /// A copy of the entry.
    pub fn clone_entry(&self) -> (r: RunEntry)
        ensures
            r@ == self@,
    {
        RunEntry {
            id: self.id.clone(),
            profile: self.profile.clone(),
            url: crate::config::copy_opt_string(&self.url),
            adopted: match &self.adopted {
                Some(a) => Some(Adopted { pid: a.pid, port: a.port, host: a.host.clone() }),
                None => None,
            },
        }
    }
}

/// Whether the watcher of an adopted process still owns the entry: the
/// entry exists and is the adoption of that pid.
pub fn still_adopted(entries: &Vec<RunEntry>, id: &str, pid: i32) -> (r: bool)
    ensures
        ({
            let k = entry_index(entries_view(entries@), id@);
            r == (k >= 0 && entries_view(entries@)[k].adopted_pid == Some(pid))
        }),
{
    match find_entry(entries, id) {
        Some(k) => {
            proof {
                lemma_entry_index(entries_view(entries@), id@);
            }
            match &entries[k].adopted {
                Some(a) => a.pid == pid,
                None => false,
            }
        },
        None => false,
    }
}

/// The statuses of all running instances: each `Running`, with its URL and
/// profile.
pub fn list_statuses(entries: &Vec<RunEntry>) -> (r: Vec<InstanceStatus>)
    ensures
        r@.len() == entries@.len(),
        forall|i: int|
            0 <= i < r@.len() ==> {
                &&& (#[trigger] r@[i]).id@ == entries@[i].id@
                &&& r@[i].state == InstanceState::Running
                &&& opt_view(r@[i].url) == opt_view(entries@[i].url)
                &&& opt_view(r@[i].profile) == Some(entries@[i].profile@)
                &&& r@[i].exit_code is None
            },
{
    let mut out: Vec<InstanceStatus> = Vec::new();
    let mut k: usize = 0;
    while k < entries.len()
        invariant
            k <= entries.len(),
            out@.len() == k,
            forall|i: int|
                0 <= i < k ==> {
                    &&& (#[trigger] out@[i]).id@ == entries@[i].id@
                    &&& out@[i].state == InstanceState::Running
                    &&& opt_view(out@[i].url) == opt_view(entries@[i].url)
                    &&& opt_view(out@[i].profile) == Some(entries@[i].profile@)
                    &&& out@[i].exit_code is None
                },
        decreases entries.len() - k,
    {
        out.push(
            InstanceStatus {
                id: entries[k].id.clone(),
                state: InstanceState::Running,
                url: crate::config::copy_opt_string(&entries[k].url),
                profile: Some(entries[k].profile.clone()),
                exit_code: None,
            },
        );
        k = k + 1;
    }
    out
}

/// The profile a restart starts again: the one the instance is running.
/// Refused when it is not running.
pub fn restart_profile(entries: &Vec<RunEntry>, id: &str) -> (r: Result<String, String>)
    ensures
        ({
            let k = entry_index(entries_view(entries@), id@);
            &&& k < 0 ==> (r matches Err(e) && e@ == "实例未在运行"@)
            &&& k >= 0 ==> (r matches Ok(p) && p@ == entries_view(entries@)[k].profile)
        }),
{
    match find_entry(entries, id) {
        Some(k) => {
            proof {
                lemma_entry_index(entries_view(entries@), id@);
            }
            Ok(entries[k].profile.clone())
        },
        None => Err(String::from_str("实例未在运行")),
    }
}

/// How a stop proceeds.
#[derive(Clone, Debug)]
pub enum StopPlan {
    /// No entry: re-emit a `Stopped` status so a stale frontend converges.
    AlreadyStopped,
    /// An adopted process: terminate it by pid.
    KillPid(i32),
    /// A spawned child: signal its waiter.
    SignalChild,
}

/// The stop plan for an instance.
pub fn stop_plan(entries: &Vec<RunEntry>, id: &str) -> (r: StopPlan)
    ensures
        ({
            let k = entry_index(entries_view(entries@), id@);
            &&& k < 0 ==> r is AlreadyStopped
            &&& k >= 0 && entries_view(entries@)[k].adopted_pid is Some ==> (r matches StopPlan::KillPid(p)
                && Some(p) == entries_view(entries@)[k].adopted_pid)
            &&& k >= 0 && entries_view(entries@)[k].adopted_pid is None ==> r is SignalChild
        }),
{
    match find_entry(entries, id) {
        Some(k) => {
            proof {
                lemma_entry_index(entries_view(entries@), id@);
            }
            match &entries[k].adopted {
                Some(a) => StopPlan::KillPid(a.pid),
                None => StopPlan::SignalChild,
            }
        },
        None => StopPlan::AlreadyStopped,
    }
}

/// Stopping is idempotent: once `unregister_running` has removed an
/// instance's entry (after a stop, a crash, or when there was none), the
/// stop plan for that instance is [`StopPlan::AlreadyStopped`], which
/// re-emits `Stopped` instead of failing.
pub proof fn lemma_stop_after_unregister(es: Seq<EntryView>, id: Seq<char>)
    requires
        ids_unique(es),
    ensures
        ({
            let k = entry_index(es, id);
            let after = if k >= 0 {
                es.remove(k)
            } else {
                es
            };
            entry_index(after, id) < 0
        }),
{
    lemma_entry_index(es, id);
    let k = entry_index(es, id);
    if k >= 0 {
        let after = es.remove(k);
        lemma_entry_index(after, id);
        if is_running(after, id) {
            let i = choose|i: int| 0 <= i < after.len() && (#[trigger] after[i]).id == id;
            let bi = if i < k {
                i
            } else {
                i + 1
            };
            assert(after[i] == es[bi]);
            assert(es[k].id == id);
        }
    }
}

/// The status an instance ends with when its process is gone: `Stopped`
/// after a stop request, `Exited` otherwise, with the exit code.
pub fn exit_status(id: &str, profile: &str, stopped: bool, code: Option<i32>) -> (r:
    InstanceStatus)
    ensures
        r.id@ == id@,
        r.state == (if stopped {
            InstanceState::Stopped
        } else {
            InstanceState::Exited
        }),
        r.url is None,
        opt_view(r.profile) == Some(profile@),
        r.exit_code == code,
{
    InstanceStatus {
        id: String::from_str(id),
        state: if stopped {
            InstanceState::Stopped
        } else {
            InstanceState::Exited
        },
        url: None,
        profile: Some(String::from_str(profile)),
        exit_code: code,
    }
}

/// The status a stop of an instance without an entry re-emits.
pub fn stopped_status(id: &str) -> (r: InstanceStatus)
    ensures
        r.id@ == id@,
        r.state == InstanceState::Stopped,
        r.url is None,
        r.profile is None,
        r.exit_code is None,
{
    InstanceStatus {
        id: String::from_str(id),
        state: InstanceState::Stopped,
        url: None,
        profile: None,
        exit_code: None,
    }
}

} // verus!
