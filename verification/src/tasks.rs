//! Background tasks: installing a DSH version and creating its instance.
//!
//! A task record carries its state, a progress percent and a capped log.
//! The rules every task obeys live here: a cancelled task stays cancelled
//! whatever its worker reports afterwards, the log never holds more than
//! [`MAX_LOG_LINES`] lines, and two tasks never install the same version or
//! reserve the same HOME at once. Spawning and streaming processes is the
//! application's part; it feeds each outcome back through these functions.

use crate::config::{
    has_home, homes_view, is_new_id, new_id, same_path, paths_equal, sanitize_name, sanitized,
    Config, ConfigView, DshHome, DshInstance, DshVersion, InstanceView, VersionView,
    instances_view, versions_view, copy_string, copy_opt_string, opt_view,
};
use crate::json::{field_of, Json};
use crate::paths::{join_path, path_join};
use crate::text::{
    cat, chars_of, contains, copy_strings, is_ascii_alnum, is_ascii_alnum_exec, lowercase,
    str_contains, string_of, to_lowercase, trim, trim_vec, utf8_len, utf8_len_seq, view_strings,
    vec_eq,
    append_vec, join, join_vec, view_lines, dec, dec_vec,
};
use vstd::prelude::*;

verus! {

/// The most log lines a task keeps; older lines are dropped first.
pub const MAX_LOG_LINES: usize = 1000;

/// Lifecycle state of a background task.
#[derive(Clone, Copy, Debug, PartialEq, Eq, Structural)]
pub enum TaskState {
    Running,
    Done,
    Error,
    Cancelled,
}

/// A background task as the frontend lists it. The handle of a child
/// process the task is running is kept by the application beside it.
#[derive(Clone, Debug)]
pub struct TaskInfo {
    pub id: String,
    /// `create-instance` for version installs.
    pub kind: String,
    pub label: String,
    pub version: String,
    pub state: TaskState,
    pub percent: u32,
    pub created_at: i64,
    pub message: Option<String>,
    pub instance_id: Option<String>,
    pub instance_name: Option<String>,
    /// The dedicated HOME path reserved while the task runs; the HOME record
    /// itself is only created with the instance, so a cancelled or failed
    /// task never leaves an orphan HOME behind.
    pub reserved_home_path: Option<String>,
    pub logs: Vec<String>,
}

/// Progress event payload of a task.
#[derive(Clone, Debug)]
pub struct TaskProgress {
    pub id: String,
    pub state: TaskState,
    pub percent: u32,
    pub message: Option<String>,
    pub instance_id: Option<String>,
}

/// Log event payload of a task.
#[derive(Clone, Debug)]
pub struct TaskLog {
    pub id: String,
    pub line: String,
}

pub struct TaskView {
    pub id: Seq<char>,
    pub kind: Seq<char>,
    pub label: Seq<char>,
    pub version: Seq<char>,
    pub state: TaskState,
    pub percent: u32,
    pub created_at: i64,
    pub message: Option<Seq<char>>,
    pub instance_id: Option<Seq<char>>,
    pub instance_name: Option<Seq<char>>,
    pub reserved_home_path: Option<Seq<char>>,
    pub logs: Seq<Seq<char>>,
}

impl View for TaskInfo {
    type V = TaskView;

    open spec fn view(&self) -> TaskView {
        TaskView {
            id: self.id@,
            kind: self.kind@,
            label: self.label@,
            version: self.version@,
            state: self.state,
            percent: self.percent,
            created_at: self.created_at,
            message: opt_view(self.message),
            instance_id: opt_view(self.instance_id),
            instance_name: opt_view(self.instance_name),
            reserved_home_path: opt_view(self.reserved_home_path),
            logs: view_strings(self.logs@),
        }
    }
}

pub struct ProgressView {
    pub id: Seq<char>,
    pub state: TaskState,
    pub percent: u32,
    pub message: Option<Seq<char>>,
    pub instance_id: Option<Seq<char>>,
}

impl View for TaskProgress {
    type V = ProgressView;

    open spec fn view(&self) -> ProgressView {
        ProgressView {
            id: self.id@,
            state: self.state,
            percent: self.percent,
            message: opt_view(self.message),
            instance_id: opt_view(self.instance_id),
        }
    }
}

pub open spec fn tasks_view(v: Seq<TaskInfo>) -> Seq<TaskView> {
    v.map_values(|t: TaskInfo| t@)
}

impl TaskInfo {
    /// A copy of the record.
    pub fn copy(&self) -> (r: TaskInfo)
        ensures
            r@ == self@,
    {
        TaskInfo {
            id: self.id.clone(),
            kind: self.kind.clone(),
            label: self.label.clone(),
            version: self.version.clone(),
            state: self.state,
            percent: self.percent,
            created_at: self.created_at,
            message: copy_opt_string(&self.message),
            instance_id: copy_opt_string(&self.instance_id),
            instance_name: copy_opt_string(&self.instance_name),
            reserved_home_path: copy_opt_string(&self.reserved_home_path),
            logs: copy_strings(&self.logs),
        }
    }
}

// ---------------------------------------------------------------------------
// Version strings
// ---------------------------------------------------------------------------

/// A character a version string may hold.
pub open spec fn version_char(c: char) -> bool {
    is_ascii_alnum(c) || c == '.' || c == '-' || c == '+' || c == '_'
}

/// Whether a version string is safe as a path segment under `versions/`:
/// non-empty, not `.` or `..`, at most 64 bytes, and made of ASCII letters,
/// digits and `.`, `-`, `+`, `_` only.
pub open spec fn valid_version(v: Seq<char>) -> bool {
    &&& v.len() > 0
    &&& v != "."@
    &&& v != ".."@
    &&& utf8_len_seq(v) <= 64
    &&& forall|i: int| 0 <= i < v.len() ==> version_char(#[trigger] v[i])
}

proof fn lemma_ascii_utf8_len(s: Seq<char>)
    requires
        forall|i: int| 0 <= i < s.len() ==> version_char(#[trigger] s[i]),
    ensures
        utf8_len_seq(s) == s.len(),
    decreases s.len(),
{
    if s.len() > 0 {
        assert forall|i: int| 0 <= i < s.drop_last().len() implies version_char(
            #[trigger] s.drop_last()[i],
        ) by {
            assert(s.drop_last()[i] == s[i]);
        }
        lemma_ascii_utf8_len(s.drop_last());
        assert(version_char(s[s.len() - 1]));
        assert((s.last() as u32) < 0x80);
    }
}

/// Whether `v` is a version string the installer accepts (see
/// [`valid_version`]). The Tauri command boundary and GitHub tag names are
/// both untrusted input, and a Git tag may legally contain `/`.
pub fn valid_version_string(v: &str) -> (r: bool)
    ensures
        r == valid_version(v@),
{
    proof {
        reveal_strlit(".");
        reveal_strlit("..");
    }
    let c = chars_of(v);
    let mut k: usize = 0;
    while k < c.len()
        invariant
            k <= c.len(),
            c@ == v@,
            forall|i: int| 0 <= i < k ==> version_char(#[trigger] c@[i]),
        decreases c.len() - k,
    {
        let ch = c[k];
        if !(is_ascii_alnum_exec(ch) || ch == '.' || ch == '-' || ch == '+' || ch == '_') {
            assert(!version_char(c@[k as int]));
            return false;
        }
        k = k + 1;
    }
    proof {
        lemma_ascii_utf8_len(c@);
    }
    if c.len() == 0 || c.len() > 64 {
        return false;
    }
    if c.len() == 1 && c[0] == '.' {
        assert(c@ =~= "."@);
        return false;
    }
    if c.len() == 2 && c[0] == '.' && c[1] == '.' {
        assert(c@ =~= ".."@);
        return false;
    }
    assert(c@ != "."@ && c@ != ".."@) by {
        if c@ == "."@ {
            assert(c@.len() == 1 && c@[0] == '.');
        }
        if c@ == ".."@ {
            assert(c@.len() == 2 && c@[0] == '.' && c@[1] == '.');
        }
    }
    true
}

/// A valid version string is one safe path segment: it can never climb out
/// of the `versions/` directory it is joined into.
pub proof fn lemma_valid_version_is_segment(v: Seq<char>)
    requires
        valid_version(v),
    ensures
        crate::profile::single_path_segment(v),
{
    assert(!v.contains('/')) by {
        if v.contains('/') {
            let i = choose|i: int| 0 <= i < v.len() && v[i] == '/';
            assert(version_char(v[i]));
        }
    }
    assert(!v.contains('\\')) by {
        if v.contains('\\') {
            let i = choose|i: int| 0 <= i < v.len() && v[i] == '\\';
            assert(version_char(v[i]));
        }
    }
}

// ---------------------------------------------------------------------------
// The task log
// ---------------------------------------------------------------------------

/// The log lines kept before a new line is appended: the oldest line goes
/// once the log is full.
pub open spec fn log_kept(logs: Seq<Seq<char>>) -> Seq<Seq<char>> {
    if logs.len() >= MAX_LOG_LINES {
        logs.drop_first()
    } else {
        logs
    }
}

/// The command line a task echoes into its log before running it: `$ `,
/// the program, and each argument after a space.
pub open spec fn command_echo_text(program: Seq<char>, args: Seq<Seq<char>>) -> Seq<char>
    decreases args.len(),
{
    if args.len() == 0 {
        "$ "@ + program
    } else {
        command_echo_text(program, args.drop_last()) + " "@ + args.last()
    }
}

/// Renders the command line of a task command for its log (see
/// [`command_echo_text`]).
pub fn command_echo(program: &str, args: &Vec<String>) -> (r: String)
    ensures
        r@ == command_echo_text(program@, view_strings(args@)),
{
    let mut m = chars_of("$ ");
    append_vec(&mut m, &chars_of(program));
    let mut k: usize = 0;
    while k < args.len()
        invariant
            k <= args.len(),
            m@ == command_echo_text(program@, view_strings(args@).take(k as int)),
        decreases args.len() - k,
    {
        proof {
            let vs = view_strings(args@);
            assert(vs.take(k + 1).drop_last() =~= vs.take(k as int));
            assert(vs.take(k + 1).last() == args@[k as int]@);
        }
        append_vec(&mut m, &chars_of(" "));
        append_vec(&mut m, &chars_of(args[k].as_str()));
        k = k + 1;
    }
    proof {
        assert(view_strings(args@).take(args.len() as int) =~= view_strings(args@));
    }
    string_of(&m)
}

/// Appends a line to a task's log, dropping the oldest line when the log
/// already holds [`MAX_LOG_LINES`] lines. A log within the cap stays within it.
pub fn push_log_locked(task: &mut TaskInfo, line: &str)
    ensures
        final(task)@ == (TaskView { logs: log_kept(old(task)@.logs).push(line@), ..old(task)@ }),
        old(task)@.logs.len() <= MAX_LOG_LINES ==> final(task)@.logs.len() <= MAX_LOG_LINES,
{
    if task.logs.len() >= MAX_LOG_LINES {
        let ghost before = task.logs@;
        let _ = task.logs.remove(0);
        assert(view_strings(task.logs@) =~= view_strings(before).drop_first());
    }
    let l = String::from_str(line);
    let ghost mid = task.logs@;
    task.logs.push(l);
    assert(view_strings(task.logs@) =~= view_strings(mid).push(line@));
}

// ---------------------------------------------------------------------------
// Completion, cancellation, removal
// ---------------------------------------------------------------------------

/// Records a task body's result: `Ok(instance_id)` marks the task done at
/// 100% with its instance (and releases the HOME reservation, which now
/// exists for real); `Err(msg)` marks it failed with the message, also
/// logged as `error: <msg>`. A cancelled task stays cancelled and nothing is
/// emitted; otherwise the terminal progress event to emit is returned.
pub fn finish_task(task: &mut TaskInfo, result: Result<String, String>) -> (ev: Option<
    TaskProgress,
>)
    ensures
        old(task)@.state == TaskState::Cancelled ==> final(task)@ == old(task)@ && ev is None,
        old(task)@.state != TaskState::Cancelled ==> match result {
            Ok(iid) => {
                &&& final(task)@ == (TaskView {
                    state: TaskState::Done,
                    percent: 100,
                    instance_id: Some(iid@),
                    reserved_home_path: None,
                    ..old(task)@
                })
                &&& ev matches Some(p) && p@ == (ProgressView {
                    id: old(task)@.id,
                    state: TaskState::Done,
                    percent: 100,
                    message: None,
                    instance_id: Some(iid@),
                })
            },
            Err(msg) => {
                &&& final(task)@ == (TaskView {
                    state: TaskState::Error,
                    message: Some(msg@),
                    logs: log_kept(old(task)@.logs).push("error: "@ + msg@),
                    ..old(task)@
                })
                &&& ev matches Some(p) && p@ == (ProgressView {
                    id: old(task)@.id,
                    state: TaskState::Error,
                    percent: old(task)@.percent,
                    message: Some(msg@),
                    instance_id: None,
                })
            },
        },
{
    if task.state == TaskState::Cancelled {
        return None;
    }
    match result {
        Ok(iid) => {
            task.state = TaskState::Done;
            task.percent = 100;
            task.instance_id = Some(iid);
            task.reserved_home_path = None;
            Some(
                TaskProgress {
                    id: task.id.clone(),
                    state: TaskState::Done,
                    percent: 100,
                    message: None,
                    instance_id: copy_opt_string(&task.instance_id),
                },
            )
        },
        Err(msg) => {
            task.state = TaskState::Error;
            task.message = Some(msg.clone());
            let line = cat("error: ", msg.as_str());
            push_log_locked(task, line.as_str());
            Some(
                TaskProgress {
                    id: task.id.clone(),
                    state: TaskState::Error,
                    percent: task.percent,
                    message: Some(msg),
                    instance_id: None,
                },
            )
        },
    }
}

/// Marks a task cancelled with the message `已取消`.
pub fn mark_cancelled(task: &mut TaskInfo)
    ensures
        final(task)@ == (TaskView {
            state: TaskState::Cancelled,
            message: Some("已取消"@),
            ..old(task)@
        }),
{
    task.state = TaskState::Cancelled;
    task.message = Some(String::from_str("已取消"));
}

/// The progress event a cancellation emits (also for an unknown id, so a
/// stale frontend converges).
pub fn cancelled_progress(id: &str) -> (p: TaskProgress)
    ensures
        p@ == (ProgressView {
            id: id@,
            state: TaskState::Cancelled,
            percent: 0,
            message: Some("已取消"@),
            instance_id: None,
        }),
{
    TaskProgress {
        id: String::from_str(id),
        state: TaskState::Cancelled,
        percent: 0,
        message: Some(String::from_str("已取消")),
        instance_id: None,
    }
}

/// Index of the first task with the id `id`, or -1.
pub open spec fn task_index(ts: Seq<TaskView>, id: Seq<char>) -> int
    decreases ts.len(),
{
    if ts.len() == 0 {
        -1
    } else {
        let f = task_index(ts.drop_last(), id);
        if f >= 0 {
            f
        } else if ts.last().id == id {
            ts.len() - 1
        } else {
            -1
        }
    }
}

proof fn lemma_task_index(ts: Seq<TaskView>, id: Seq<char>)
    ensures
        -1 <= task_index(ts, id) < ts.len(),
        task_index(ts, id) >= 0 ==> ts[task_index(ts, id)].id == id,
        task_index(ts, id) == -1 ==> forall|i: int| 0 <= i < ts.len() ==> ts[i].id != id,
    decreases ts.len(),
{
    if ts.len() > 0 {
        lemma_task_index(ts.drop_last(), id);
        let f = task_index(ts.drop_last(), id);
        if f >= 0 {
            assert(ts.drop_last()[f] == ts[f]);
        } else {
            assert forall|i: int| 0 <= i < ts.len() - 1 implies ts[i].id != id by {
                assert(ts.drop_last()[i] == ts[i]);
            }
        }
    }
}

/// Finds the task with the id `id`.
pub fn find_task(tasks: &Vec<TaskInfo>, id: &str) -> (r: Option<usize>)
    ensures
        match r {
            Some(k) => k as int == task_index(tasks_view(tasks@), id@),
            None => task_index(tasks_view(tasks@), id@) == -1,
        },
{
    let key = String::from_str(id);
    let mut k: usize = 0;
    while k < tasks.len()
        invariant
            k <= tasks.len(),
            key@ == id@,
            task_index(tasks_view(tasks@).take(k as int), id@) == -1,
        decreases tasks.len() - k,
    {
        proof {
            assert(tasks_view(tasks@).take(k + 1).drop_last() =~= tasks_view(tasks@).take(
                k as int,
            ));
        }
        if tasks[k].id == key {
            proof {
                lemma_task_index_prefix(tasks_view(tasks@), id@, k as int);
            }
            return Some(k);
        }
        k = k + 1;
    }
    assert(tasks_view(tasks@).take(tasks.len() as int) =~= tasks_view(tasks@));
    None
}

proof fn lemma_task_index_prefix(ts: Seq<TaskView>, id: Seq<char>, k: int)
    requires
        0 <= k < ts.len(),
        task_index(ts.take(k), id) == -1,
        ts[k].id == id,
    ensures
        task_index(ts, id) == k,
    decreases ts.len(),
{
    assert(ts.take(k + 1).drop_last() =~= ts.take(k));
    assert(task_index(ts.take(k + 1), id) == k);
    if ts.len() > k + 1 {
        assert(ts.drop_last().take(k) =~= ts.take(k));
        lemma_task_index_prefix(ts.drop_last(), id, k);
    } else {
        assert(ts.take(k + 1) =~= ts);
    }
}

/// Removes a finished task from the list. An unknown id and a task that is
/// still running are refused.
pub fn remove_task(tasks: &mut Vec<TaskInfo>, id: &str) -> (r: Result<(), String>)
    ensures
        ({
            let ts = tasks_view(old(tasks)@);
            let k = task_index(ts, id@);
            &&& k == -1 ==> (r matches Err(e) && e@ == "任务不存在"@)
            &&& k == -1 ==> final(tasks)@ == old(tasks)@
            &&& (k >= 0 && ts[k].state == TaskState::Running) ==> (r matches Err(e) && e@
                == "任务仍在运行中，请先取消"@)
            &&& (k >= 0 && ts[k].state == TaskState::Running) ==> final(tasks)@ == old(tasks)@
            &&& (k >= 0 && ts[k].state != TaskState::Running) ==> r is Ok
            &&& (k >= 0 && ts[k].state != TaskState::Running) ==> tasks_view(final(tasks)@)
                == ts.remove(k)
        }),
{
    match find_task(tasks, id) {
        None => Err(String::from_str("任务不存在")),
        Some(k) => {
            proof {
                lemma_task_index(tasks_view(tasks@), id@);
            }
            if tasks[k].state == TaskState::Running {
                return Err(String::from_str("任务仍在运行中，请先取消"));
            }
            let ghost before = tasks@;
            let _ = tasks.remove(k);
            assert(tasks_view(tasks@) =~= tasks_view(before).remove(k as int));
            Ok(())
        },
    }
}

// ---------------------------------------------------------------------------
// Listing
// ---------------------------------------------------------------------------

/// Newest first: creation times never increase along the list.
pub open spec fn newest_first(ts: Seq<TaskView>) -> bool {
    forall|i: int, j: int| 0 <= i < j < ts.len() ==> ts[i].created_at >= ts[j].created_at
}

/// The tasks for the task page, newest first: the same records, ordered by
/// creation time, later ones before earlier ones.
pub fn list_tasks(tasks: &Vec<TaskInfo>) -> (r: Vec<TaskInfo>)
    ensures
        tasks_view(r@).to_multiset() == tasks_view(tasks@).to_multiset(),
        newest_first(tasks_view(r@)),
{
    let mut out: Vec<TaskInfo> = Vec::new();
    let mut k: usize = 0;
    assert(tasks_view(tasks@).take(0) =~= Seq::<TaskView>::empty());
    assert(tasks_view(out@) =~= Seq::<TaskView>::empty());
    while k < tasks.len()
        invariant
            k <= tasks.len(),
            tasks_view(out@).to_multiset() == tasks_view(tasks@).take(k as int).to_multiset(),
            newest_first(tasks_view(out@)),
        decreases tasks.len() - k,
    {
        let t = tasks[k].copy();
        // Insert after every record at least as new (stable for equal times).
        let mut p: usize = 0;
        while p < out.len() && out[p].created_at >= t.created_at
            invariant
                p <= out.len(),
                forall|i: int| 0 <= i < p ==> out@[i].created_at >= t.created_at,
            decreases out.len() - p,
        {
            p = p + 1;
        }
        proof {
            assert(p < out.len() ==> out@[p as int].created_at < t.created_at);
        }
        let ghost before = out@;
        out.insert(p, t);
        proof {
            broadcast use vstd::seq_lib::to_multiset_insert, vstd::seq_lib::to_multiset_build;
            assert(tasks_view(out@) =~= tasks_view(before).insert(p as int, t@));
            assert(tasks_view(tasks@).take(k + 1) =~= tasks_view(tasks@).take(k as int).push(
                tasks@[k as int]@,
            ));
            assert forall|i: int, j: int|
                0 <= i < j < tasks_view(out@).len() implies tasks_view(out@)[i].created_at
                >= tasks_view(out@)[j].created_at by {
                let bv = tasks_view(before);
                if j < p {
                    assert(tasks_view(out@)[i] == bv[i]);
                    assert(tasks_view(out@)[j] == bv[j]);
                } else if j == p {
                    assert(tasks_view(out@)[i] == bv[i]);
                    assert(before[i].created_at >= t.created_at);
                } else if i == p {
                    assert(tasks_view(out@)[j] == bv[j - 1]);
                    if j - 1 > p {
                        assert(bv[p as int].created_at >= bv[j - 1].created_at);
                    }
                    assert(before[p as int].created_at < t.created_at);
                } else if i < p {
                    assert(tasks_view(out@)[i] == bv[i]);
                    assert(tasks_view(out@)[j] == bv[j - 1]);
                } else {
                    assert(tasks_view(out@)[i] == bv[i - 1]);
                    assert(tasks_view(out@)[j] == bv[j - 1]);
                }
            }
        }
        k = k + 1;
    }
    assert(tasks_view(tasks@).take(tasks.len() as int) =~= tasks_view(tasks@));
    out
}


// ---------------------------------------------------------------------------
// Enqueueing an install
// ---------------------------------------------------------------------------

/// Why a running task blocks a new install of `version` for the instance
/// `name` (reserving `reserved`), if it does.
pub open spec fn task_conflict(
    t: TaskView,
    name: Seq<char>,
    version: Seq<char>,
    reserved: Option<Seq<char>>,
) -> Option<Seq<char>> {
    if t.state != TaskState::Running {
        None
    } else if t.instance_name == Some(name) {
        Some("同名实例的下载任务已在进行中"@)
    } else if t.kind == "create-instance"@ && t.version == version {
        Some("版本 "@ + version + " 的下载任务已在进行中"@)
    } else if t.reserved_home_path is Some && reserved is Some && same_path(
        t.reserved_home_path->0,
        reserved->0,
    ) {
        Some("该专属 DSH_HOME 已被其他下载任务占用"@)
    } else {
        None
    }
}

/// The first blocking reason along the task list.
pub open spec fn first_conflict(
    ts: Seq<TaskView>,
    name: Seq<char>,
    version: Seq<char>,
    reserved: Option<Seq<char>>,
) -> Option<Seq<char>>
    decreases ts.len(),
{
    if ts.len() == 0 {
        None
    } else {
        match task_conflict(ts[0], name, version, reserved) {
            Some(e) => Some(e),
            None => first_conflict(ts.drop_first(), name, version, reserved),
        }
    }
}

/// `<data_dir>/homes/<sanitized name>`: the HOME a dedicated task reserves.
pub open spec fn reserved_home_of(data_dir: Seq<char>, name: Seq<char>) -> Seq<char> {
    path_join(path_join(data_dir, "homes"@), sanitized(name))
}

/// Whether an instance is named `name`.
pub open spec fn has_instance_named(insts: Seq<InstanceView>, name: Seq<char>) -> bool {
    exists|i: int| 0 <= i < insts.len() && (#[trigger] insts[i]).name == name
}

/// Why a create-instance task for `name`/`version` is refused, checked in
/// this order: empty name, empty version, malformed version, an instance of
/// that name, a missing chosen HOME, then a conflicting running task.
pub open spec fn create_task_error(
    c: ConfigView,
    ts: Seq<TaskView>,
    data_dir: Seq<char>,
    name_raw: Seq<char>,
    version_raw: Seq<char>,
    home_id: Option<Seq<char>>,
    dedicated: bool,
) -> Option<Seq<char>> {
    let name = trim(name_raw);
    let version = trim(version_raw);
    if name.len() == 0 {
        Some("实例名称不能为空"@)
    } else if version.len() == 0 {
        Some("版本号不能为空"@)
    } else if !valid_version(version) {
        Some("版本号格式不合法: "@ + version)
    } else if has_instance_named(c.instances, name) {
        Some("同名实例已存在"@)
    } else if !dedicated && home_id is Some && !has_home(c.homes, home_id->0) {
        Some("DSH_HOME 不存在"@)
    } else {
        first_conflict(
            ts,
            name,
            version,
            if dedicated {
                Some(reserved_home_of(data_dir, name))
            } else {
                None
            },
        )
    }
}

/// The label of a create-instance task.
pub open spec fn task_label_of(name: Seq<char>, version: Seq<char>) -> Seq<char> {
    if name == version {
        "下载 DSH "@ + version + " 并创建实例"@
    } else {
        "下载 DSH "@ + version + " 并创建实例「"@ + name + "」"@
    }
}

fn task_conflict_exec(t: &TaskInfo, name: &String, version: &String, reserved: &Option<String>) -> (r:
    Option<String>)
    ensures
        opt_view(r) == task_conflict(t@, name@, version@, opt_view(*reserved)),
{
    proof {
        reveal_strlit("create-instance");
    }
    if t.state != TaskState::Running {
        return None;
    }
    match &t.instance_name {
        Some(n) => {
            if *n == *name {
                return Some(String::from_str("同名实例的下载任务已在进行中"));
            }
        },
        None => {},
    }
    if vec_eq(&chars_of(t.kind.as_str()), &chars_of("create-instance")) && t.version == *version {
        let mut m = chars_of("版本 ");
        append_vec(&mut m, &chars_of(version.as_str()));
        append_vec(&mut m, &chars_of(" 的下载任务已在进行中"));
        return Some(string_of(&m));
    }
    match (&t.reserved_home_path, reserved) {
        (Some(a), Some(b)) => {
            if paths_equal(a.as_str(), b.as_str()) {
                return Some(String::from_str("该专属 DSH_HOME 已被其他下载任务占用"));
            }
        },
        _ => {},
    }
    None
}

fn first_conflict_exec(
    tasks: &Vec<TaskInfo>,
    name: &String,
    version: &String,
    reserved: &Option<String>,
) -> (r: Option<String>)
    ensures
        opt_view(r) == first_conflict(tasks_view(tasks@), name@, version@, opt_view(*reserved)),
{
    let ghost ts = tasks_view(tasks@);
    let mut k: usize = 0;
    assert(ts.skip(0) =~= ts);
    while k < tasks.len()
        invariant
            k <= tasks.len(),
            ts == tasks_view(tasks@),
            first_conflict(ts, name@, version@, opt_view(*reserved)) == first_conflict(
                ts.skip(k as int),
                name@,
                version@,
                opt_view(*reserved),
            ),
        decreases tasks.len() - k,
    {
        assert(ts.skip(k as int)[0] == tasks@[k as int]@);
        assert(ts.skip(k as int).drop_first() =~= ts.skip(k + 1));
        let c = task_conflict_exec(&tasks[k], name, version, reserved);
        if c.is_some() {
            return c;
        }
        k = k + 1;
    }
    None
}

fn has_instance_named_exec(insts: &Vec<DshInstance>, name: &String) -> (r: bool)
    ensures
        r == has_instance_named(instances_view(insts@), name@),
{
    let mut k: usize = 0;
    while k < insts.len()
        invariant
            k <= insts.len(),
            forall|t: int| 0 <= t < k ==> instances_view(insts@)[t].name != name@,
        decreases insts.len() - k,
    {
        if insts[k].name == *name {
            assert(instances_view(insts@)[k as int].name == name@);
            return true;
        }
        k = k + 1;
    }
    false
}

fn has_home_id(homes: &Vec<DshHome>, id: &String) -> (r: bool)
    ensures
        r == has_home(homes_view(homes@), id@),
{
    let mut k: usize = 0;
    while k < homes.len()
        invariant
            k <= homes.len(),
            forall|t: int| 0 <= t < k ==> homes_view(homes@)[t].id != id@,
        decreases homes.len() - k,
    {
        if homes[k].id == *id {
            assert(homes_view(homes@)[k as int].id == id@);
            return true;
        }
        k = k + 1;
    }
    false
}

/// `UNIX_EPOCH.elapsed()`: the time since the Unix epoch by the system
/// clock, as whole seconds and the nanoseconds of the second begun
/// (`Duration::subsec_nanos`, always below one billion); `None` when the
/// clock is set before the epoch. The value depends on the clock alone.
#[verifier::external_body]
fn epoch_elapsed() -> (r: Option<(u64, u32)>)
    ensures
        r matches Some(t) ==> t.1 < 1_000_000_000,
{
    std::time::UNIX_EPOCH.elapsed().ok().map(|d| (d.as_secs(), d.subsec_nanos()))
}

/// A clock reading the system clock can give: whole seconds since the Unix
/// epoch and the nanoseconds of the second begun, or `None` for a clock set
/// before the epoch.
pub open spec fn clock_reading(e: Option<(u64, u32)>) -> bool {
    e matches Some(t) ==> t.1 < 1_000_000_000
}

/// The milliseconds of a clock reading (`Duration::as_millis`), as an `i64`
/// the way `as` converts it; 0 for a clock set before the epoch.
pub open spec fn epoch_millis(e: Option<(u64, u32)>) -> i64 {
    match e {
        Some((secs, nanos)) => ((secs as int) * 1000 + (nanos as int) / 1_000_000) as i64,
        None => 0,
    }
}

/// The milliseconds since the Unix epoch of a clock reading (see
/// [`epoch_millis`]).
pub fn millis_of_reading(e: Option<(u64, u32)>) -> (r: i64)
    ensures
        r == epoch_millis(e),
{
    match e {
        Some((secs, nanos)) => {
            let m: u128 = (secs as u128) * 1000 + ((nanos / 1_000_000) as u128);
            assert(m == (secs as int) * 1000 + (nanos as int) / 1_000_000);
            #[verifier::truncate]
            (m as i64)
        },
        None => 0,
    }
}

/// The current time in milliseconds since the Unix epoch: the milliseconds
/// of what the system clock reads (0 for a clock set before the epoch).
fn now_millis() -> (r: i64)
    ensures
        exists|e: Option<(u64, u32)>| clock_reading(e) && r == epoch_millis(e),
{
    let e = epoch_elapsed();
    let r = millis_of_reading(e);
    assert(clock_reading(e) && r == epoch_millis(e));
    r
}


/// Checks and builds a create-instance task (the caller inserts it and
/// starts the worker). Refused exactly when [`create_task_error`] names a
/// reason, with that reason.
fn start_create_instance_task(
    cfg: &Config,
    tasks: &Vec<TaskInfo>,
    data_dir: &str,
    name: &str,
    version: &str,
    home_id: &Option<String>,
    dedicated: bool,
) -> (r: Result<TaskInfo, String>)
    ensures
        match create_task_error(
            cfg@,
            tasks_view(tasks@),
            data_dir@,
            name@,
            version@,
            opt_view(*home_id),
            dedicated,
        ) {
            Some(e) => r matches Err(m) && m@ == e,
            None => r matches Ok(t) && {
                let n = trim(name@);
                let v = trim(version@);
                &&& is_new_id(t@.id, "t"@)
                &&& t@.kind == "create-instance"@
                &&& t@.label == task_label_of(n, v)
                &&& t@.version == v
                &&& t@.state == TaskState::Running
                &&& t@.percent == 0
                &&& (exists|e: Option<(u64, u32)>| clock_reading(e) && t@.created_at == epoch_millis(e))
                &&& t@.message is None
                &&& t@.instance_id is None
                &&& t@.instance_name == Some(n)
                &&& t@.reserved_home_path == (if dedicated {
                    Some(reserved_home_of(data_dir@, n))
                } else {
                    None
                })
                &&& t@.logs.len() == 0
            },
        },
{
    proof {
        reveal_strlit("create-instance");
        reveal_strlit("t");
    }
    let nc = trim_vec(&chars_of(name));
    let vc = trim_vec(&chars_of(version));
    let n = string_of(&nc);
    let v = string_of(&vc);
    if nc.len() == 0 {
        return Err(String::from_str("实例名称不能为空"));
    }
    if vc.len() == 0 {
        return Err(String::from_str("版本号不能为空"));
    }
    if !valid_version_string(v.as_str()) {
        return Err(cat("版本号格式不合法: ", v.as_str()));
    }
    let reserved: Option<String> = if dedicated {
        let root = join_path(data_dir, "homes");
        Some(join_path(root.as_str(), sanitize_name(n.as_str()).as_str()))
    } else {
        None
    };
    if has_instance_named_exec(&cfg.instances, &n) {
        return Err(String::from_str("同名实例已存在"));
    }
    if !dedicated {
        match home_id {
            Some(hid) => {
                if !has_home_id(&cfg.homes, hid) {
                    return Err(String::from_str("DSH_HOME 不存在"));
                }
            },
            None => {},
        }
    }
    match first_conflict_exec(tasks, &n, &v, &reserved) {
        Some(e) => {
            return Err(e);
        },
        None => {},
    }
    let label = if n == v {
        let mut m = chars_of("下载 DSH ");
        append_vec(&mut m, &chars_of(v.as_str()));
        append_vec(&mut m, &chars_of(" 并创建实例"));
        string_of(&m)
    } else {
        let mut m = chars_of("下载 DSH ");
        append_vec(&mut m, &chars_of(v.as_str()));
        append_vec(&mut m, &chars_of(" 并创建实例「"));
        append_vec(&mut m, &chars_of(n.as_str()));
        append_vec(&mut m, &chars_of("」"));
        string_of(&m)
    };
    Ok(
        TaskInfo {
            id: new_id("t"),
            kind: String::from_str("create-instance"),
            label,
            version: v,
            state: TaskState::Running,
            percent: 0,
            created_at: now_millis(),
            message: None,
            instance_id: None,
            instance_name: Some(n),
            reserved_home_path: reserved,
            logs: Vec::new(),
        },
    )
}

/// Checks and builds the task that installs `version` (trimmed) and creates
/// its instance, named after the version, in a dedicated HOME.
pub fn start_install_version_task(
    cfg: &Config,
    tasks: &Vec<TaskInfo>,
    data_dir: &str,
    version: &str,
) -> (r: Result<TaskInfo, String>)
    ensures
        ({
            let v = trim(version@);
            match create_task_error(cfg@, tasks_view(tasks@), data_dir@, v, v, None, true) {
                Some(e) => r matches Err(m) && m@ == e,
                None => r matches Ok(t) && {
                    &&& is_new_id(t@.id, "t"@)
                    &&& t@.kind == "create-instance"@
                    &&& t@.label == task_label_of(v, v)
                    &&& t@.version == v
                    &&& t@.state == TaskState::Running
                    &&& t@.percent == 0
                    &&& (exists|e: Option<(u64, u32)>| clock_reading(e) && t@.created_at
                        == epoch_millis(e))
                    &&& t@.message is None
                    &&& t@.instance_id is None
                    &&& t@.instance_name == Some(v)
                    &&& t@.reserved_home_path == Some(reserved_home_of(data_dir@, v))
                    &&& t@.logs.len() == 0
                },
            }
        }),
{
    let v = string_of(&trim_vec(&chars_of(version)));
    proof {
        crate::text::lemma_trim_idempotent(version@);
    }
    start_create_instance_task(cfg, tasks, data_dir, v.as_str(), v.as_str(), &None, true)
}


// ---------------------------------------------------------------------------
// Records the worker creates
// ---------------------------------------------------------------------------

/// Index of the first version record for the version string `version`, or -1.
pub open spec fn version_index(vs: Seq<VersionView>, version: Seq<char>) -> int
    decreases vs.len(),
{
    if vs.len() == 0 {
        -1
    } else {
        let f = version_index(vs.drop_last(), version);
        if f >= 0 {
            f
        } else if vs.last().version == version {
            vs.len() - 1
        } else {
            -1
        }
    }
}

proof fn lemma_version_index(vs: Seq<VersionView>, version: Seq<char>)
    ensures
        -1 <= version_index(vs, version) < vs.len(),
        version_index(vs, version) >= 0 ==> vs[version_index(vs, version)].version == version,
    decreases vs.len(),
{
    if vs.len() > 0 {
        lemma_version_index(vs.drop_last(), version);
        let f = version_index(vs.drop_last(), version);
        if f >= 0 {
            assert(vs.drop_last()[f] == vs[f]);
        }
    }
}

proof fn lemma_version_index_prefix(vs: Seq<VersionView>, version: Seq<char>, k: int)
    requires
        0 <= k < vs.len(),
        version_index(vs.take(k), version) == -1,
        vs[k].version == version,
    ensures
        version_index(vs, version) == k,
    decreases vs.len(),
{
    assert(vs.take(k + 1).drop_last() =~= vs.take(k));
    assert(version_index(vs.take(k + 1), version) == k);
    if vs.len() > k + 1 {
        assert(vs.drop_last().take(k) =~= vs.take(k));
        lemma_version_index_prefix(vs.drop_last(), version, k);
    } else {
        assert(vs.take(k + 1) =~= vs);
    }
}

/// Finds the version record of an installed version string.
pub fn find_version(versions: &Vec<DshVersion>, version: &str) -> (r: Option<usize>)
    ensures
        match r {
            Some(k) => k as int == version_index(versions_view(versions@), version@),
            None => version_index(versions_view(versions@), version@) == -1,
        },
{
    let key = String::from_str(version);
    let mut k: usize = 0;
    while k < versions.len()
        invariant
            k <= versions.len(),
            key@ == version@,
            version_index(versions_view(versions@).take(k as int), version@) == -1,
        decreases versions.len() - k,
    {
        proof {
            assert(versions_view(versions@).take(k + 1).drop_last() =~= versions_view(
                versions@,
            ).take(k as int));
        }
        if versions[k].version == key {
            proof {
                lemma_version_index_prefix(versions_view(versions@), version@, k as int);
            }
            return Some(k);
        }
        k = k + 1;
    }
    assert(versions_view(versions@).take(versions.len() as int) =~= versions_view(versions@));
    None
}

/// Records an installed version, idempotently by version string: an
/// existing record for `version` is returned unchanged; otherwise a record
/// with a fresh `v-` id and the install directory is appended.
pub fn register_version(versions: &mut Vec<DshVersion>, version: &str, dir: &str) -> (r:
    DshVersion)
    ensures
        ({
            let k = version_index(versions_view(old(versions)@), version@);
            &&& k >= 0 ==> final(versions)@ == old(versions)@ && r@ == versions_view(
                old(versions)@,
            )[k]
            &&& k < 0 ==> r@.version == version@ && r@.dir == dir@ && is_new_id(r@.id, "v"@)
                && versions_view(final(versions)@) == versions_view(old(versions)@).push(r@)
        }),
{
    match find_version(versions, version) {
        Some(k) => {
            proof {
                lemma_version_index(versions_view(versions@), version@);
            }
            versions[k].copy()
        },
        None => {
            let rec = DshVersion {
                id: new_id("v"),
                version: String::from_str(version),
                dir: String::from_str(dir),
            };
            let ghost before = versions@;
            versions.push(rec.copy());
            assert(versions_view(versions@) =~= versions_view(before).push(rec@));
            rec
        },
    }
}

/// Registering a version twice records it once: after a registration the
/// version string is found, so the next one changes nothing.
pub proof fn lemma_register_version_idempotent(vs: Seq<VersionView>, rec: VersionView)
    requires
        version_index(vs, rec.version) < 0,
    ensures
        version_index(vs.push(rec), rec.version) == vs.len(),
{
    assert(vs.push(rec).drop_last() =~= vs);
}

/// Whether an instance of `insts` has the id `id`.
pub open spec fn has_instance_id(insts: Seq<InstanceView>, id: Seq<char>) -> bool {
    exists|i: int| 0 <= i < insts.len() && (#[trigger] insts[i]).id == id
}

/// Creates the instance record a finished install task registers: refused
/// when an instance already has the name or the HOME record is gone;
/// otherwise a record with a fresh `i-` id, no overrides and no profile is
/// appended and returned.
pub fn create_instance_record(
    cfg: &mut Config,
    name: &str,
    version_id: &str,
    home_id: &str,
) -> (r: Result<DshInstance, String>)
    ensures
        final(cfg)@.homes == old(cfg)@.homes,
        final(cfg)@.versions == old(cfg)@.versions,
        final(cfg)@.settings == old(cfg)@.settings,
        has_instance_named(old(cfg)@.instances, name@) ==> (r matches Err(e) && e@
            == "同名实例已存在"@) && final(cfg)@ == old(cfg)@,
        !has_instance_named(old(cfg)@.instances, name@) && !has_home(old(cfg)@.homes, home_id@)
            ==> (r matches Err(e) && e@ == "DSH_HOME 不存在"@) && final(cfg)@ == old(cfg)@,
        !has_instance_named(old(cfg)@.instances, name@) && has_home(old(cfg)@.homes, home_id@)
            ==> (r matches Ok(i) && {
            &&& is_new_id(i@.id, "i"@)
            &&& i@.name == name@
            &&& i@.version_id == version_id@
            &&& i@.home_id == home_id@
            &&& i@.env_overrides.len() == 0
            &&& i@.default_profile is None
            &&& i@.last_profile is None
            &&& i@.icon is None
            &&& i@.port is None
            &&& final(cfg)@.instances == old(cfg)@.instances.push(i@)
        }),
{
    let n = String::from_str(name);
    if has_instance_named_exec(&cfg.instances, &n) {
        return Err(String::from_str("同名实例已存在"));
    }
    let h = String::from_str(home_id);
    if !has_home_id(&cfg.homes, &h) {
        return Err(String::from_str("DSH_HOME 不存在"));
    }
    let inst = DshInstance {
        id: new_id("i"),
        name: n,
        version_id: String::from_str(version_id),
        home_id: h,
        env_overrides: Vec::new(),
        default_profile: None,
        last_profile: None,
        icon: None,
        port: None,
    };
    let ghost before = cfg.instances@;
    cfg.instances.push(inst.copy());
    assert(instances_view(cfg.instances@) =~= instances_view(before).push(inst@));
    Ok(inst)
}

// ---------------------------------------------------------------------------
// Progress while a command streams
// ---------------------------------------------------------------------------

/// The percent after one streamed log line: one more, held at 90.
pub open spec fn stream_next(p: u32) -> u32 {
    if p + 1 < 90 {
        (p + 1) as u32
    } else {
        90
    }
}

/// The percent after a heartbeat tick while the command is quiet: two more
/// up to 90, then one more up to 99; `None` once 99 is reached (the
/// heartbeat stops).
pub open spec fn heartbeat_next(p: u32) -> Option<u32> {
    if p < 90 {
        Some(if p + 2 < 90 { (p + 2) as u32 } else { 90u32 })
    } else if p < 99 {
        Some((p + 1) as u32)
    } else {
        None
    }
}

/// The percent after one streamed log line (see [`stream_next`]).
pub fn stream_percent(p: u32) -> (r: u32)
    requires
        p < u32::MAX,
    ensures
        r == stream_next(p),
{
    let q = p + 1;
    if q < 90 {
        q
    } else {
        90
    }
}

/// The percent after a heartbeat tick (see [`heartbeat_next`]).
pub fn heartbeat_percent(p: u32) -> (r: Option<u32>)
    ensures
        r == heartbeat_next(p),
{
    if p < 90 {
        let q = p + 2;
        Some(
            if q < 90 {
                q
            } else {
                90
            },
        )
    } else if p < 99 {
        Some(p + 1)
    } else {
        None
    }
}

/// A running task's progress never passes 99 before it finishes: from at
/// most 99, neither a streamed line nor a heartbeat tick goes past it.
pub proof fn lemma_progress_bounded(p: u32)
    requires
        p <= 99,
    ensures
        stream_next(p) <= 99,
        heartbeat_next(p) matches Some(q) ==> q <= 99,
{
}

/// One line a task command printed: trailing line breaks are cut and a
/// blank result is skipped (`None`). For a running task the line is logged
/// and the percent nudged; the second value is the percent to emit (every
/// 20th logged line). The first value is the line to forward as a log event.
pub fn record_stream_line(task: &mut TaskInfo, raw: &str) -> (r: (Option<String>, Option<u32>))
    requires
        old(task).percent < u32::MAX,
    ensures
        ({
            let l = crate::text::trim_end_crlf(raw@);
            &&& l.len() == 0 ==> r.0 is None && r.1 is None && final(task)@ == old(task)@
            &&& l.len() > 0 ==> (r.0 matches Some(x) && x@ == l)
            &&& (l.len() > 0 && old(task)@.state != TaskState::Running) ==> r.1 is None
                && final(task)@ == old(task)@
            &&& (l.len() > 0 && old(task)@.state == TaskState::Running) ==> {
                let pct = stream_next(old(task).percent);
                &&& final(task)@ == (TaskView {
                    logs: log_kept(old(task)@.logs).push(l),
                    percent: pct,
                    ..old(task)@
                })
                &&& r.1 == (if final(task)@.logs.len() % 20 == 0 {
                    Some(pct)
                } else {
                    None
                })
            }
        }),
{
    let line = crate::text::trim_end_crlf_str(raw);
    if chars_of(line.as_str()).len() == 0 {
        return (None, None);
    }
    if task.state != TaskState::Running {
        return (Some(line), None);
    }
    push_log_locked(task, line.as_str());
    let pct = stream_percent(task.percent);
    task.percent = pct;
    let emit = if task.logs.len() % 20 == 0 {
        Some(pct)
    } else {
        None
    };
    (Some(line), emit)
}

/// One heartbeat tick on a task: `None` ends the heartbeat (the task is no
/// longer running or reached 99%); otherwise the new percent, to emit.
pub fn heartbeat_tick(task: &mut TaskInfo) -> (r: Option<u32>)
    ensures
        old(task)@.state != TaskState::Running ==> r is None && final(task)@ == old(task)@,
        old(task)@.state == TaskState::Running ==> r == heartbeat_next(old(task).percent),
        old(task)@.state == TaskState::Running ==> match r {
            Some(p) => final(task)@ == (TaskView { percent: p, ..old(task)@ }),
            None => final(task)@ == old(task)@,
        },
{
    if task.state != TaskState::Running {
        return None;
    }
    match heartbeat_percent(task.percent) {
        Some(p) => {
            task.percent = p;
            Some(p)
        },
        None => None,
    }
}


// ---------------------------------------------------------------------------
// Failure reports
// ---------------------------------------------------------------------------

/// A log line that reports a failure: its lowercase form mentions a pnpm
/// error code, `error`, `aborted`, `failed` or `timeout`.
pub open spec fn is_error_line(l: Seq<char>) -> bool {
    let s = lowercase(l);
    contains(s, "err_pnpm"@) || contains(s, "error"@) || contains(s, "aborted"@) || contains(
        s,
        "failed"@,
    ) || contains(s, "timeout"@)
}

/// Index of the last failure line, or -1.
pub open spec fn last_error_index(ls: Seq<Seq<char>>) -> int
    decreases ls.len(),
{
    if ls.len() == 0 {
        -1
    } else if is_error_line(ls.last()) {
        ls.len() - 1
    } else {
        last_error_index(ls.drop_last())
    }
}

/// What a failed command's log is reduced to: from the last failure line
/// on, its first three non-blank lines (the remedy pnpm prints follows the
/// error); without a failure line, the last three non-blank lines.
pub open spec fn failure_summary(ls: Seq<Seq<char>>) -> Seq<char> {
    let i = last_error_index(ls);
    if i >= 0 {
        join(crate::text::first_at_most(crate::text::nonblank(ls.skip(i)), 3), " | "@)
    } else {
        join(crate::text::last_at_most(crate::text::nonblank(ls), 3), " | "@)
    }
}

/// The error a failed task command reports (`status` is how it exited).
pub open spec fn streamed_failure(ls: Seq<Seq<char>>, what: Seq<char>, status: Seq<char>) -> Seq<
    char,
> {
    let s = failure_summary(ls);
    what + " 失败: "@ + (if s.len() == 0 {
        what + " 退出码 "@ + status + "（子进程未输出任何日志）"@
    } else {
        s
    })
}

/// Whether a line reports a failure (see [`is_error_line`]).
pub fn is_error_line_exec(l: &str) -> (r: bool)
    ensures
        r == is_error_line(l@),
{
    let s = to_lowercase(l);
    str_contains(s.as_str(), "err_pnpm") || str_contains(s.as_str(), "error") || str_contains(
        s.as_str(),
        "aborted",
    ) || str_contains(s.as_str(), "failed") || str_contains(s.as_str(), "timeout")
}

proof fn lemma_last_error_index(ls: Seq<Seq<char>>)
    ensures
        -1 <= last_error_index(ls) < ls.len(),
    decreases ls.len(),
{
    if ls.len() > 0 && !is_error_line(ls.last()) {
        lemma_last_error_index(ls.drop_last());
    }
}

/// Index of the last failure line of `logs`.
fn last_error_line(logs: &Vec<String>) -> (r: Option<usize>)
    ensures
        match r {
            Some(i) => i as int == last_error_index(view_strings(logs@)),
            None => last_error_index(view_strings(logs@)) == -1,
        },
{
    let ghost ls = view_strings(logs@);
    let mut j = logs.len();
    assert(ls.take(j as int) =~= ls);
    while j > 0
        invariant
            j <= logs.len(),
            ls == view_strings(logs@),
            last_error_index(ls) == last_error_index(ls.take(j as int)),
        decreases j,
    {
        assert(ls.take(j as int).drop_last() =~= ls.take(j - 1));
        assert(ls.take(j as int).last() == logs@[j - 1]@);
        if is_error_line_exec(logs[j - 1].as_str()) {
            return Some(j - 1);
        }
        j = j - 1;
    }
    None
}

/// The error of a failed task command, built from the task's log (see
/// [`streamed_failure`]).
pub fn streamed_failure_message(logs: &Vec<String>, what: &str, status: &str) -> (r: String)
    ensures
        r@ == streamed_failure(view_strings(logs@), what@, status@),
{
    let ghost ls = view_strings(logs@);
    let found = last_error_line(logs);
    proof {
        lemma_last_error_index(ls);
    }
    let picked: Vec<String> = match found {
        Some(i) => {
            let mut rest: Vec<String> = Vec::new();
            let mut k = i;
            while k < logs.len()
                invariant
                    i <= k <= logs.len(),
                    view_strings(rest@) == ls.subrange(i as int, k as int),
                    ls == view_strings(logs@),
                decreases logs.len() - k,
            {
                let x = logs[k].clone();
                proof {
                    assert(view_strings(rest@.push(x)) =~= view_strings(rest@).push(x@));
                    assert(ls.subrange(i as int, k + 1) =~= ls.subrange(i as int, k as int).push(
                        ls[k as int],
                    ));
                }
                rest.push(x);
                k = k + 1;
            }
            assert(ls.subrange(i as int, logs.len() as int) =~= ls.skip(i as int));
            let nb = crate::text::nonblank_strings(&rest);
            crate::text::first_strings(&nb, 3)
        },
        None => {
            let nb = crate::text::nonblank_strings(logs);
            crate::text::last_strings(&nb, 3)
        },
    };
    let summary = crate::text::join_strings(&picked, " | ");
    let mut m = chars_of(what);
    append_vec(&mut m, &chars_of(" 失败: "));
    if chars_of(summary.as_str()).len() == 0 {
        append_vec(&mut m, &chars_of(what));
        append_vec(&mut m, &chars_of(" 退出码 "));
        append_vec(&mut m, &chars_of(status));
        append_vec(&mut m, &chars_of("（子进程未输出任何日志）"));
    } else {
        append_vec(&mut m, &chars_of(summary.as_str()));
    }
    string_of(&m)
}

/// The lines whose lowercase form mentions `error`.
pub open spec fn error_lines(ls: Seq<Seq<char>>) -> Seq<Seq<char>>
    decreases ls.len(),
{
    if ls.len() == 0 {
        seq![]
    } else if contains(lowercase(ls.last()), "error"@) {
        error_lines(ls.drop_last()).push(ls.last())
    } else {
        error_lines(ls.drop_last())
    }
}

/// The most stderr lines the template boot keeps for its failure report.
pub const STDERR_TAIL_LINES: usize = 200;

/// One stderr line of the template boot: trailing line breaks and
/// surrounding whitespace are cut; a blank line is skipped (`None`);
/// otherwise it joins the tail (dropping the oldest line at 200) and is
/// returned for the task log.
pub fn push_stderr_tail(tail: &mut Vec<String>, raw: &str) -> (r: Option<String>)
    ensures
        ({
            let l = trim(crate::text::trim_end_crlf(raw@));
            &&& l.len() == 0 ==> r is None && final(tail)@ == old(tail)@
            &&& l.len() > 0 ==> (r matches Some(x) && x@ == l) && view_strings(final(tail)@) == (
            if old(tail)@.len() >= STDERR_TAIL_LINES {
                view_strings(old(tail)@).drop_first()
            } else {
                view_strings(old(tail)@)
            }).push(l)
        }),
{
    let cut = crate::text::trim_end_crlf_str(raw);
    let lc = trim_vec(&chars_of(cut.as_str()));
    if lc.len() == 0 {
        return None;
    }
    let l = string_of(&lc);
    let ghost before = tail@;
    if tail.len() >= STDERR_TAIL_LINES {
        let _ = tail.remove(0);
        assert(view_strings(tail@) =~= view_strings(before).drop_first());
    }
    let ghost mid = tail@;
    tail.push(l.clone());
    assert(view_strings(tail@) =~= view_strings(mid).push(l@));
    Some(l)
}

/// The error when the template boot never printed its web URL: the last
/// two stderr lines that mention `error` (or the last two lines when none
/// does).
pub open spec fn template_failure(tail: Seq<Seq<char>>) -> Seq<char> {
    let errs = error_lines(tail);
    let src = if errs.len() == 0 {
        tail
    } else {
        errs
    };
    let summary = join(crate::text::last_at_most(src, 2), " | "@);
    if summary.len() == 0 {
        "生成 web profile 超时或失败"@
    } else {
        "生成 web profile 超时或失败："@ + summary
    }
}

/// The error when the template boot never printed its web URL (see
/// [`template_failure`]).
pub fn template_failure_message(tail: &Vec<String>) -> (r: String)
    ensures
        r@ == template_failure(view_strings(tail@)),
{
    let ghost ls = view_strings(tail@);
    let mut errs: Vec<String> = Vec::new();
    let mut k: usize = 0;
    while k < tail.len()
        invariant
            k <= tail.len(),
            ls == view_strings(tail@),
            view_strings(errs@) == error_lines(ls.take(k as int)),
        decreases tail.len() - k,
    {
        proof {
            assert(ls.take(k + 1).drop_last() =~= ls.take(k as int));
            assert(ls.take(k + 1).last() == tail@[k as int]@);
        }
        let low = to_lowercase(tail[k].as_str());
        if str_contains(low.as_str(), "error") {
            let x = tail[k].clone();
            proof {
                assert(view_strings(errs@.push(x)) =~= view_strings(errs@).push(x@));
            }
            errs.push(x);
        }
        k = k + 1;
    }
    assert(ls.take(tail.len() as int) =~= ls);
    let picked = if errs.len() == 0 {
        crate::text::last_strings(tail, 2)
    } else {
        crate::text::last_strings(&errs, 2)
    };
    let summary = crate::text::join_strings(&picked, " | ");
    if chars_of(summary.as_str()).len() == 0 {
        String::from_str("生成 web profile 超时或失败")
    } else {
        cat("生成 web profile 超时或失败：", summary.as_str())
    }
}

/// Whether a stdout line of the template boot shows the web URL (the
/// profile has been materialised).
pub fn template_ready_line(raw: &str) -> (r: bool)
    ensures
        r == contains(trim(raw@), "dsh web: http"@),
{
    let t = string_of(&trim_vec(&chars_of(raw)));
    str_contains(t.as_str(), "dsh web: http")
}

// ---------------------------------------------------------------------------
// The install attempt plan
// ---------------------------------------------------------------------------

/// How many times a version install runs before it gives up.
pub const MAX_INSTALL_ATTEMPTS: u32 = 3;

/// What follows a failed `pnpm install` attempt.
#[derive(Clone, Copy, Debug, PartialEq, Eq, Structural)]
pub enum RetryStep {
    /// pnpm blocked build scripts on the first attempt: approve them and run
    /// the same attempt again.
    AllowBuildsAndRetry,
    /// The last attempt failed: report its error.
    GiveUp,
    /// The task was cancelled meanwhile.
    Cancelled,
    /// Wipe the store and the version directory, then make the final attempt.
    WipeAndRetry,
    /// Wait and retry.
    Retry,
}

/// The step after failed attempt `attempt` (counting from 1), given
/// whether build scripts were already approved for a retry, whether the log
/// shows pnpm's ignored-build-scripts failure and whether the task is still
/// running: the build-script retry happens once, on the first attempt, and
/// repeats that attempt.
pub open spec fn retry_step_of(attempt: u32, builds_allowed: bool, ignored_builds: bool, running: bool) -> RetryStep {
    if attempt == 1 && ignored_builds && !builds_allowed {
        RetryStep::AllowBuildsAndRetry
    } else if attempt >= MAX_INSTALL_ATTEMPTS {
        RetryStep::GiveUp
    } else if !running {
        RetryStep::Cancelled
    } else if attempt + 1 == MAX_INSTALL_ATTEMPTS {
        RetryStep::WipeAndRetry
    } else {
        RetryStep::Retry
    }
}

/// What is left of the install loop: two steps per remaining attempt, plus
/// one while the build-script retry is still available.
pub open spec fn retries_left(attempt: u32, builds_allowed: bool) -> int {
    2 * (MAX_INSTALL_ATTEMPTS - attempt) + if builds_allowed {
        0int
    } else {
        1int
    }
}

/// The step after a failed attempt (see [`retry_step_of`]) and the attempt
/// number and build-script approval the loop goes on with. Every step that
/// goes on leaves less of the loop ([`retries_left`] falls and stays
/// non-negative from a first attempt), so the loop ends.
pub fn install_retry_step(attempt: u32, builds_allowed: bool, ignored_builds: bool, running: bool) -> (r: (
    RetryStep,
    u32,
    bool,
))
    ensures
        r.0 == retry_step_of(attempt, builds_allowed, ignored_builds, running),
        r.0 == RetryStep::AllowBuildsAndRetry ==> r.1 == attempt && r.2,
        (r.0 == RetryStep::WipeAndRetry || r.0 == RetryStep::Retry) ==> r.1 == attempt + 1
            && r.2 == builds_allowed && r.1 <= MAX_INSTALL_ATTEMPTS,
        (r.0 == RetryStep::GiveUp || r.0 == RetryStep::Cancelled) ==> r.1 == attempt && r.2
            == builds_allowed,
        (r.0 == RetryStep::AllowBuildsAndRetry || r.0 == RetryStep::WipeAndRetry || r.0
            == RetryStep::Retry) ==> retries_left(r.1, r.2) < retries_left(attempt, builds_allowed)
            && retries_left(r.1, r.2) >= 0,
{
    if attempt == 1 && ignored_builds && !builds_allowed {
        (RetryStep::AllowBuildsAndRetry, attempt, true)
    } else if attempt >= MAX_INSTALL_ATTEMPTS {
        (RetryStep::GiveUp, attempt, builds_allowed)
    } else if !running {
        (RetryStep::Cancelled, attempt, builds_allowed)
    } else if attempt + 1 == MAX_INSTALL_ATTEMPTS {
        (RetryStep::WipeAndRetry, attempt + 1, builds_allowed)
    } else {
        (RetryStep::Retry, attempt + 1, builds_allowed)
    }
}

/// The task-log note before an ordinary retry.
pub fn retry_note(attempt: u32) -> (r: String)
    ensures
        r@ == "安装失败，正在重试（第 "@ + dec(attempt as nat) + " 次重试）…"@,
{
    let mut m = chars_of("安装失败，正在重试（第 ");
    append_vec(&mut m, &dec_vec(attempt as u64));
    append_vec(&mut m, &chars_of(" 次重试）…"));
    string_of(&m)
}

/// The version directory of an npm install: `<data_dir>/versions/<version>`.
pub fn version_install_dir(data_dir: &str, version: &str) -> (r: String)
    ensures
        r@ == path_join(path_join(data_dir@, "versions"@), version@),
{
    let root = join_path(data_dir, "versions");
    join_path(root.as_str(), version)
}

/// The package spec a version install asks pnpm for.
pub fn dsh_package_spec(version: &str) -> (r: String)
    ensures
        r@ == "@deepseek-ai/dsh@"@ + version@,
{
    cat("@deepseek-ai/dsh@", version)
}

/// Whether `npm view @deepseek-ai/dsh@<version> version` shows the version
/// is published: it ran and succeeded with some output (an unknown version
/// exits 0 with empty output). When npm could not be run at all, the npm
/// path is kept so its own error surfaces.
pub fn npm_view_published(ran: bool, success: bool, stdout: &str) -> (r: bool)
    ensures
        r == (!ran || (success && trim(stdout@).len() > 0)),
{
    if !ran {
        return true;
    }
    success && trim_vec(&chars_of(stdout)).len() > 0
}

/// Reads the answer of the GitHub tag lookup for `dsh-v<version>`: found is
/// `true`; a 404 is `false`; a 403/429 is reported as rate limiting; any
/// other error is passed on.
pub fn github_tag_answer(fetch: Result<(), String>, version: &str) -> (r: Result<bool, String>)
    ensures
        match fetch {
            Ok(_) => r == Ok::<bool, String>(true),
            Err(e) => if contains(e@, "HTTP 404"@) {
                r == Ok::<bool, String>(false)
            } else if contains(e@, "HTTP 403"@) || contains(e@, "HTTP 429"@) {
                r matches Err(m) && m@ == "GitHub API 请求被限流，无法确认版本 "@ + version@
                    + " 是否存在；请稍后重试"@ + e@
            } else {
                r matches Err(m) && m@ == e@
            },
        },
{
    match fetch {
        Ok(_) => Ok(true),
        Err(e) => {
            if str_contains(e.as_str(), "HTTP 404") {
                Ok(false)
            } else if str_contains(e.as_str(), "HTTP 403") || str_contains(e.as_str(), "HTTP 429") {
                let mut m = chars_of("GitHub API 请求被限流，无法确认版本 ");
                append_vec(&mut m, &chars_of(version));
                append_vec(&mut m, &chars_of(" 是否存在；请稍后重试"));
                append_vec(&mut m, &chars_of(e.as_str()));
                Err(string_of(&m))
            } else {
                Err(e)
            }
        },
    }
}

/// The error of a failed `git clone`: when git itself could not be run, the
/// message says that a source build needs Git.
pub fn git_clone_error(e: &str) -> (r: String)
    ensures
        r@ == (if contains(e@, "程序"@) || contains(e@, "program"@) || contains(e@, "not found"@) {
            "源码构建需要安装 Git："@ + e@
        } else {
            e@
        }),
{
    if str_contains(e, "程序") || str_contains(e, "program") || str_contains(e, "not found") {
        cat("源码构建需要安装 Git：", e)
    } else {
        String::from_str(e)
    }
}

/// The task-log note before `pnpm rebuild`: how many dependencies still
/// have build scripts pending, and the first three of them.
pub fn pending_builds_note(pending: &Vec<String>) -> (r: String)
    ensures
        r@ == "检测到 "@ + dec(pending@.len()) + " 个依赖的构建脚本未执行（"@ + join(
            crate::text::first_at_most(view_strings(pending@), 3),
            ", "@,
        ) + "…），运行 pnpm rebuild 补建…"@,
{
    let shown = crate::text::join_strings(&crate::text::first_strings(pending, 3), ", ");
    let mut m = chars_of("检测到 ");
    append_vec(&mut m, &dec_vec(pending.len() as u64));
    append_vec(&mut m, &chars_of(" 个依赖的构建脚本未执行（"));
    append_vec(&mut m, &chars_of(shown.as_str()));
    append_vec(&mut m, &chars_of("…），运行 pnpm rebuild 补建…"));
    string_of(&m)
}

/// The error when dependencies are still unbuilt after `pnpm rebuild`.
pub fn pending_builds_error(still: &Vec<String>) -> (r: String)
    ensures
        r@ == "pnpm rebuild 后仍有 "@ + dec(still@.len()) + " 个依赖未完成构建: "@ + join(
            crate::text::first_at_most(view_strings(still@), 3),
            ", "@,
        ),
{
    let shown = crate::text::join_strings(&crate::text::first_strings(still, 3), ", ");
    let mut m = chars_of("pnpm rebuild 后仍有 ");
    append_vec(&mut m, &dec_vec(still.len() as u64));
    append_vec(&mut m, &chars_of(" 个依赖未完成构建: "));
    append_vec(&mut m, &chars_of(shown.as_str()));
    string_of(&m)
}

/// The port offset of a clock reading: its sub-second nanoseconds modulo
/// 30000 (0 for a clock set before the epoch).
pub open spec fn port_offset(e: Option<(u64, u32)>) -> u16 {
    match e {
        Some((_, nanos)) => (nanos % 30000) as u16,
        None => 0,
    }
}

/// The port offset of a clock reading (see [`port_offset`]).
pub fn port_offset_of_reading(e: Option<(u64, u32)>) -> (r: u16)
    ensures
        r == port_offset(e),
        r < 30000,
{
    match e {
        Some((_, nanos)) => (nanos % 30000) as u16,
        None => 0,
    }
}

/// A pseudo-random port offset below 30000 taken from the clock's
/// sub-second nanoseconds, so that several HOMEs rarely boot on one port.
fn rand_port_offset() -> (r: u16)
    ensures
        exists|e: Option<(u64, u32)>| clock_reading(e) && r == port_offset(e),
        r < 30000,
{
    let e = epoch_elapsed();
    let r = port_offset_of_reading(e);
    assert(clock_reading(e) && r == port_offset(e));
    r
}

/// The port a template boot binds: 20000 plus a random offset below 30000.
pub fn template_boot_port() -> (r: u16)
    ensures
        20000 <= r < 50000,
        exists|e: Option<(u64, u32)>| clock_reading(e) && r == 20000 + port_offset(e),
{
    20000 + rand_port_offset()
}

// ---------------------------------------------------------------------------
// pnpm's record of unbuilt dependencies
// ---------------------------------------------------------------------------

/// The texts of a list of values, when every value is a string.
pub open spec fn string_items(items: Seq<Json>) -> Option<Seq<Seq<char>>>
    decreases items.len(),
{
    if items.len() == 0 {
        Some(seq![])
    } else {
        match (string_items(items.drop_last()), items.last()) {
            (Some(v), Json::Str(s)) => Some(v.push(s@)),
            _ => None,
        }
    }
}

/// The packages pnpm recorded under `pendingBuilds` in
/// `node_modules/.modules.yaml` (`doc`, the parsed document; `None` when the
/// file does not parse): the strings of that member when it is a list of
/// strings; nothing when the document is not a mapping, lacks the member,
/// or holds something else under it, as for a document that cannot be read.
pub open spec fn pending_builds_of(doc: Option<Json>) -> Seq<Seq<char>> {
    match field_of(doc, "pendingBuilds"@) {
        Some(Json::Array(a)) => match string_items(a@) {
            Some(v) => v,
            None => seq![],
        },
        _ => seq![],
    }
}

/// The packages whose build scripts pnpm did not run (see
/// [`pending_builds_of`]). The file is JSON-flavoured YAML (pnpm 11 writes
/// the list inline), so it is read as a parsed document, not line by line.
pub fn parse_pending_builds(doc: &Option<Json>) -> (r: Vec<String>)
    ensures
        view_strings(r@) == pending_builds_of(*doc),
{
    proof {
        reveal_strlit("pendingBuilds");
    }
    let member = match doc {
        Some(d) => crate::json::get_field(d, "pendingBuilds"),
        None => None,
    };
    match member {
        Some(Json::Array(a)) => {
            let ghost d0 = *doc;
            assert(field_of(d0, "pendingBuilds"@) == Some(Json::Array(*a)));
            let mut out: Vec<String> = Vec::new();
            let mut k: usize = 0;
            while k < a.len()
                invariant
                    k <= a.len(),
                    string_items(a@.take(k as int)) == Some(view_strings(out@)),
                    field_of(d0, "pendingBuilds"@) == Some(Json::Array(*a)),
                    d0 == *doc,
                decreases a.len() - k,
            {
                assert(a@.take(k + 1).drop_last() =~= a@.take(k as int));
                assert(a@.take(k + 1).last() == a@[k as int]);
                match &a[k] {
                    Json::Str(s) => {
                        let ghost before = view_strings(out@);
                        out.push(s.clone());
                        assert(view_strings(out@) =~= before.push(s@));
                    },
                    _ => {
                        proof {
                            lemma_string_items_stop(a@, k as int);
                            assert(pending_builds_of(d0) == Seq::<Seq<char>>::empty());
                        }
                        let none: Vec<String> = Vec::new();
                        assert(view_strings(none@) =~= Seq::<Seq<char>>::empty());
                        return none;
                    },
                }
                k = k + 1;
            }
            assert(a@.take(a.len() as int) =~= a@);
            out
        },
        _ => {
            let none: Vec<String> = Vec::new();
            assert(view_strings(none@) =~= Seq::<Seq<char>>::empty());
            none
        },
    }
}

/// A list with a non-string item has no string texts.
proof fn lemma_string_items_stop(items: Seq<Json>, k: int)
    requires
        0 <= k < items.len(),
        !(items[k] is Str),
    ensures
        string_items(items) is None,
    decreases items.len(),
{
    if k < items.len() - 1 {
        assert(items.drop_last()[k] == items[k]);
        lemma_string_items_stop(items.drop_last(), k);
    }
}


} // verus!
