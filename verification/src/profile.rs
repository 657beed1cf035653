//! Profile layout under a DSH_HOME and the profile patch document
//! (`cordis.patch.yml`).
//!
//! A profile is one directory under `<DSH_HOME>/profiles/<name>`. Its patch
//! document is edited by three parties: the CLI writes insert rows when a
//! plugin is installed, the launcher writes `disabled:` rows to gate plugins,
//! and the remote-web-ui plugin manages a marked lan-bind block that pins the
//! web port. Every editor of that document lives here.

use crate::paths::{join_path_vec, path_join};
use crate::text::{
    is_ws, lemma_lines_from_suffix, lemma_lines_two, lemma_trimmed_edges, lines_from, trim_end,
    all_ws, alphanumeric, append_vec, chars_of, concat_vec, contains, copy_vec, dec, dec_vec,
    ends_with, ends_with_exec, has_char, is_alphanumeric, join, join_vec, lines, skip_ws_forward,
    slice_vec, spaces, split_lines, starts_with, starts_with_exec, string_of, trim, trim_bounds,
    trim_start, trim_start_matches, trim_start_matches_vec, trim_start_vec, trim_vec, utf8_len,
    utf8_len_seq, vec_eq, view_lines, view_strings,
};
use vstd::prelude::*;

verus! {

// ---------------------------------------------------------------------------
// Layout & naming
// ---------------------------------------------------------------------------

/// `<home>/profiles`.
pub open spec fn profiles_dir_of(home: Seq<char>) -> Seq<char> {
    path_join(home, "profiles"@)
}

/// The profiles directory under a DSH_HOME.
pub fn profiles_dir(home: &str) -> (r: String)
    ensures
        r@ == profiles_dir_of(home@),
{
    let h = chars_of(home);
    let p = chars_of("profiles");
    string_of(&join_path_vec(&h, &p))
}

/// A single safe path segment: non-empty, no separator, not `.` or `..`.
pub open spec fn single_path_segment(name: Seq<char>) -> bool {
    &&& name.len() > 0
    &&& !name.contains('/')
    &&& !name.contains('\\')
    &&& name != "."@
    &&& name != ".."@
}

/// Whether a profile name is a single safe path segment. This is the
/// traversal guard every profile path join passes through.
pub fn is_single_path_segment(name: &str) -> (r: bool)
    ensures
        r == single_path_segment(name@),
{
    let n = chars_of(name);
    n.len() > 0 && !has_char(&n, '/') && !has_char(&n, '\\') && !vec_eq(&n, &chars_of("."))
        && !vec_eq(&n, &chars_of(".."))
}

/// A profile directory under a HOME. Errors on names that are not a single
/// path segment, so callers can never join an escaping path.
pub fn profile_dir(home: &str, profile: &str) -> (r: Result<String, String>)
    ensures
        r matches Ok(p) ==> single_path_segment(profile@) && p@ == path_join(
            profiles_dir_of(home@),
            profile@,
        ),
        r matches Err(e) ==> !single_path_segment(profile@) && e@ == "Profile 名称不合法: "@
            + profile@,
{
    if !is_single_path_segment(profile) {
        let e = concat_vec(&chars_of("Profile 名称不合法: "), &chars_of(profile));
        return Err(string_of(&e));
    }
    let d = chars_of(&profiles_dir(home));
    Ok(string_of(&join_path_vec(&d, &chars_of(profile))))
}

/// A character allowed in a user-chosen profile name: on ASCII a letter, a
/// digit, `-`, `_` or `.`; no C1 control character; beyond those whatever
/// `char::is_alphanumeric` accepts (see [`alphanumeric`]).
pub open spec fn profile_name_char(c: char) -> bool {
    if (c as u32) < 0x80 {
        crate::text::is_ascii_alnum(c) || c == '-' || c == '_' || c == '.'
    } else if (c as u32) <= 0x9f {
        false
    } else {
        alphanumeric(c)
    }
}

/// The reserved names the template and `node_modules` machinery own.
pub open spec fn reserved_profile_name(n: Seq<char>) -> bool {
    n == "__temp__"@ || n == "node_modules"@
}

/// Validates a user-chosen profile name (create/rename flows): the trimmed
/// name must be non-empty, not reserved, and made of letters, digits, `-`,
/// `_` and `.` only.
pub fn validate_profile_name(name: &str) -> (r: Result<(), String>)
    ensures
        ({
            let n = trim(name@);
            &&& n.len() == 0 ==> (r matches Err(e) && e@ == "Profile 名称不能为空"@)
            &&& (n.len() > 0 && reserved_profile_name(n)) ==> (r matches Err(e) && e@ == "「"@
                + n + "」为保留名称，不能使用"@)
            &&& (n.len() > 0 && !reserved_profile_name(n) && !(forall|i: int|
                0 <= i < n.len() ==> profile_name_char(#[trigger] n[i]))) ==> (r matches Err(e)
                && e@ == "Profile 名称只能包含字母、数字、-、_、."@)
            &&& r is Ok <==> (n.len() > 0 && !reserved_profile_name(n) && forall|i: int|
                0 <= i < n.len() ==> profile_name_char(#[trigger] n[i]))
        }),
{
    let n = trim_vec(&chars_of(name));
    if n.len() == 0 {
        return Err(String::from_str("Profile 名称不能为空"));
    }
    if vec_eq(&n, &chars_of("__temp__")) || vec_eq(&n, &chars_of("node_modules")) {
        let mut e = chars_of("「");
        append_vec(&mut e, &n);
        append_vec(&mut e, &chars_of("」为保留名称，不能使用"));
        return Err(string_of(&e));
    }
    let mut k: usize = 0;
    while k < n.len()
        invariant
            k <= n.len(),
            n@ == trim(name@),
            n@.len() > 0,
            !reserved_profile_name(n@),
            forall|i: int| 0 <= i < k ==> profile_name_char(#[trigger] n@[i]),
        decreases n.len() - k,
    {
        let c = n[k];
        if !(is_alphanumeric(c) || c == '-' || c == '_' || c == '.') {
            proof {
                let nn = trim(name@);
                assert(nn == n@);
                assert(!profile_name_char(nn[k as int]));
                assert(!(forall|i: int| 0 <= i < nn.len() ==> profile_name_char(#[trigger] nn[i])));
            }
            return Err(String::from_str("Profile 名称只能包含字母、数字、-、_、."));
        }
        k = k + 1;
    }
    Ok(())
}

/// Path of a profile's patch document.
pub open spec fn patch_path_of(profile_dir: Seq<char>) -> Seq<char> {
    path_join(profile_dir, "cordis.patch.yml"@)
}

/// Path of a profile's patch document.
pub fn patch_path(profile_dir: &str) -> (r: String)
    ensures
        r@ == patch_path_of(profile_dir@),
{
    string_of(&join_path_vec(&chars_of(profile_dir), &chars_of("cordis.patch.yml")))
}

/// The text after the last `/` of `s`, or all of `s` when it has none
/// (`s.rsplit('/').next()`).
pub open spec fn after_last_slash(s: Seq<char>) -> Seq<char>
    decreases s.len(),
{
    if s.len() == 0 {
        s
    } else if s.last() == '/' {
        seq![]
    } else {
        after_last_slash(s.drop_last()).push(s.last())
    }
}

/// cordis id for a package: bundles register under their unscoped short name
/// (dsh-auxiliary) unless the package declares otherwise. We default to the
/// last path segment without the scope.
pub fn cordis_id_of(package: &str) -> (r: String)
    ensures
        r@ == after_last_slash(package@),
{
    let s = chars_of(package);
    let mut j = s.len();
    proof {
        assert(s@.take(j as int) =~= s@);
        assert(s@.skip(j as int) =~= seq![]);
    }
    while j > 0 && s[j - 1] != '/'
        invariant
            j <= s.len(),
            after_last_slash(s@) == after_last_slash(s@.take(j as int)) + s@.skip(j as int),
        decreases j,
    {
        proof {
            let t = s@.take(j as int);
            assert(t.drop_last() =~= s@.take(j - 1));
            assert(after_last_slash(t) == after_last_slash(s@.take(j - 1)).push(s@[j - 1]));
            assert(after_last_slash(s@.take(j - 1)).push(s@[j - 1]) + s@.skip(j as int)
                =~= after_last_slash(s@.take(j - 1)) + s@.skip(j - 1));
        }
        j = j - 1;
    }
    proof {
        if j == 0 {
            assert(s@.take(0) =~= seq![]);
        } else {
            assert(s@.take(j as int).last() == '/');
        }
        assert(seq![] + s@.skip(j as int) =~= s@.skip(j as int));
    }
    let r = slice_vec(&s, j, s.len());
    string_of(&r)
}

// ---------------------------------------------------------------------------
// Disabled rows: reading
// ---------------------------------------------------------------------------

/// One line of the disabled-row scan: the ids found so far and the id of the
/// block the scan is in.
pub open spec fn disabled_step(
    st: (Set<Seq<char>>, Option<Seq<char>>),
    line: Seq<char>,
) -> (Set<Seq<char>>, Option<Seq<char>>) {
    let t = trim(line);
    if starts_with(t, "- id:"@) {
        (st.0, Some(trim(trim_start_matches(t, "- id:"@))))
    } else if starts_with(t, "id:"@) && !(line.len() > 0 && (line[0] == ' ' || line[0] == '\t')) {
        (st.0, Some(trim(trim_start_matches(t, "id:"@))))
    } else if t == "disabled: true"@ {
        match st.1 {
            Some(id) => (st.0.insert(id), None),
            None => (st.0, None),
        }
    } else if starts_with(t, "- "@) && !starts_with(t, "- id:"@) {
        (st.0, None)
    } else {
        st
    }
}

/// The disabled-row scan over a sequence of lines.
pub open spec fn disabled_scan(ls: Seq<Seq<char>>) -> (Set<Seq<char>>, Option<Seq<char>>)
    decreases ls.len(),
{
    if ls.len() == 0 {
        (Set::empty(), None)
    } else {
        disabled_step(disabled_scan(ls.drop_last()), ls.last())
    }
}

/// The cordis ids a patch document disables: an id row (`- id: X`, or a
/// top-level `id: X`) followed, before the next list item, by
/// `disabled: true`.
pub open spec fn disabled_ids(raw: Seq<char>) -> Set<Seq<char>> {
    disabled_scan(lines(raw)).0
}

pub open spec fn opt_chars(o: Option<Vec<char>>) -> Option<Seq<char>> {
    match o {
        Some(v) => Some(v@),
        None => None,
    }
}

proof fn lemma_push_to_set(s: Seq<Seq<char>>, x: Seq<char>)
    ensures
        s.push(x).to_set() == s.to_set().insert(x),
{
    assert forall|y: Seq<char>| s.push(x).to_set().contains(y) <==> s.to_set().insert(x).contains(
        y,
    ) by {
        if s.push(x).to_set().contains(y) {
            let i = choose|i: int| 0 <= i < s.push(x).len() && s.push(x)[i] == y;
            if i < s.len() {
                assert(s[i] == y);
            }
        }
        if s.to_set().contains(y) {
            let i = choose|i: int| 0 <= i < s.len() && s[i] == y;
            assert(s.push(x)[i] == y);
        }
        if y == x {
            assert(s.push(x)[s.len() as int] == x);
        }
    }
    assert(s.push(x).to_set() =~= s.to_set().insert(x));
}

/// Whether `x` is one of the lines of `v`.
fn vec_has_line(v: &Vec<Vec<char>>, x: &Vec<char>) -> (r: bool)
    ensures
        r == view_lines(v@).contains(x@),
{
    let mut k: usize = 0;
    while k < v.len()
        invariant
            k <= v.len(),
            forall|t: int| 0 <= t < k ==> view_lines(v@)[t] != x@,
        decreases v.len() - k,
    {
        if vec_eq(&v[k], x) {
            assert(view_lines(v@)[k as int] == x@);
            return true;
        }
        k = k + 1;
    }
    false
}

/// Parse disabled cordis ids from a patch document with a line scan. The
/// result holds each id once.
pub fn parse_disabled_ids(raw: &str) -> (r: Vec<String>)
    ensures
        view_strings(r@).to_set() == disabled_ids(raw@),
        view_strings(r@).no_duplicates(),
{
    let ls = split_lines(&chars_of(raw));
    let id_key = chars_of("- id:");
    let top_key = chars_of("id:");
    let dis = chars_of("disabled: true");
    let item = chars_of("- ");
    let mut ids: Vec<Vec<char>> = Vec::new();
    let mut cur: Option<Vec<char>> = None;
    let mut k: usize = 0;
    while k < ls.len()
        invariant
            k <= ls.len(),
            view_lines(ls@) == lines(raw@),
            id_key@ == "- id:"@,
            top_key@ == "id:"@,
            dis@ == "disabled: true"@,
            item@ == "- "@,
            (view_lines(ids@).to_set(), opt_chars(cur)) == disabled_scan(
                view_lines(ls@).take(k as int),
            ),
            view_lines(ids@).no_duplicates(),
        decreases ls.len() - k,
    {
        let line = &ls[k];
        let t = trim_vec(line);
        let ghost before = (view_lines(ids@).to_set(), opt_chars(cur));
        proof {
            assert(view_lines(ls@).take(k + 1).drop_last() =~= view_lines(ls@).take(k as int));
            assert(view_lines(ls@).take(k + 1).last() == line@);
        }
        if starts_with_exec(&t, &id_key) {
            cur = Some(trim_vec(&trim_start_matches_vec(&t, &id_key)));
        } else if starts_with_exec(&t, &top_key) && !(line.len() > 0 && (line[0] == ' ' || line[0]
            == '\t')) {
            cur = Some(trim_vec(&trim_start_matches_vec(&t, &top_key)));
        } else if vec_eq(&t, &dis) {
            let taken = cur;
            cur = None;
            match taken {
                Some(id) => {
                    if !vec_has_line(&ids, &id) {
                        proof {
                            lemma_push_to_set(view_lines(ids@), id@);
                            assert(view_lines(ids@.push(id)) =~= view_lines(ids@).push(id@));
                        }
                        ids.push(id);
                    } else {
                        proof {
                            assert(view_lines(ids@).to_set().contains(id@));
                            assert(view_lines(ids@).to_set().insert(id@) =~= view_lines(
                                ids@,
                            ).to_set());
                        }
                    }
                },
                None => {},
            }
        } else if starts_with_exec(&t, &item) && !starts_with_exec(&t, &id_key) {
            cur = None;
        }
        k = k + 1;
    }
    proof {
        assert(view_lines(ls@).take(ls.len() as int) =~= view_lines(ls@));
    }
    let mut out: Vec<String> = Vec::new();
    let mut j: usize = 0;
    while j < ids.len()
        invariant
            j <= ids.len(),
            view_strings(out@) == view_lines(ids@).take(j as int),
        decreases ids.len() - j,
    {
        let sj = string_of(&ids[j]);
        proof {
            assert(view_strings(out@.push(sj)) =~= view_strings(out@).push(sj@));
            assert(view_lines(ids@).take(j + 1) =~= view_lines(ids@).take(j as int).push(
                ids@[j as int]@,
            ));
        }
        out.push(sj);
        j = j + 1;
    }
    assert(view_lines(ids@).take(ids.len() as int) =~= view_lines(ids@));
    out
}


// ---------------------------------------------------------------------------
// Document assembly
// ---------------------------------------------------------------------------

/// `ls` without its trailing blank (whitespace-only) lines.
pub open spec fn drop_trailing_blank(ls: Seq<Seq<char>>) -> Seq<Seq<char>>
    decreases ls.len(),
{
    if ls.len() > 0 && trim(ls.last()).len() == 0 {
        drop_trailing_blank(ls.drop_last())
    } else {
        ls
    }
}

/// A line that carries a patch row: not blank and not a `#` comment.
pub open spec fn meaningful(l: Seq<char>) -> bool {
    trim(l).len() > 0 && trim(l)[0] != '#'
}

/// `s` with a final `'\n'` ensured.
pub open spec fn ensure_nl(s: Seq<char>) -> Seq<char> {
    if ends_with(s, seq!['\n']) {
        s
    } else {
        s + seq!['\n']
    }
}

/// Joins edited lines back into a document: trailing blank lines dropped, a
/// trailing newline ensured, and the `[]` placeholder restored when no row
/// remains (the file must stay a valid top-level array).
pub open spec fn finalize(ls: Seq<Seq<char>>) -> Seq<char> {
    let r = ensure_nl(join(drop_trailing_blank(ls), seq!['\n']));
    if exists|i: int| 0 <= i < lines(r).len() && meaningful(#[trigger] lines(r)[i]) {
        r
    } else {
        r + "[]\n"@
    }
}

/// Whether the trimmed `l` is empty.
fn is_blank(l: &Vec<char>) -> (r: bool)
    ensures
        r == (trim(l@).len() == 0),
{
    let (a, b) = trim_bounds(l, 0, l.len());
    assert(l@.subrange(0, l@.len() as int) =~= l@);
    a == b
}

fn is_meaningful(l: &Vec<char>) -> (r: bool)
    ensures
        r == meaningful(l@),
{
    let (a, b) = trim_bounds(l, 0, l.len());
    assert(l@.subrange(0, l@.len() as int) =~= l@);
    if a == b {
        return false;
    }
    assert(trim(l@)[0] == l@[a as int]);
    l[a] != '#'
}

/// The first `n` lines of `ls`, copied.
fn take_lines(ls: &Vec<Vec<char>>, n: usize) -> (r: Vec<Vec<char>>)
    requires
        n <= ls.len(),
    ensures
        view_lines(r@) == view_lines(ls@).take(n as int),
{
    let mut r: Vec<Vec<char>> = Vec::new();
    let mut k: usize = 0;
    while k < n
        invariant
            k <= n <= ls.len(),
            view_lines(r@) == view_lines(ls@).take(k as int),
        decreases n - k,
    {
        let l = copy_vec(&ls[k]);
        proof {
            assert(view_lines(r@.push(l)) =~= view_lines(r@).push(l@));
            assert(view_lines(ls@).take(k + 1) =~= view_lines(ls@).take(k as int).push(
                ls@[k as int]@,
            ));
        }
        r.push(l);
        k = k + 1;
    }
    r
}

/// `ls` without its trailing blank lines.
fn drop_trailing_blank_vec(ls: &Vec<Vec<char>>) -> (r: Vec<Vec<char>>)
    ensures
        view_lines(r@) == drop_trailing_blank(view_lines(ls@)),
{
    let mut j = ls.len();
    assert(view_lines(ls@).take(j as int) =~= view_lines(ls@));
    while j > 0 && is_blank(&ls[j - 1])
        invariant
            j <= ls.len(),
            drop_trailing_blank(view_lines(ls@)) == drop_trailing_blank(
                view_lines(ls@).take(j as int),
            ),
        decreases j,
    {
        assert(view_lines(ls@).take(j as int).drop_last() =~= view_lines(ls@).take(j - 1));
        j = j - 1;
    }
    take_lines(ls, j)
}

/// Assembles a patch document from edited lines (see [`finalize`]).
pub fn finalize_document(ls: &Vec<Vec<char>>) -> (r: Vec<char>)
    ensures
        r@ == finalize(view_lines(ls@)),
{
    let kept = drop_trailing_blank_vec(ls);
    let mut nl: Vec<char> = Vec::new();
    nl.push('\n');
    assert(nl@ =~= seq!['\n']);
    let mut r = join_vec(&kept, &nl);
    if !ends_with_exec(&r, &nl) {
        r.push('\n');
    }
    assert(r@ == ensure_nl(join(drop_trailing_blank(view_lines(ls@)), seq!['\n'])));
    let rl = split_lines(&r);
    let mut k: usize = 0;
    while k < rl.len()
        invariant
            k <= rl.len(),
            view_lines(rl@) == lines(r@),
            r@ == ensure_nl(join(drop_trailing_blank(view_lines(ls@)), seq!['\n'])),
            forall|i: int| 0 <= i < k ==> !meaningful(#[trigger] lines(r@)[i]),
        decreases rl.len() - k,
    {
        if is_meaningful(&rl[k]) {
            assert(meaningful(lines(r@)[k as int]));
            return r;
        }
        k = k + 1;
    }
    assert(!exists|i: int| 0 <= i < lines(r@).len() && meaningful(#[trigger] lines(r@)[i]));
    append_vec(&mut r, &chars_of("[]\n"));
    r
}

// ---------------------------------------------------------------------------
// Disabled rows: writing
// ---------------------------------------------------------------------------

/// Whether a trimmed line is the id row of block `id` (`- id: X` or `id: X`).
pub open spec fn is_id_row(t: Seq<char>, id: Seq<char>) -> bool {
    t == "- id: "@ + id || t == "id: "@ + id
}

/// Whether a line ends the block a row belongs to: a new list item (`- ...`)
/// or a top-level `id:` row, the lines on which the disabled-row reader
/// moves to another block.
pub open spec fn block_boundary(l: Seq<char>) -> bool {
    let t = trim(l);
    starts_with(t, "- "@) || (starts_with(t, "id:"@) && !(l.len() > 0 && (l[0] == ' ' || l[0]
        == '\t')))
}

/// `out` followed by the held lines after a held id row: the id row of a
/// block that turned out to hold nothing else is dropped, the blank lines
/// held after it are kept.
pub open spec fn flush_held(out: Seq<Seq<char>>, held: Seq<Seq<char>>) -> Seq<Seq<char>> {
    if held.len() > 0 {
        out + held.drop_first()
    } else {
        out
    }
}

/// One line of the disabled-row rewrite of `id`. The state is the kept
/// lines, whether the scan is inside a block of `id` (from its id row to
/// the next [`block_boundary`]), and the held lines: the block's id row and
/// the blank lines after it, held until the block shows other content.
/// Inside the block the `disabled:` rows are dropped; its id row is kept
/// exactly when the block has other content.
pub open spec fn undisable_step(
    st: (Seq<Seq<char>>, bool, Seq<Seq<char>>),
    line: Seq<char>,
    id: Seq<char>,
) -> (Seq<Seq<char>>, bool, Seq<Seq<char>>) {
    let t = trim(line);
    if t == "[]"@ {
        st
    } else if is_id_row(t, id) {
        (flush_held(st.0, st.2), true, seq![line])
    } else if st.1 && block_boundary(line) {
        (flush_held(st.0, st.2).push(line), false, seq![])
    } else if st.1 && (t == "disabled: true"@ || t == "disabled: false"@) {
        st
    } else if st.1 && t.len() == 0 && st.2.len() > 0 {
        (st.0, true, st.2.push(line))
    } else if st.1 {
        ((st.0 + st.2).push(line), true, seq![])
    } else {
        (st.0.push(line), false, seq![])
    }
}

pub open spec fn undisable_scan(ls: Seq<Seq<char>>, id: Seq<char>) -> (
    Seq<Seq<char>>,
    bool,
    Seq<Seq<char>>,
)
    decreases ls.len(),
{
    if ls.len() == 0 {
        (seq![], false, seq![])
    } else {
        undisable_step(undisable_scan(ls.drop_last(), id), ls.last(), id)
    }
}

/// The lines the disabled-row rewrite of `id` keeps.
pub open spec fn undisabled(ls: Seq<Seq<char>>, id: Seq<char>) -> Seq<Seq<char>> {
    let st = undisable_scan(ls, id);
    flush_held(st.0, st.2)
}

/// The two lines that disable block `id`.
pub open spec fn disable_rows(id: Seq<char>) -> Seq<Seq<char>> {
    seq![seq![], "- id: "@ + id, "  disabled: true"@]
}

/// The document after adding (`enabled == false`) or removing the
/// `disabled: true` row of `id`: inside every block of `id` the `disabled:`
/// rows are dropped, and the block's id row with them when nothing else is
/// left in it (a block with other content keeps its id row and content);
/// the `[]` placeholder is dropped; and a fresh disable row is appended when
/// disabling.
pub open spec fn set_disabled_row_text(raw: Seq<char>, id: Seq<char>, enabled: bool) -> Seq<char> {
    let cleaned = drop_trailing_blank(undisabled(lines(raw), id));
    if enabled {
        finalize(cleaned)
    } else {
        finalize(cleaned + disable_rows(id))
    }
}

fn block_boundary_exec(l: &Vec<char>, t: &Vec<char>) -> (r: bool)
    requires
        t@ == trim(l@),
    ensures
        r == block_boundary(l@),
{
    starts_with_exec(t, &chars_of("- ")) || (starts_with_exec(t, &chars_of("id:")) && !(l.len()
        > 0 && (l[0] == ' ' || l[0] == '\t')))
}

/// Appends the held lines after the held id row.
fn flush_held_exec(out: &mut Vec<Vec<char>>, held: &Vec<Vec<char>>)
    ensures
        view_lines(final(out)@) == flush_held(view_lines(old(out)@), view_lines(held@)),
{
    let ghost o0 = view_lines(out@);
    if held.len() == 0 {
        return;
    }
    let mut k: usize = 1;
    while k < held.len()
        invariant
            1 <= k <= held.len(),
            view_lines(out@) == o0 + view_lines(held@).subrange(1, k as int),
        decreases held.len() - k,
    {
        let l = copy_vec(&held[k]);
        proof {
            assert(view_lines(out@.push(l)) =~= view_lines(out@).push(l@));
            assert(view_lines(held@).subrange(1, k + 1) =~= view_lines(held@).subrange(
                1,
                k as int,
            ).push(held@[k as int]@));
        }
        out.push(l);
        k = k + 1;
    }
    assert(view_lines(held@).subrange(1, held.len() as int) =~= view_lines(held@).drop_first());
}

fn undisable_line(
    out: &mut Vec<Vec<char>>,
    inx: bool,
    held: &mut Vec<Vec<char>>,
    line: &Vec<char>,
    row1: &Vec<char>,
    row2: &Vec<char>,
    id: Ghost<Seq<char>>,
) -> (next: bool)
    requires
        row1@ == "- id: "@ + id@,
        row2@ == "id: "@ + id@,
    ensures
        (view_lines(final(out)@), next, view_lines(final(held)@)) == undisable_step(
            (view_lines(old(out)@), inx, view_lines(old(held)@)),
            line@,
            id@,
        ),
{
    let t = trim_vec(line);
    if vec_eq(&t, &chars_of("[]")) {
        inx
    } else if vec_eq(&t, row1) || vec_eq(&t, row2) {
        flush_held_exec(out, held);
        *held = Vec::new();
        held.push(copy_vec(line));
        proof {
            assert(view_lines(held@) =~= seq![line@]);
        }
        true
    } else if inx && block_boundary_exec(line, &t) {
        flush_held_exec(out, held);
        let l = copy_vec(line);
        proof {
            assert(view_lines(out@.push(l)) =~= view_lines(out@).push(l@));
        }
        out.push(l);
        *held = Vec::new();
        proof {
            assert(view_lines(held@) =~= Seq::<Seq<char>>::empty());
        }
        false
    } else if inx && (vec_eq(&t, &chars_of("disabled: true")) || vec_eq(
        &t,
        &chars_of("disabled: false"),
    )) {
        inx
    } else if inx && t.len() == 0 && held.len() > 0 {
        let l = copy_vec(line);
        proof {
            assert(view_lines(held@.push(l)) =~= view_lines(held@).push(l@));
        }
        held.push(l);
        true
    } else if inx {
        let ghost o0 = view_lines(out@);
        let ghost h0 = view_lines(held@);
        let mut k: usize = 0;
        while k < held.len()
            invariant
                k <= held.len(),
                h0 == view_lines(held@),
                view_lines(out@) == o0 + h0.take(k as int),
            decreases held.len() - k,
        {
            let c = copy_vec(&held[k]);
            proof {
                assert(view_lines(out@.push(c)) =~= view_lines(out@).push(c@));
                assert(h0.take(k + 1) =~= h0.take(k as int).push(held@[k as int]@));
            }
            out.push(c);
            k = k + 1;
        }
        assert(h0.take(held.len() as int) =~= h0);
        let l = copy_vec(line);
        proof {
            assert(view_lines(out@.push(l)) =~= view_lines(out@).push(l@));
        }
        out.push(l);
        *held = Vec::new();
        proof {
            assert(view_lines(held@) =~= Seq::<Seq<char>>::empty());
        }
        true
    } else {
        let l = copy_vec(line);
        proof {
            assert(view_lines(out@.push(l)) =~= view_lines(out@).push(l@));
        }
        out.push(l);
        *held = Vec::new();
        proof {
            assert(view_lines(held@) =~= Seq::<Seq<char>>::empty());
        }
        false
    }
}

/// Add or remove a `disabled: true` row for a cordis id in the document.
pub fn set_disabled_row(raw: &str, cordis_id: &str, enabled: bool) -> (r: String)
    ensures
        r@ == set_disabled_row_text(raw@, cordis_id@, enabled),
{
    let ls = split_lines(&chars_of(raw));
    let id = chars_of(cordis_id);
    let row1 = concat_vec(&chars_of("- id: "), &id);
    let row2 = concat_vec(&chars_of("id: "), &id);
    let mut out: Vec<Vec<char>> = Vec::new();
    let mut held: Vec<Vec<char>> = Vec::new();
    let mut inx = false;
    let mut k: usize = 0;
    assert(view_lines(held@) =~= Seq::<Seq<char>>::empty());
    while k < ls.len()
        invariant
            k <= ls.len(),
            view_lines(ls@) == lines(raw@),
            id@ == cordis_id@,
            row1@ == "- id: "@ + id@,
            row2@ == "id: "@ + id@,
            (view_lines(out@), inx, view_lines(held@)) == undisable_scan(
                view_lines(ls@).take(k as int),
                id@,
            ),
        decreases ls.len() - k,
    {
        proof {
            assert(view_lines(ls@).take(k + 1).drop_last() =~= view_lines(ls@).take(k as int));
            assert(view_lines(ls@).take(k + 1).last() == ls@[k as int]@);
        }
        inx = undisable_line(&mut out, inx, &mut held, &ls[k], &row1, &row2, Ghost(id@));
        k = k + 1;
    }
    proof {
        assert(view_lines(ls@).take(ls.len() as int) =~= view_lines(ls@));
    }
    flush_held_exec(&mut out, &held);
    let mut cleaned = drop_trailing_blank_vec(&out);
    if !enabled {
        let ghost c0 = view_lines(cleaned@);
        cleaned.push(Vec::new());
        cleaned.push(concat_vec(&chars_of("- id: "), &id));
        cleaned.push(chars_of("  disabled: true"));
        proof {
            assert(view_lines(cleaned@) =~= c0 + disable_rows(id@));
        }
    }
    string_of(&finalize_document(&cleaned))
}

// ---------------------------------------------------------------------------
// Uninstall: stripping a plugin's blocks
// ---------------------------------------------------------------------------

/// One line of the block strip: the kept lines and whether the scan is inside
/// a block of the plugin (by cordis id or package id).
pub open spec fn strip_step(
    st: (Seq<Seq<char>>, bool),
    line: Seq<char>,
    cordis_id: Seq<char>,
    plugin_id: Seq<char>,
) -> (Seq<Seq<char>>, bool) {
    let t = trim(line);
    if t == "[]"@ {
        st
    } else if is_id_row(t, cordis_id) || is_id_row(t, plugin_id) {
        (st.0, true)
    } else if st.1 && (t.len() == 0 || (line.len() > 0 && (line[0] == ' ' || line[0] == '\t'))) {
        st
    } else {
        (st.0.push(line), false)
    }
}

pub open spec fn strip_scan(ls: Seq<Seq<char>>, cordis_id: Seq<char>, plugin_id: Seq<char>) -> (
    Seq<Seq<char>>,
    bool,
)
    decreases ls.len(),
{
    if ls.len() == 0 {
        (seq![], false)
    } else {
        strip_step(strip_scan(ls.drop_last(), cordis_id, plugin_id), ls.last(), cordis_id, plugin_id)
    }
}

/// The document without any block whose id row names the plugin: the id row,
/// its indented children and the blank lines inside it are dropped, up to the
/// next top-level line.
pub open spec fn strip_cordis_rows_text(
    raw: Seq<char>,
    cordis_id: Seq<char>,
    plugin_id: Seq<char>,
) -> Seq<char> {
    finalize(strip_scan(lines(raw), cordis_id, plugin_id).0)
}

/// Strips every patch block whose id equals `cordis_id` or `plugin_id`
/// (matching plain `- id:` / `id:` rows, including those inside `- insert:`
/// wrappers) — used by uninstall.
pub fn strip_cordis_rows(raw: &str, cordis_id: &str, plugin_id: &str) -> (r: String)
    ensures
        r@ == strip_cordis_rows_text(raw@, cordis_id@, plugin_id@),
{
    let ls = split_lines(&chars_of(raw));
    let c1 = concat_vec(&chars_of("- id: "), &chars_of(cordis_id));
    let c2 = concat_vec(&chars_of("id: "), &chars_of(cordis_id));
    let p1 = concat_vec(&chars_of("- id: "), &chars_of(plugin_id));
    let p2 = concat_vec(&chars_of("id: "), &chars_of(plugin_id));
    let ph = chars_of("[]");
    let mut out: Vec<Vec<char>> = Vec::new();
    let mut skip = false;
    let mut k: usize = 0;
    while k < ls.len()
        invariant
            k <= ls.len(),
            view_lines(ls@) == lines(raw@),
            c1@ == "- id: "@ + cordis_id@,
            c2@ == "id: "@ + cordis_id@,
            p1@ == "- id: "@ + plugin_id@,
            p2@ == "id: "@ + plugin_id@,
            ph@ == "[]"@,
            (view_lines(out@), skip) == strip_scan(
                view_lines(ls@).take(k as int),
                cordis_id@,
                plugin_id@,
            ),
        decreases ls.len() - k,
    {
        let line = &ls[k];
        let t = trim_vec(line);
        proof {
            assert(view_lines(ls@).take(k + 1).drop_last() =~= view_lines(ls@).take(k as int));
            assert(view_lines(ls@).take(k + 1).last() == line@);
        }
        if vec_eq(&t, &ph) {
        } else if vec_eq(&t, &c1) || vec_eq(&t, &c2) || vec_eq(&t, &p1) || vec_eq(&t, &p2) {
            skip = true;
        } else if skip && (t.len() == 0 || (line.len() > 0 && (line[0] == ' ' || line[0]
            == '\t'))) {
        } else {
            let l = copy_vec(line);
            proof {
                assert(view_lines(out@.push(l)) =~= view_lines(out@).push(l@));
            }
            out.push(l);
            skip = false;
        }
        k = k + 1;
    }
    proof {
        assert(view_lines(ls@).take(ls.len() as int) =~= view_lines(ls@));
    }
    string_of(&finalize_document(&out))
}


// ---------------------------------------------------------------------------
// Row rewrites (port pins)
// ---------------------------------------------------------------------------

/// The indentation a rewritten row keeps: one space per UTF-8 byte of the
/// line's leading whitespace.
pub open spec fn indent_of(l: Seq<char>) -> Seq<char> {
    spaces(utf8_len_seq(l.take(l.len() - trim_start(l).len())))
}

fn indent_vec(l: &Vec<char>) -> (r: Vec<char>)
    ensures
        r@ == indent_of(l@),
{
    let (a, _b) = trim_bounds(l, 0, l.len());
    proof {
        assert(l@.subrange(0, l@.len() as int) =~= l@);
        assert(trim_start(l@).len() == l@.len() - a);
        assert(l@.take(l@.len() - trim_start(l@).len()) =~= l@.take(a as int));
    }
    let mut r: Vec<char> = Vec::new();
    let mut k: usize = 0;
    while k < a
        invariant
            k <= a <= l.len(),
            r@ == spaces(utf8_len_seq(l@.take(k as int))),
        decreases a - k,
    {
        proof {
            assert(l@.take(k + 1).drop_last() =~= l@.take(k as int));
            assert(l@.take(k + 1).last() == l@[k as int]);
        }
        let n = crate::text::utf8_len_exec(l[k]);
        let ghost base = r@;
        let mut m: usize = 0;
        while m < n
            invariant
                m <= n,
                n == utf8_len(l@[k as int]),
                base == spaces(utf8_len_seq(l@.take(k as int))),
                r@ == base + spaces(m as nat),
            decreases n - m,
        {
            r.push(' ');
            assert(base + spaces((m + 1) as nat) =~= (base + spaces(m as nat)).push(' '));
            m = m + 1;
        }
        assert(r@ =~= spaces(utf8_len_seq(l@.take(k + 1))));
        k = k + 1;
    }
    r
}

/// One line of a row rewrite inside the `- id: <block_id>` block: the
/// emitted lines, whether the scan is inside that block, whether a row
/// changed.
pub open spec fn rewrite_step(
    st: (Seq<Seq<char>>, bool, bool),
    l: Seq<char>,
    block_id: Seq<char>,
    key: Seq<char>,
    value: Seq<char>,
) -> (Seq<Seq<char>>, bool, bool) {
    let tr = trim_start(l);
    if starts_with(tr, "- id:"@) {
        (st.0.push(l), starts_with(tr, "- id: "@ + block_id), st.2)
    } else if st.1 && starts_with(tr, key + ":"@) {
        let new = indent_of(l) + key + ": "@ + value;
        (st.0.push(new), st.1, st.2 || new != l)
    } else {
        (st.0.push(l), st.1, st.2)
    }
}

pub open spec fn rewrite_scan(
    ls: Seq<Seq<char>>,
    block_id: Seq<char>,
    key: Seq<char>,
    value: Seq<char>,
) -> (Seq<Seq<char>>, bool, bool)
    decreases ls.len(),
{
    if ls.len() == 0 {
        (seq![], false, false)
    } else {
        rewrite_step(rewrite_scan(ls.drop_last(), block_id, key, value), ls.last(), block_id, key, value)
    }
}

/// The document with every `<key>:` row inside the `- id: <block_id>` block
/// rewritten to `<key>: <value>` (indentation kept), and whether anything
/// changed; an unchanged document is returned verbatim.
pub open spec fn rewrite_row_text(
    raw: Seq<char>,
    block_id: Seq<char>,
    key: Seq<char>,
    value: Seq<char>,
) -> (Seq<char>, bool) {
    let f = rewrite_scan(lines(raw), block_id, key, value);
    if f.2 {
        (ensure_nl(join(f.0, seq!['\n'])), true)
    } else {
        (raw, false)
    }
}

/// Joins rewritten lines and ensures a final newline.
fn join_with_nl(out: &Vec<Vec<char>>) -> (r: Vec<char>)
    ensures
        r@ == ensure_nl(join(view_lines(out@), seq!['\n'])),
{
    let mut nl: Vec<char> = Vec::new();
    nl.push('\n');
    assert(nl@ =~= seq!['\n']);
    let mut r = join_vec(out, &nl);
    if !ends_with_exec(&r, &nl) {
        r.push('\n');
    }
    r
}

/// Rewrites `<key>: <value>` rows inside the `- id: <block_id>` block of a
/// patch document, preserving indentation. Returns the new document and
/// whether anything changed.
pub fn rewrite_row_in_id_block(raw: &str, block_id: &str, key: &str, value: &str) -> (r: (
    String,
    bool,
))
    ensures
        (r.0@, r.1) == rewrite_row_text(raw@, block_id@, key@, value@),
{
    let rv = chars_of(raw);
    let ls = split_lines(&rv);
    let id_key = chars_of("- id:");
    let id_row = concat_vec(&chars_of("- id: "), &chars_of(block_id));
    let key_row = concat_vec(&chars_of(key), &chars_of(":"));
    let mut row_head = chars_of(key);
    append_vec(&mut row_head, &chars_of(": "));
    append_vec(&mut row_head, &chars_of(value));
    let mut out: Vec<Vec<char>> = Vec::new();
    let mut in_block = false;
    let mut changed = false;
    let mut k: usize = 0;
    while k < ls.len()
        invariant
            k <= ls.len(),
            view_lines(ls@) == lines(raw@),
            id_key@ == "- id:"@,
            id_row@ == "- id: "@ + block_id@,
            key_row@ == key@ + ":"@,
            row_head@ == key@ + ": "@ + value@,
            (view_lines(out@), in_block, changed) == rewrite_scan(
                view_lines(ls@).take(k as int),
                block_id@,
                key@,
                value@,
            ),
        decreases ls.len() - k,
    {
        let l = &ls[k];
        let tr = trim_start_vec(l);
        proof {
            assert(view_lines(ls@).take(k + 1).drop_last() =~= view_lines(ls@).take(k as int));
            assert(view_lines(ls@).take(k + 1).last() == l@);
        }
        if starts_with_exec(&tr, &id_key) {
            in_block = starts_with_exec(&tr, &id_row);
            let c = copy_vec(l);
            proof {
                assert(view_lines(out@.push(c)) =~= view_lines(out@).push(c@));
            }
            out.push(c);
        } else if in_block && starts_with_exec(&tr, &key_row) {
            let mut new = indent_vec(l);
            append_vec(&mut new, &row_head);
            proof {
                assert(new@ =~= indent_of(l@) + key@ + ": "@ + value@);
            }
            if !vec_eq(&new, l) {
                changed = true;
            }
            proof {
                assert(view_lines(out@.push(new)) =~= view_lines(out@).push(new@));
            }
            out.push(new);
        } else {
            let c = copy_vec(l);
            proof {
                assert(view_lines(out@.push(c)) =~= view_lines(out@).push(c@));
            }
            out.push(c);
        }
        k = k + 1;
    }
    proof {
        assert(view_lines(ls@).take(ls.len() as int) =~= view_lines(ls@));
    }
    if !changed {
        return (string_of(&rv), false);
    }
    (string_of(&join_with_nl(&out)), true)
}

/// Whether no row of the document opens the `- id: <block_id>` block.
pub open spec fn lacks_id_block(raw: Seq<char>, block_id: Seq<char>) -> bool {
    forall|i: int|
        0 <= i < lines(raw).len() ==> !starts_with(
            trim_start(#[trigger] lines(raw)[i]),
            "- id: "@ + block_id,
        )
}

proof fn lemma_rewrite_without_block(
    ls: Seq<Seq<char>>,
    block_id: Seq<char>,
    key: Seq<char>,
    value: Seq<char>,
)
    requires
        forall|i: int|
            0 <= i < ls.len() ==> !starts_with(trim_start(#[trigger] ls[i]), "- id: "@ + block_id),
    ensures
        !rewrite_scan(ls, block_id, key, value).1,
        !rewrite_scan(ls, block_id, key, value).2,
    decreases ls.len(),
{
    if ls.len() > 0 {
        assert(!starts_with(trim_start(ls[ls.len() - 1]), "- id: "@ + block_id));
        lemma_rewrite_without_block(ls.drop_last(), block_id, key, value);
    }
}

/// Rewrites the webserver `port:` row inside the `id: webserver` block to `0`
/// (OS-assigned random port), so a template carrying a concrete port does not
/// make every derived instance fight over that port. A document without a
/// webserver block comes back unchanged.
pub fn scrub_port_pin(raw: &str) -> (r: String)
    ensures
        r@ == rewrite_row_text(raw@, "webserver"@, "port"@, "0"@).0,
        lacks_id_block(raw@, "webserver"@) ==> r@ == raw@,
{
    let r = rewrite_row_in_id_block(raw, "webserver", "port", "0");
    proof {
        if lacks_id_block(raw@, "webserver"@) {
            lemma_rewrite_without_block(lines(raw@), "webserver"@, "port"@, "0"@);
        }
    }
    r.0
}

/// Marker line that opens the remote-web-ui plugin's managed lan-bind block.
pub const LAN_BIND_BLOCK_BEGIN: &'static str = "# --- remote-web-ui lan-bind block (managed - do not edit) ---";

/// Marker line that closes the managed lan-bind block.
pub const LAN_BIND_BLOCK_END: &'static str = "# --- end remote-web-ui lan-bind block ---";

/// One line of the lan-bind port rewrite: the emitted lines, whether the scan
/// is inside the managed block, whether a row changed.
pub open spec fn lan_step(st: (Seq<Seq<char>>, bool, bool), l: Seq<char>, port: nat) -> (
    Seq<Seq<char>>,
    bool,
    bool,
) {
    let tr = trim_start(l);
    if starts_with(tr, LAN_BIND_BLOCK_BEGIN@) {
        (st.0.push(l), true, st.2)
    } else if starts_with(tr, LAN_BIND_BLOCK_END@) {
        (st.0.push(l), false, st.2)
    } else if st.1 && starts_with(tr, "port:"@) {
        let new = indent_of(l) + "port: "@ + dec(port);
        (st.0.push(new), st.1, st.2 || new != l)
    } else {
        (st.0.push(l), st.1, st.2)
    }
}

pub open spec fn lan_scan(ls: Seq<Seq<char>>, port: nat) -> (Seq<Seq<char>>, bool, bool)
    decreases ls.len(),
{
    if ls.len() == 0 {
        (seq![], false, false)
    } else {
        lan_step(lan_scan(ls.drop_last(), port), ls.last(), port)
    }
}

/// The document with every `port:` row inside the managed lan-bind block set
/// to `port`; an unchanged document is returned verbatim.
pub open spec fn lan_bind_port_text(raw: Seq<char>, port: nat) -> Seq<char> {
    let f = lan_scan(lines(raw), port);
    if f.2 {
        ensure_nl(join(f.0, seq!['\n']))
    } else {
        raw
    }
}

/// Whether no line opens the managed lan-bind block.
pub open spec fn lacks_lan_block(raw: Seq<char>) -> bool {
    forall|i: int|
        0 <= i < lines(raw).len() ==> !starts_with(
            trim_start(#[trigger] lines(raw)[i]),
            LAN_BIND_BLOCK_BEGIN@,
        )
}

proof fn lemma_lan_without_block(ls: Seq<Seq<char>>, port: nat)
    requires
        forall|i: int|
            0 <= i < ls.len() ==> !starts_with(trim_start(#[trigger] ls[i]), LAN_BIND_BLOCK_BEGIN@),
    ensures
        !lan_scan(ls, port).1,
        !lan_scan(ls, port).2,
    decreases ls.len(),
{
    if ls.len() > 0 {
        assert(!starts_with(trim_start(ls[ls.len() - 1]), LAN_BIND_BLOCK_BEGIN@));
        lemma_lan_without_block(ls.drop_last(), port);
    }
}

/// Rewrites the port pinned by the managed lan-bind block so the launcher's
/// `--port` takes effect on the very next start. An absent block is left
/// untouched: an unmanaged profile carries no port override.
pub fn set_lan_bind_port(raw: &str, port: u16) -> (r: String)
    ensures
        r@ == lan_bind_port_text(raw@, port as nat),
        lacks_lan_block(raw@) ==> r@ == raw@,
{
    let rv = chars_of(raw);
    let ls = split_lines(&rv);
    let begin = chars_of(LAN_BIND_BLOCK_BEGIN);
    let end = chars_of(LAN_BIND_BLOCK_END);
    let port_key = chars_of("port:");
    let mut row_head = chars_of("port: ");
    append_vec(&mut row_head, &dec_vec(port as u64));
    let mut out: Vec<Vec<char>> = Vec::new();
    let mut in_block = false;
    let mut changed = false;
    let mut k: usize = 0;
    while k < ls.len()
        invariant
            k <= ls.len(),
            view_lines(ls@) == lines(raw@),
            begin@ == LAN_BIND_BLOCK_BEGIN@,
            end@ == LAN_BIND_BLOCK_END@,
            port_key@ == "port:"@,
            row_head@ == "port: "@ + dec(port as nat),
            (view_lines(out@), in_block, changed) == lan_scan(
                view_lines(ls@).take(k as int),
                port as nat,
            ),
        decreases ls.len() - k,
    {
        let l = &ls[k];
        let tr = trim_start_vec(l);
        proof {
            assert(view_lines(ls@).take(k + 1).drop_last() =~= view_lines(ls@).take(k as int));
            assert(view_lines(ls@).take(k + 1).last() == l@);
        }
        if starts_with_exec(&tr, &begin) {
            in_block = true;
            let c = copy_vec(l);
            proof {
                assert(view_lines(out@.push(c)) =~= view_lines(out@).push(c@));
            }
            out.push(c);
        } else if starts_with_exec(&tr, &end) {
            in_block = false;
            let c = copy_vec(l);
            proof {
                assert(view_lines(out@.push(c)) =~= view_lines(out@).push(c@));
            }
            out.push(c);
        } else if in_block && starts_with_exec(&tr, &port_key) {
            let mut new = indent_vec(l);
            append_vec(&mut new, &row_head);
            proof {
                assert(new@ =~= indent_of(l@) + "port: "@ + dec(port as nat));
            }
            if !vec_eq(&new, l) {
                changed = true;
            }
            proof {
                assert(view_lines(out@.push(new)) =~= view_lines(out@).push(new@));
            }
            out.push(new);
        } else {
            let c = copy_vec(l);
            proof {
                assert(view_lines(out@.push(c)) =~= view_lines(out@).push(c@));
            }
            out.push(c);
        }
        k = k + 1;
    }
    proof {
        assert(view_lines(ls@).take(ls.len() as int) =~= view_lines(ls@));
        if lacks_lan_block(raw@) {
            lemma_lan_without_block(lines(raw@), port as nat);
        }
    }
    if !changed {
        return string_of(&rv);
    }
    string_of(&join_with_nl(&out))
}


// ---------------------------------------------------------------------------
// Laws
// ---------------------------------------------------------------------------

proof fn lemma_disabled_row_trim()
    ensures
        trim("  disabled: true"@) == "disabled: true"@,
        meaningful("  disabled: true"@),
        !"  disabled: true"@.contains('\n'),
        "  disabled: true"@.last() == 'e',
{
    reveal_strlit("  disabled: true");
    reveal_strlit("disabled: true");
    let b = "  disabled: true"@;
    let d = "disabled: true"@;
    assert(b.drop_first().drop_first() =~= d);
    assert(is_ws(b[0]));
    assert(is_ws(b.drop_first()[0]));
    assert(!is_ws(d[0]));
    assert(trim_start(d) == d);
    assert(trim_start(b.drop_first()) == trim_start(d));
    assert(trim_start(b) == d);
    assert(!is_ws(d.last()));
    assert(trim_end(d) == d);
}

proof fn lemma_disable_rows_parse(st: (Set<Seq<char>>, Option<Seq<char>>), id: Seq<char>)
    requires
        trim(id) == id,
    ensures
        disabled_step(disabled_step(st, "- id: "@ + id), "  disabled: true"@).0.contains(id),
        disabled_step(st, "- id: "@ + id) == (st.0, Some(id)),
        disabled_step(disabled_step(st, "- id: "@ + id), "  disabled: true"@).0 == st.0.insert(id),
        names_block("- id: "@ + id, id),
{
    reveal_strlit("- id: ");
    reveal_strlit("- id:");
    reveal_strlit("id:");
    reveal_strlit("  disabled: true");
    reveal_strlit("disabled: true");
    let a = "- id: "@ + id;
    let key = "- id:"@;
    assert(a[0] == '-');
    assert(!is_ws(a[0]));
    assert(trim_start(a) == a);
    assert(a.take(5) =~= key);
    assert(a.skip(5) =~= seq![' '] + id);
    if id.len() > 0 {
        lemma_trimmed_edges(id);
        assert(a.last() == id.last());
        assert(trim_end(a) == a);
        assert(trim(a) == a);
        assert(starts_with(a, key));
        let rest = seq![' '] + id;
        assert(!starts_with(rest, key)) by {
            if starts_with(rest, key) {
                assert(rest.take(5)[0] == key[0]);
            }
        }
        assert(trim_start_matches(a, key) == trim_start_matches(rest, key));
        assert(trim_start_matches(rest, key) == rest);
        assert(is_ws(rest[0]));
        assert(rest.drop_first() =~= id);
        assert(trim_start(rest) == trim_start(id));
        assert(trim_start(id) == id);
        assert(trim_end(id) == id);
    } else {
        assert(a =~= "- id: "@);
        assert(a.last() == ' ');
        assert(is_ws(a.last()));
        assert(a.drop_last() =~= key);
        assert(!is_ws(key.last()));
        assert(trim_end(key) == key);
        assert(trim_end(a) == key);
        assert(trim(a) == key);
        assert(key.take(5) =~= key);
        assert(starts_with(key, key));
        assert(key.skip(5) =~= seq![]);
        assert(trim_start_matches(seq![], key) == Seq::<char>::empty());
        assert(trim_start_matches(key, key) == Seq::<char>::empty());
        assert(trim(seq![]) =~= seq![]);
        assert(id =~= seq![]);
    }
    let st1 = disabled_step(st, a);
    assert(st1.1 == Some(id));
    let b = "  disabled: true"@;
    let d = "disabled: true"@;
    lemma_disabled_row_trim();
    assert(!starts_with(d, key)) by {
        if starts_with(d, key) {
            assert(d.take(5)[0] == key[0]);
        }
    }
    assert(!starts_with(d, "id:"@)) by {
        if starts_with(d, "id:"@) {
            assert(d.take(3)[0] == "id:"@[0]);
        }
    }
}

proof fn lemma_disable_text_shape(c: Seq<Seq<char>>, id: Seq<char>) -> (k: int)
    requires
        trim(id) == id,
        !id.contains('\n'),
    ensures
        0 < k <= finalize(c + disable_rows(id)).len(),
        finalize(c + disable_rows(id))[k - 1] == '\n',
        finalize(c + disable_rows(id)).skip(k) == ("- id: "@ + id) + seq!['\n'] + "  disabled: true"@
            + seq!['\n'],
{
    reveal_strlit("- id: ");
    lemma_disabled_row_trim();
    let nl = seq!['\n'];
    let a = "- id: "@ + id;
    let b = "  disabled: true"@;
    let ls = c + disable_rows(id);
    assert(ls.last() == b);
    assert(drop_trailing_blank(ls) == ls);
    let pre = c.push(seq![]);
    assert(ls =~= pre.push(a).push(b));
    assert(ls.drop_last() =~= pre.push(a));
    assert(pre.push(a).drop_last() =~= pre);
    assert(join(ls, nl) == join(pre.push(a), nl) + nl + b);
    assert(join(pre.push(a), nl) == join(pre, nl) + nl + a);
    let x = join(pre, nl) + nl;
    let r0 = join(ls, nl);
    assert(r0 =~= x + a + nl + b);
    assert(!ends_with(r0, nl)) by {
        if ends_with(r0, nl) {
            assert(r0.skip(r0.len() - 1)[0] == r0.last());
        }
    }
    let r = r0 + nl;
    assert(ensure_nl(r0) == r);
    let k = x.len() as int;
    assert(r =~= x + (a + nl + b + nl));
    assert(r.skip(k) =~= a + nl + b + nl);
    assert(r[k - 1] == '\n');
    let lr = lines(r);
    lemma_disable_lines(r, k, id);
    assert(meaningful(lr[lr.len() - 1]));
    assert(finalize(ls) == r);
    k
}

proof fn lemma_disable_lines(r: Seq<char>, k: int, id: Seq<char>) -> (pl: Seq<Seq<char>>)
    requires
        trim(id) == id,
        !id.contains('\n'),
        0 < k <= r.len(),
        r[k - 1] == '\n',
        r.skip(k) == ("- id: "@ + id) + seq!['\n'] + "  disabled: true"@ + seq!['\n'],
    ensures
        lines(r) == pl + seq!["- id: "@ + id, "  disabled: true"@],
        lines(r)[lines(r).len() - 1] == "  disabled: true"@,
{
    reveal_strlit("- id: ");
    lemma_disabled_row_trim();
    let a = "- id: "@ + id;
    let b = "  disabled: true"@;
    assert(!a.contains('\n')) by {
        if a.contains('\n') {
            let i = choose|i: int| 0 <= i < a.len() && a[i] == '\n';
            if i >= 6 {
                assert(id[i - 6] == '\n');
            }
        }
    }
    assert(a.len() == 0 || a.last() != '\r') by {
        if id.len() > 0 {
            lemma_trimmed_edges(id);
            assert(a.last() == id.last());
        } else {
            assert(a.last() == ' ');
        }
    }
    let pl = lemma_lines_from_suffix(r, 0, k);
    lemma_lines_two(r, k, a, b);
    pl
}

/// Disabling a plugin is what the disabled-row reader then reports: after
/// `set_disabled_row(raw, id, false)` the document's disabled ids include
/// `id`, for every single-line id without surrounding whitespace.
pub proof fn lemma_disable_is_read_back(raw: Seq<char>, id: Seq<char>)
    requires
        trim(id) == id,
        !id.contains('\n'),
    ensures
        disabled_ids(set_disabled_row_text(raw, id, false)).contains(id),
{
    let c = drop_trailing_blank(undisabled(lines(raw), id));
    let r = finalize(c + disable_rows(id));
    assert(set_disabled_row_text(raw, id, false) == r);
    let k = lemma_disable_text_shape(c, id);
    let pl = lemma_disable_lines(r, k, id);
    let a = "- id: "@ + id;
    let b = "  disabled: true"@;
    let lr = lines(r);
    assert(lr =~= pl.push(a).push(b));
    assert(lr.drop_last() =~= pl.push(a));
    assert(lr.last() == b);
    assert(pl.push(a).drop_last() =~= pl);
    assert(pl.push(a).last() == a);
    assert(disabled_scan(pl.push(a)) == disabled_step(disabled_scan(pl), a));
    assert(disabled_scan(lr) == disabled_step(disabled_scan(pl.push(a)), b));
    lemma_disable_rows_parse(disabled_scan(pl), id);
}


/// Whether a line opens a block that the disabled-row reader attributes to
/// `id` (see [`disabled_step`]).
pub open spec fn names_block(l: Seq<char>, id: Seq<char>) -> bool {
    let t = trim(l);
    ||| starts_with(t, "- id:"@) && trim(trim_start_matches(t, "- id:"@)) == id
    ||| !starts_with(t, "- id:"@) && starts_with(t, "id:"@) && !(l.len() > 0 && (l[0] == ' '
        || l[0] == '\t')) && trim(trim_start_matches(t, "id:"@)) == id
}

proof fn lemma_scan_without_block(ls: Seq<Seq<char>>, id: Seq<char>)
    requires
        forall|i: int| 0 <= i < ls.len() ==> !names_block(#[trigger] ls[i], id),
    ensures
        !disabled_scan(ls).0.contains(id),
        disabled_scan(ls).1 != Some(id),
    decreases ls.len(),
{
    if ls.len() > 0 {
        assert forall|i: int| 0 <= i < ls.drop_last().len() implies !names_block(
            #[trigger] ls.drop_last()[i],
            id,
        ) by {
            assert(ls.drop_last()[i] == ls[i]);
        }
        lemma_scan_without_block(ls.drop_last(), id);
        assert(!names_block(ls[ls.len() - 1], id));
    }
}

proof fn lemma_drop_trailing_blank_prefix(ls: Seq<Seq<char>>)
    ensures
        drop_trailing_blank(ls).len() <= ls.len(),
        drop_trailing_blank(ls) == ls.take(drop_trailing_blank(ls).len() as int),
        drop_trailing_blank(ls).len() > 0 ==> trim(drop_trailing_blank(ls).last()).len() > 0,
    decreases ls.len(),
{
    if ls.len() > 0 && trim(ls.last()).len() == 0 {
        lemma_drop_trailing_blank_prefix(ls.drop_last());
        let d = drop_trailing_blank(ls.drop_last());
        assert(ls.drop_last().take(d.len() as int) =~= ls.take(d.len() as int));
    } else {
        assert(ls.take(ls.len() as int) =~= ls);
    }
}

proof fn lemma_names_block_strip_cr(l: Seq<char>, id: Seq<char>)
    ensures
        names_block(crate::text::strip_cr(l), id) ==> names_block(l, id),
{
    crate::text::lemma_trim_strip_cr(l);
    let m = crate::text::strip_cr(l);
    if m.len() > 0 {
        assert(m[0] == l[0]);
    } else {
        assert(trim(m).len() == 0);
        reveal_strlit("- id:");
        reveal_strlit("id:");
    }
}

proof fn lemma_placeholder_row_names_nothing(id: Seq<char>)
    ensures
        !names_block("[]"@, id),
        !names_block(Seq::<char>::empty(), id),
{
    reveal_strlit("[]");
    reveal_strlit("- id:");
    reveal_strlit("id:");
    let b = "[]"@;
    assert(!is_ws(b[0]) && !is_ws(b.last()));
    assert(trim_start(b) == b);
    assert(trim_end(b) == b);
    assert(!starts_with(b, "- id:"@));
    assert(!starts_with(b, "id:"@));
    assert(trim(Seq::<char>::empty()) =~= Seq::<char>::empty());
}

/// The lines of an assembled document: the given lines (each read back
/// without a trailing `'\r'`), plus the `[]` placeholder, or a lone empty
/// line and the placeholder for no lines at all.
proof fn lemma_finalize_lines(c: Seq<Seq<char>>)
    requires
        crate::text::single_lines(c),
        c.len() > 0 ==> trim(c.last()).len() > 0,
    ensures
        forall|i: int|
            0 <= i < lines(finalize(c)).len() ==> (#[trigger] lines(finalize(c))[i] == "[]"@
                || lines(finalize(c))[i] == Seq::<char>::empty() || exists|j: int|
                0 <= j < c.len() && lines(finalize(c))[i] == crate::text::strip_cr(c[j])),
{
    reveal_strlit("[]");
    reveal_strlit("[]\n");
    let nl = seq!['\n'];
    let ph = "[]"@;
    assert(!ph.contains('\n'));
    assert("[]\n"@ =~= ph + nl);
    let r0 = join(c, nl);
    if c.len() == 0 {
        assert(r0 =~= Seq::<char>::empty());
        assert(!ends_with(r0, nl));
        let r = ensure_nl(r0);
        assert(r =~= nl);
        let two: Seq<Seq<char>> = seq![Seq::<char>::empty(), ph];
        assert(crate::text::single_lines(two)) by {
            assert(!Seq::<char>::empty().contains('\n'));
        }
        crate::text::lemma_lines_of_written(two);
        assert(join(two, nl) =~= join(two.drop_last(), nl) + nl + ph);
        assert(join(two.drop_last(), nl) =~= Seq::<char>::empty());
        assert(r + "[]\n"@ =~= join(two, nl) + nl);
        let one: Seq<Seq<char>> = seq![Seq::<char>::empty()];
        crate::text::lemma_lines_of_written(one);
        assert(join(one, nl) =~= Seq::<char>::empty());
        assert(r =~= join(one, nl) + nl);
        assert forall|i: int| 0 <= i < lines(finalize(c)).len() implies (#[trigger] lines(
            finalize(c),
        )[i] == "[]"@ || lines(finalize(c))[i] == Seq::<char>::empty() || exists|j: int|
            0 <= j < c.len() && lines(finalize(c))[i] == crate::text::strip_cr(c[j])) by {
            if finalize(c) == r {
                assert(lines(r)[i] == crate::text::strip_cr(one[i]));
            } else {
                assert(lines(finalize(c))[i] == crate::text::strip_cr(two[i]));
            }
        }
    } else {
        let last = c.last();
        assert(last.len() > 0) by {
            if last.len() == 0 {
                assert(trim(last) =~= Seq::<char>::empty());
            }
        }
        assert(!ends_with(r0, nl)) by {
            if c.len() == 1 {
                assert(r0 == last);
            } else {
                assert(r0 == join(c.drop_last(), nl) + nl + last);
            }
            if ends_with(r0, nl) {
                assert(r0.skip(r0.len() - 1)[0] == r0[r0.len() - 1]);
                assert(r0[r0.len() - 1] == last[last.len() - 1]);
                assert(c[c.len() - 1].contains('\n'));
            }
        }
        let r = ensure_nl(r0);
        assert(r == r0 + nl);
        crate::text::lemma_lines_of_written(c);
        let cp = c.push(ph);
        assert(crate::text::single_lines(cp)) by {
            assert forall|i: int| 0 <= i < cp.len() implies !(#[trigger] cp[i]).contains('\n') by {
                if i < c.len() {
                    assert(cp[i] == c[i]);
                }
            }
        }
        crate::text::lemma_lines_of_written(cp);
        assert(cp.drop_last() =~= c);
        assert(join(cp, nl) == r0 + nl + ph);
        assert(r + "[]\n"@ =~= join(cp, nl) + nl);
        assert forall|i: int| 0 <= i < lines(finalize(c)).len() implies (#[trigger] lines(
            finalize(c),
        )[i] == "[]"@ || lines(finalize(c))[i] == Seq::<char>::empty() || exists|j: int|
            0 <= j < c.len() && lines(finalize(c))[i] == crate::text::strip_cr(c[j])) by {
            if finalize(c) == r {
                assert(lines(r)[i] == crate::text::strip_cr(c[i]));
            } else {
                assert(lines(finalize(c))[i] == crate::text::strip_cr(cp[i]));
                if i < c.len() {
                    assert(cp[i] == c[i]);
                } else {
                    assert(cp[i] == ph);
                    assert(crate::text::strip_cr(ph) == ph) by {
                        assert(ph.last() == ']');
                    }
                }
            }
        }
    }
}
/// The lines the block strip keeps are lines of its input that are not id
/// rows of either id.
proof fn lemma_strip_kept(ls: Seq<Seq<char>>, cordis_id: Seq<char>, plugin_id: Seq<char>)
    ensures
        forall|k: int|
            0 <= k < strip_scan(ls, cordis_id, plugin_id).0.len() ==> exists|j: int|
                0 <= j < ls.len() && #[trigger] strip_scan(ls, cordis_id, plugin_id).0[k] == ls[j]
                    && !is_id_row(trim(ls[j]), cordis_id) && !is_id_row(trim(ls[j]), plugin_id),
    decreases ls.len(),
{
    if ls.len() > 0 {
        lemma_strip_kept(ls.drop_last(), cordis_id, plugin_id);
        let prev = strip_scan(ls.drop_last(), cordis_id, plugin_id);
        let cur = strip_scan(ls, cordis_id, plugin_id);
        assert forall|k: int| 0 <= k < cur.0.len() implies exists|j: int|
            0 <= j < ls.len() && #[trigger] cur.0[k] == ls[j] && !is_id_row(trim(ls[j]), cordis_id)
                && !is_id_row(trim(ls[j]), plugin_id) by {
            if k < prev.0.len() {
                assert(cur.0[k] == prev.0[k]);
                let j = choose|j: int|
                    0 <= j < ls.drop_last().len() && #[trigger] prev.0[k] == ls.drop_last()[j]
                        && !is_id_row(trim(ls.drop_last()[j]), cordis_id) && !is_id_row(
                        trim(ls.drop_last()[j]),
                        plugin_id,
                    );
                assert(ls[j] == ls.drop_last()[j]);
            } else {
                assert(cur.0[k] == ls[ls.len() - 1]);
            }
        }
    }
}

proof fn lemma_drop_trailing_blank_idempotent(ls: Seq<Seq<char>>)
    ensures
        drop_trailing_blank(drop_trailing_blank(ls)) == drop_trailing_blank(ls),
{
    lemma_drop_trailing_blank_prefix(ls);
}

/// Uninstalling clears the plugin's `disabled:` row: after
/// `strip_cordis_rows(raw, cordis_id, plugin_id)` the disabled-row reader no
/// longer reports `cordis_id`, whenever every line of the document that opens
/// a block of `cordis_id` is written `- id: <cordis_id>` or
/// `id: <cordis_id>`.
pub proof fn lemma_uninstall_clears_disabled(raw: Seq<char>, cordis_id: Seq<char>, plugin_id: Seq<char>)
    requires
        forall|i: int|
            0 <= i < lines(raw).len() && names_block(#[trigger] lines(raw)[i], cordis_id)
                ==> is_id_row(trim(lines(raw)[i]), cordis_id),
    ensures
        !disabled_ids(strip_cordis_rows_text(raw, cordis_id, plugin_id)).contains(cordis_id),
{
    let ls = lines(raw);
    let kept = strip_scan(ls, cordis_id, plugin_id).0;
    let c = drop_trailing_blank(kept);
    lemma_strip_kept(ls, cordis_id, plugin_id);
    lemma_drop_trailing_blank_prefix(kept);
    lemma_drop_trailing_blank_idempotent(kept);
    assert(finalize(kept) == finalize(c));
    crate::text::lemma_lines_single(raw, 0);
    assert forall|k: int| 0 <= k < c.len() implies !names_block(#[trigger] c[k], cordis_id)
        && !c[k].contains('\n') by {
        assert(c[k] == kept[k]);
        let j = choose|j: int|
            0 <= j < ls.len() && #[trigger] kept[k] == ls[j] && !is_id_row(trim(ls[j]), cordis_id)
                && !is_id_row(trim(ls[j]), plugin_id);
        assert(!ls[j].contains('\n'));
    }
    assert(crate::text::single_lines(c));
    lemma_finalize_lines(c);
    lemma_placeholder_row_names_nothing(cordis_id);
    let out = lines(finalize(c));
    assert forall|i: int| 0 <= i < out.len() implies !names_block(#[trigger] out[i], cordis_id) by {
        if out[i] != "[]"@ && out[i] != Seq::<char>::empty() {
            let j = choose|j: int| 0 <= j < c.len() && out[i] == crate::text::strip_cr(c[j]);
            lemma_names_block_strip_cr(c[j], cordis_id);
        }
    }
    lemma_scan_without_block(out, cordis_id);
}


/// Uninstalling removes every block of the plugin, whether its id row names
/// the cordis id or the package id: no line of the document
/// `strip_cordis_rows(raw, cordis_id, plugin_id)` writes is an id row
/// (`- id: X` or `id: X`, trimmed) for either id.
pub proof fn lemma_uninstall_removes_blocks(raw: Seq<char>, cordis_id: Seq<char>, plugin_id: Seq<char>)
    ensures
        forall|i: int|
            0 <= i < lines(strip_cordis_rows_text(raw, cordis_id, plugin_id)).len() ==> {
                let t = trim(#[trigger] lines(strip_cordis_rows_text(raw, cordis_id, plugin_id))[i]);
                !is_id_row(t, cordis_id) && !is_id_row(t, plugin_id)
            },
{
    let ls = lines(raw);
    let kept = strip_scan(ls, cordis_id, plugin_id).0;
    let c = drop_trailing_blank(kept);
    lemma_strip_kept(ls, cordis_id, plugin_id);
    lemma_drop_trailing_blank_prefix(kept);
    lemma_drop_trailing_blank_idempotent(kept);
    assert(finalize(kept) == finalize(c));
    crate::text::lemma_lines_single(raw, 0);
    assert forall|k: int| 0 <= k < c.len() implies !is_id_row(trim(#[trigger] c[k]), cordis_id)
        && !is_id_row(trim(c[k]), plugin_id) && !c[k].contains('\n') by {
        assert(c[k] == kept[k]);
        let j = choose|j: int|
            0 <= j < ls.len() && #[trigger] kept[k] == ls[j] && !is_id_row(trim(ls[j]), cordis_id)
                && !is_id_row(trim(ls[j]), plugin_id);
        assert(!ls[j].contains('\n'));
    }
    assert(crate::text::single_lines(c));
    lemma_finalize_lines(c);
    let out = lines(finalize(c));
    let e = Seq::<char>::empty();
    assert(trim(e) =~= e);
    assert forall|i: int| 0 <= i < out.len() implies !is_id_row(trim(#[trigger] out[i]), cordis_id)
        && !is_id_row(trim(out[i]), plugin_id) by {
        if out[i] == "[]"@ {
            reveal_strlit("[]");
            lemma_trim_placeholder();
            if is_id_row(trim(out[i]), cordis_id) {
                lemma_id_row_not_placeholder(trim(out[i]), cordis_id);
            }
            if is_id_row(trim(out[i]), plugin_id) {
                lemma_id_row_not_placeholder(trim(out[i]), plugin_id);
            }
        } else if out[i] == e {
            lemma_blank_line_quiet(e, cordis_id);
            lemma_blank_line_quiet(e, plugin_id);
        } else {
            let j = choose|j: int| 0 <= j < c.len() && out[i] == crate::text::strip_cr(c[j]);
            crate::text::lemma_trim_strip_cr(c[j]);
        }
    }
}

/// Without a block of the plugin the strip drops nothing but the `[]`
/// placeholder: when no line is an id row of either id, every other line is
/// kept, in order.
pub proof fn lemma_strip_without_blocks(ls: Seq<Seq<char>>, cordis_id: Seq<char>, plugin_id: Seq<char>)
    requires
        forall|i: int|
            0 <= i < ls.len() ==> !is_id_row(trim(#[trigger] ls[i]), cordis_id) && !is_id_row(
                trim(ls[i]),
                plugin_id,
            ),
    ensures
        strip_scan(ls, cordis_id, plugin_id).0 == ls.filter(|l: Seq<char>| trim(l) != "[]"@),
        !strip_scan(ls, cordis_id, plugin_id).1,
    decreases ls.len(),
{
    if ls.len() > 0 {
        let p = ls.drop_last();
        assert forall|i: int| 0 <= i < p.len() implies !is_id_row(trim(#[trigger] p[i]), cordis_id)
            && !is_id_row(trim(p[i]), plugin_id) by {
            assert(p[i] == ls[i]);
        }
        lemma_strip_without_blocks(p, cordis_id, plugin_id);
        assert(!is_id_row(trim(ls[ls.len() - 1]), cordis_id));
        assert(!is_id_row(trim(ls[ls.len() - 1]), plugin_id));
        reveal(Seq::filter);
        assert(ls.drop_last() == p);
    } else {
        reveal(Seq::filter);
        assert(ls.filter(|l: Seq<char>| trim(l) != "[]"@) =~= Seq::<Seq<char>>::empty());
    }
}

/// The placeholder is its own trimmed form.
proof fn lemma_trim_placeholder()
    ensures
        trim("[]"@) == "[]"@,
{
    reveal_strlit("[]");
    let ph = "[]"@;
    crate::text::lemma_trim_start_stop(ph);
    crate::text::lemma_trim_end_stop(ph);
}

// ---------------------------------------------------------------------------
// Laws: repeating a port rewrite
// ---------------------------------------------------------------------------

/// Lines as reading them back from a written document gives them.
pub open spec fn reread(ls: Seq<Seq<char>>) -> Seq<Seq<char>> {
    ls.map_values(|l: Seq<char>| crate::text::strip_cr(l))
}

/// A prefix without `'\r'` is seen alike before and after a final `'\r'` is
/// dropped.
proof fn lemma_prefix_strip_cr(l: Seq<char>, p: Seq<char>)
    requires
        !p.contains('\r'),
    ensures
        starts_with(trim_start(crate::text::strip_cr(l)), p) == starts_with(trim_start(l), p),
{
    if l.len() > 0 && l.last() == '\r' {
        let m = l.drop_last();
        assert(m.push('\r') =~= l);
        assert(is_ws('\r'));
        if all_ws(m) {
            assert(all_ws(l)) by {
                assert forall|i: int| 0 <= i < l.len() implies is_ws(#[trigger] l[i]) by {
                    if i < m.len() {
                        assert(l[i] == m[i]);
                    }
                }
            }
            crate::text::lemma_all_ws_trim_start(l);
            crate::text::lemma_all_ws_trim_start(m);
            assert(crate::text::strip_cr(l) == m);
            assert(trim_start(m) =~= trim_start(l));
        } else {
            crate::text::lemma_trim_start_push(m, '\r');
            let t = trim_start(m);
            assert(crate::text::strip_cr(l) == m);
            assert(trim_start(l) == t.push('\r'));
            if p.len() <= t.len() {
                assert(t.push('\r').take(p.len() as int) =~= t.take(p.len() as int));
            } else if p.len() == t.len() + 1 {
                assert(!starts_with(t, p));
                if starts_with(t.push('\r'), p) {
                    assert(t.push('\r').take(p.len() as int) =~= t.push('\r'));
                    assert(p[p.len() - 1] == '\r');
                    assert(p.contains('\r'));
                }
            } else {
                assert(!starts_with(t, p));
                assert(!starts_with(t.push('\r'), p));
            }
        }
    }
}

proof fn lemma_utf8_len_spaces(n: nat)
    ensures
        utf8_len_seq(spaces(n)) == n,
    decreases n,
{
    if n > 0 {
        assert(spaces(n).drop_last() =~= spaces((n - 1) as nat));
        lemma_utf8_len_spaces((n - 1) as nat);
    }
}

/// A rewritten row keeps its indentation when rewritten again.
proof fn lemma_row_reindent(k: nat, rest: Seq<char>)
    requires
        rest.len() > 0,
        !is_ws(rest[0]),
    ensures
        trim_start(spaces(k) + rest) == rest,
        indent_of(spaces(k) + rest) == spaces(k),
{
    let s = spaces(k) + rest;
    assert(s.take(k as int) =~= spaces(k));
    assert(is_ws(' '));
    assert(all_ws(s.take(k as int))) by {
        assert forall|i: int| 0 <= i < s.take(k as int).len() implies is_ws(
            #[trigger] s.take(k as int)[i],
        ) by {
            assert(s.take(k as int)[i] == ' ');
        }
    }
    crate::text::lemma_trim_start_skip(s, k as int);
    assert(s.skip(k as int) =~= rest);
    crate::text::lemma_trim_start_stop(rest);
    assert(s.take(s.len() - rest.len()) =~= spaces(k));
    lemma_utf8_len_spaces(k);
}

/// The lines of a document written from single lines `o`.
proof fn lemma_written_lines(o: Seq<Seq<char>>)
    requires
        o.len() > 0,
        crate::text::single_lines(o),
    ensures
        ends_with(join(o, seq!['\n']), seq!['\n']) ==> o.len() >= 2 && lines(
            ensure_nl(join(o, seq!['\n'])),
        ) == reread(o.drop_last()),
        !ends_with(join(o, seq!['\n']), seq!['\n']) ==> lines(ensure_nl(join(o, seq!['\n'])))
            == reread(o),
{
    let nl = seq!['\n'];
    if ends_with(join(o, nl), nl) {
        crate::text::lemma_join_ends_nl(o);
        let p = o.drop_last();
        assert forall|i: int| 0 <= i < p.len() implies !(#[trigger] p[i]).contains('\n') by {
            assert(p[i] == o[i]);
        }
        crate::text::lemma_lines_of_written(p);
    } else {
        crate::text::lemma_lines_of_written(o);
    }
}

/// Rescanning the lan-bind rewrite's own output finds the same block state
/// and nothing left to change.
proof fn lemma_lan_rescan(ls: Seq<Seq<char>>, port: nat)
    requires
        crate::text::single_lines(ls),
    ensures
        lan_scan(ls, port).0.len() == ls.len(),
        crate::text::single_lines(lan_scan(ls, port).0),
        lan_scan(reread(lan_scan(ls, port).0), port).1 == lan_scan(ls, port).1,
        !lan_scan(reread(lan_scan(ls, port).0), port).2,
    decreases ls.len(),
{
    if ls.len() > 0 {
        reveal_strlit("# --- remote-web-ui lan-bind block (managed - do not edit) ---");
        reveal_strlit("# --- end remote-web-ui lan-bind block ---");
        reveal_strlit("port:");
        reveal_strlit("port: ");
        let begin = LAN_BIND_BLOCK_BEGIN@;
        let end = LAN_BIND_BLOCK_END@;
        let key = "port:"@;
        assert(!begin.contains('\r'));
        assert(!end.contains('\r'));
        assert(!key.contains('\r'));
        let p = ls.drop_last();
        let l = ls.last();
        assert forall|i: int| 0 <= i < p.len() implies !(#[trigger] p[i]).contains('\n') by {
            assert(p[i] == ls[i]);
        }
        assert(!ls[ls.len() - 1].contains('\n'));
        lemma_lan_rescan(p, port);
        let fp = lan_scan(p, port);
        let f = lan_scan(ls, port);
        assert(f == lan_step(fp, l, port));
        let x = f.0.last();
        assert(f.0 =~= fp.0.push(x));
        assert(reread(f.0) =~= reread(fp.0).push(crate::text::strip_cr(x)));
        assert(reread(f.0).drop_last() =~= reread(fp.0));
        let gp = lan_scan(reread(fp.0), port);
        assert(lan_scan(reread(f.0), port) == lan_step(gp, crate::text::strip_cr(x), port));
        lemma_prefix_strip_cr(l, begin);
        lemma_prefix_strip_cr(l, end);
        lemma_prefix_strip_cr(l, key);
        let tr = trim_start(l);
        if !starts_with(tr, begin) && !starts_with(tr, end) && fp.1 && starts_with(tr, key) {
            let rest = "port: "@ + dec(port);
            let k = utf8_len_seq(l.take(l.len() - trim_start(l).len()));
            let new = indent_of(l) + "port: "@ + dec(port);
            assert(x == new);
            assert(new =~= spaces(k) + rest);
            crate::text::lemma_dec_digits(port);
            assert(rest[0] == 'p');
            assert(!is_ws(rest[0]));
            lemma_row_reindent(k, rest);
            assert(new.last() == dec(port)[dec(port).len() - 1]);
            assert(crate::text::strip_cr(new) == new);
            assert(!starts_with(rest, begin)) by {
                if starts_with(rest, begin) {
                    assert(rest.take(begin.len() as int)[0] == begin[0]);
                }
            }
            assert(!starts_with(rest, end)) by {
                if starts_with(rest, end) {
                    assert(rest.take(end.len() as int)[0] == end[0]);
                }
            }
            assert(starts_with(rest, key)) by {
                assert(rest.take(5) =~= key);
            }
            assert(indent_of(new) + "port: "@ + dec(port) =~= new);
            assert(!new.contains('\n')) by {
                if new.contains('\n') {
                    let i = choose|i: int| 0 <= i < new.len() && new[i] == '\n';
                    if i < k {
                        assert(new[i] == ' ');
                    } else if i < k + 6 {
                        assert(new[i] == "port: "@[i - k]);
                    } else {
                        assert(new[i] == dec(port)[i - k - 6]);
                    }
                }
            }
        }
        assert forall|i: int| 0 <= i < f.0.len() implies !(#[trigger] f.0[i]).contains('\n') by {
            if i < fp.0.len() {
                assert(f.0[i] == fp.0[i]);
            }
        }
    }
}

/// Setting the lan-bind port twice is setting it once: the document the
/// rewrite produces already pins `port` and comes back verbatim, so a second
/// start on an unchanged port rewrites nothing.
pub proof fn lemma_lan_bind_port_idempotent(raw: Seq<char>, port: nat)
    ensures
        lan_bind_port_text(lan_bind_port_text(raw, port), port) == lan_bind_port_text(raw, port),
{
    let nl = seq!['\n'];
    let ls = lines(raw);
    let f = lan_scan(ls, port);
    if f.2 {
        crate::text::lemma_lines_single(raw, 0);
        lemma_lan_rescan(ls, port);
        let o = f.0;
        assert(ls.len() > 0);
        lemma_written_lines(o);
        if ends_with(join(o, nl), nl) {
            let p = ls.drop_last();
            assert forall|i: int| 0 <= i < p.len() implies !(#[trigger] p[i]).contains('\n') by {
                assert(p[i] == ls[i]);
            }
            lemma_lan_rescan(p, port);
            assert(f == lan_step(lan_scan(p, port), ls.last(), port));
            assert(o.drop_last() =~= lan_scan(p, port).0);
        }
    }
}

/// Rescanning a row rewrite's own output finds the same block state and
/// nothing left to change, for a rewritten row that reads back as such.
proof fn lemma_rewrite_rescan(ls: Seq<Seq<char>>, block_id: Seq<char>, key: Seq<char>, value: Seq<char>)
    requires
        crate::text::single_lines(ls),
        !block_id.contains('\r'),
        !key.contains('\r'),
        !key.contains('\n'),
        !value.contains('\n'),
        key.len() > 0,
        !is_ws(key[0]),
        value.len() > 0,
        value.last() != '\r',
        !starts_with(key + ": "@ + value, "- id:"@),
    ensures
        rewrite_scan(ls, block_id, key, value).0.len() == ls.len(),
        crate::text::single_lines(rewrite_scan(ls, block_id, key, value).0),
        rewrite_scan(reread(rewrite_scan(ls, block_id, key, value).0), block_id, key, value).1
            == rewrite_scan(ls, block_id, key, value).1,
        !rewrite_scan(reread(rewrite_scan(ls, block_id, key, value).0), block_id, key, value).2,
    decreases ls.len(),
{
    if ls.len() > 0 {
        reveal_strlit("- id:");
        reveal_strlit("- id: ");
        reveal_strlit(":");
        reveal_strlit(": ");
        let idk = "- id:"@;
        let idr = "- id: "@ + block_id;
        let kr = key + ":"@;
        assert(!idk.contains('\r'));
        assert(!idr.contains('\r')) by {
            if idr.contains('\r') {
                let i = choose|i: int| 0 <= i < idr.len() && idr[i] == '\r';
                if i >= 6 {
                    assert(block_id[i - 6] == '\r');
                }
            }
        }
        assert(!kr.contains('\r')) by {
            if kr.contains('\r') {
                let i = choose|i: int| 0 <= i < kr.len() && kr[i] == '\r';
                if i < key.len() {
                    assert(key[i] == '\r');
                }
            }
        }
        let p = ls.drop_last();
        let l = ls.last();
        assert forall|i: int| 0 <= i < p.len() implies !(#[trigger] p[i]).contains('\n') by {
            assert(p[i] == ls[i]);
        }
        assert(!ls[ls.len() - 1].contains('\n'));
        lemma_rewrite_rescan(p, block_id, key, value);
        let fp = rewrite_scan(p, block_id, key, value);
        let f = rewrite_scan(ls, block_id, key, value);
        assert(f == rewrite_step(fp, l, block_id, key, value));
        let x = f.0.last();
        assert(f.0 =~= fp.0.push(x));
        assert(reread(f.0) =~= reread(fp.0).push(crate::text::strip_cr(x)));
        assert(reread(f.0).drop_last() =~= reread(fp.0));
        let gp = rewrite_scan(reread(fp.0), block_id, key, value);
        assert(rewrite_scan(reread(f.0), block_id, key, value) == rewrite_step(
            gp,
            crate::text::strip_cr(x),
            block_id,
            key,
            value,
        ));
        lemma_prefix_strip_cr(l, idk);
        lemma_prefix_strip_cr(l, idr);
        lemma_prefix_strip_cr(l, kr);
        let tr = trim_start(l);
        if !starts_with(tr, idk) && fp.1 && starts_with(tr, kr) {
            let rest = key + ": "@ + value;
            let k = utf8_len_seq(l.take(l.len() - trim_start(l).len()));
            let new = indent_of(l) + key + ": "@ + value;
            assert(x == new);
            assert(new =~= spaces(k) + rest);
            assert(rest[0] == key[0]);
            lemma_row_reindent(k, rest);
            assert(new.last() == value.last());
            assert(crate::text::strip_cr(new) == new);
            assert(starts_with(rest, kr)) by {
                assert(rest.take(kr.len() as int) =~= kr);
            }
            assert(indent_of(new) + key + ": "@ + value =~= new);
            assert(!new.contains('\n')) by {
                if new.contains('\n') {
                    let i = choose|i: int| 0 <= i < new.len() && new[i] == '\n';
                    if i < k {
                        assert(new[i] == ' ');
                    } else if i < k + key.len() {
                        assert(new[i] == key[i - k]);
                    } else if i < k + key.len() + 2 {
                        assert(new[i] == ": "@[i - k - key.len()]);
                    } else {
                        assert(new[i] == value[i - k - key.len() - 2]);
                    }
                }
            }
        }
        assert forall|i: int| 0 <= i < f.0.len() implies !(#[trigger] f.0[i]).contains('\n') by {
            if i < fp.0.len() {
                assert(f.0[i] == fp.0[i]);
            }
        }
    }
}

/// Scrubbing the webserver port pin twice is scrubbing it once: the scrubbed
/// document already pins port `0` and comes back verbatim.
pub proof fn lemma_scrub_port_pin_idempotent(raw: Seq<char>)
    ensures
        rewrite_row_text(rewrite_row_text(raw, "webserver"@, "port"@, "0"@).0, "webserver"@, "port"@, "0"@).0
            == rewrite_row_text(raw, "webserver"@, "port"@, "0"@).0,
{
    reveal_strlit("webserver");
    reveal_strlit("port");
    reveal_strlit("0");
    reveal_strlit("- id:");
    reveal_strlit(": ");
    let b = "webserver"@;
    let k = "port"@;
    let v = "0"@;
    let nl = seq!['\n'];
    assert(!b.contains('\r'));
    assert(!k.contains('\r'));
    assert(!k.contains('\n'));
    assert(!v.contains('\n'));
    assert(!is_ws(k[0]));
    assert(!starts_with(k + ": "@ + v, "- id:"@)) by {
        if starts_with(k + ": "@ + v, "- id:"@) {
            assert((k + ": "@ + v).take(5)[0] == "- id:"@[0]);
        }
    }
    let ls = lines(raw);
    let f = rewrite_scan(ls, b, k, v);
    if f.2 {
        crate::text::lemma_lines_single(raw, 0);
        lemma_rewrite_rescan(ls, b, k, v);
        let o = f.0;
        assert(ls.len() > 0);
        lemma_written_lines(o);
        if ends_with(join(o, nl), nl) {
            let p = ls.drop_last();
            assert forall|i: int| 0 <= i < p.len() implies !(#[trigger] p[i]).contains('\n') by {
                assert(p[i] == ls[i]);
            }
            lemma_rewrite_rescan(p, b, k, v);
            assert(f == rewrite_step(rewrite_scan(p, b, k, v), ls.last(), b, k, v));
            assert(o.drop_last() =~= rewrite_scan(p, b, k, v).0);
        }
    }
}

/// Dropped trailing lines are blank.
proof fn lemma_drop_trailing_blank_tail(ls: Seq<Seq<char>>, i: int)
    requires
        drop_trailing_blank(ls).len() <= i < ls.len(),
    ensures
        trim(ls[i]).len() == 0,
    decreases ls.len(),
{
    if ls.len() > 0 && trim(ls.last()).len() == 0 {
        if i < ls.len() - 1 {
            assert(ls.drop_last()[i] == ls[i]);
            lemma_drop_trailing_blank_tail(ls.drop_last(), i);
        }
    }
}


// ---------------------------------------------------------------------------
// Laws: what the reader reports after a rewrite
// ---------------------------------------------------------------------------

/// The id rows of `id` are exactly the lines that open a block of `id` for
/// the reader: every such line is written `- id: <id>` or `id: <id>`, and
/// no `id: <id>` row is indented inside another block.
pub open spec fn canonical_blocks(ls: Seq<Seq<char>>, id: Seq<char>) -> bool {
    forall|i: int|
        0 <= i < ls.len() ==> (names_block(#[trigger] ls[i], id) <==> is_id_row(trim(ls[i]), id))
}

proof fn lemma_step_names(st: (Set<Seq<char>>, Option<Seq<char>>), l: Seq<char>, id: Seq<char>)
    requires
        names_block(l, id),
    ensures
        disabled_step(st, l) == (st.0, Some(id)),
{
}

/// The reader reaches `Some(id)` only on a line that names `id`, or by
/// staying where it was.
proof fn lemma_step_to(st: (Set<Seq<char>>, Option<Seq<char>>), l: Seq<char>, id: Seq<char>)
    ensures
        disabled_step(st, l).1 == Some(id) ==> names_block(l, id) || disabled_step(st, l) == st,
{
}

/// A boundary line moves the reader to a block of its own, whatever came
/// before, and reports nothing.
proof fn lemma_step_boundary(
    s1: (Set<Seq<char>>, Option<Seq<char>>),
    s2: (Set<Seq<char>>, Option<Seq<char>>),
    l: Seq<char>,
)
    requires
        block_boundary(l),
    ensures
        disabled_step(s1, l).0 == s1.0,
        disabled_step(s1, l).1 == disabled_step(s2, l).1,
{
    reveal_strlit("- ");
    reveal_strlit("- id:");
    reveal_strlit("id:");
    reveal_strlit("disabled: true");
    let t = trim(l);
    if starts_with(t, "- "@) && t == "disabled: true"@ {
        assert(t.take(2)[0] == '-');
    }
    if starts_with(t, "id:"@) && t == "disabled: true"@ {
        assert(t.take(3)[0] == 'i');
    }
}

/// Blank lines, the `[]` placeholder and `disabled: false` rows leave the
/// reader where it was.
proof fn lemma_step_quiet(st: (Set<Seq<char>>, Option<Seq<char>>), l: Seq<char>)
    requires
        trim(l).len() == 0 || trim(l) == "[]"@ || trim(l) == "disabled: false"@,
    ensures
        disabled_step(st, l) == st,
{
    reveal_strlit("[]");
    reveal_strlit("- ");
    reveal_strlit("- id:");
    reveal_strlit("id:");
    reveal_strlit("disabled: true");
    reveal_strlit("disabled: false");
    let t = trim(l);
    if t == "disabled: false"@ {
        assert(t != "disabled: true"@) by {
            assert(t.len() != "disabled: true"@.len());
        }
        if starts_with(t, "- id:"@) {
            assert(t.take(5)[0] == '-');
        }
        if starts_with(t, "id:"@) {
            assert(t.take(3)[0] == 'i');
        }
        if starts_with(t, "- "@) {
            assert(t.take(2)[0] == '-');
        }
    }
    if t == "[]"@ {
        if starts_with(t, "- id:"@) {
            assert(t.take(5)[0] == '-');
        }
        if starts_with(t, "- "@) {
            assert(t.take(2)[0] == '-');
        }
    }
}

/// A line inside a block that is neither a boundary nor a `disabled: true`
/// row leaves the reader where it was.
proof fn lemma_step_content(st: (Set<Seq<char>>, Option<Seq<char>>), l: Seq<char>)
    requires
        !block_boundary(l),
        trim(l) != "disabled: true"@,
    ensures
        disabled_step(st, l) == st,
{
    reveal_strlit("- ");
    reveal_strlit("- id:");
    let t = trim(l);
    if starts_with(t, "- id:"@) {
        assert(t.take(2) =~= t.take(5).take(2));
        assert("- id:"@.take(2) =~= "- "@);
    }
}

/// The reader over lines that end with blank ones.
proof fn lemma_scan_blanks(a: Seq<Seq<char>>, b: Seq<Seq<char>>)
    requires
        forall|k: int| 0 <= k < b.len() ==> trim(#[trigger] b[k]).len() == 0,
    ensures
        disabled_scan(a + b) == disabled_scan(a),
    decreases b.len(),
{
    if b.len() == 0 {
        assert(a + b =~= a);
    } else {
        let p = b.drop_last();
        assert forall|k: int| 0 <= k < p.len() implies trim(#[trigger] p[k]).len() == 0 by {
            assert(p[k] == b[k]);
        }
        lemma_scan_blanks(a, p);
        assert((a + b).drop_last() =~= a + p);
        assert(trim(b[b.len() - 1]).len() == 0);
        lemma_step_quiet(disabled_scan(a + p), (a + b).last());
    }
}

/// How the rewrite of `x` and the reader keep step: `o` is what the reader
/// made of the input so far, `q` what it makes of the kept lines.
pub open spec fn undisable_sim(
    o: (Set<Seq<char>>, Option<Seq<char>>),
    st: (Seq<Seq<char>>, bool, Seq<Seq<char>>),
    x: Seq<char>,
) -> bool {
    let q = disabled_scan(st.0);
    &&& q.0 == o.0.remove(x)
    &&& !st.1 ==> q.1 == o.1 && o.1 != Some(x) && st.2.len() == 0
    &&& st.1 ==> (o.1 == Some(x) || o.1 is None)
    &&& st.1 && st.2.len() == 0 ==> q.1 == Some(x)
    &&& st.2.len() > 0 ==> names_block(st.2[0], x) && forall|k: int|
        1 <= k < st.2.len() ==> trim(#[trigger] st.2[k]).len() == 0
}

proof fn lemma_undisable_sim(ls: Seq<Seq<char>>, x: Seq<char>)
    requires
        canonical_blocks(ls, x),
    ensures
        undisable_sim(disabled_scan(ls), undisable_scan(ls, x), x),
    decreases ls.len(),
{
    reveal_strlit("[]");
    reveal_strlit("disabled: true");
    reveal_strlit("disabled: false");
    if ls.len() == 0 {
        assert(Set::<Seq<char>>::empty().remove(x) =~= Set::<Seq<char>>::empty());
    } else {
        let p = ls.drop_last();
        let l = ls.last();
        assert forall|i: int| 0 <= i < p.len() implies (names_block(#[trigger] p[i], x)
            <==> is_id_row(trim(p[i]), x)) by {
            assert(p[i] == ls[i]);
        }
        assert(names_block(ls[ls.len() - 1], x) <==> is_id_row(trim(ls[ls.len() - 1]), x));
        lemma_undisable_sim(p, x);
        let o = disabled_scan(p);
        let st = undisable_scan(p, x);
        let o2 = disabled_scan(ls);
        let st2 = undisable_scan(ls, x);
        assert(o2 == disabled_step(o, l));
        assert(st2 == undisable_step(st, l, x));
        let q = disabled_scan(st.0);
        let t = trim(l);
        let h = st.2;
        // The kept lines with the held blanks behind them read as the kept lines.
        if h.len() > 0 {
            assert forall|k: int| 0 <= k < h.drop_first().len() implies trim(
                #[trigger] h.drop_first()[k],
            ).len() == 0 by {
                assert(h.drop_first()[k] == h[k + 1]);
            }
            lemma_scan_blanks(st.0, h.drop_first());
        }
        assert(disabled_scan(flush_held(st.0, h)) == q);
        lemma_step_to(o, l, x);
        if t == "[]"@ {
            lemma_step_quiet(o, l);
        } else if is_id_row(t, x) {
            lemma_step_names(o, l, x);
            assert(st2.2 =~= seq![l]);
        } else if st.1 && block_boundary(l) {
            lemma_step_boundary(q, o, l);
            assert(flush_held(st.0, h).push(l).drop_last() =~= flush_held(st.0, h));
            assert(disabled_scan(st2.0) == disabled_step(q, l));
        } else if st.1 && (t == "disabled: true"@ || t == "disabled: false"@) {
            if t == "disabled: false"@ {
                lemma_step_quiet(o, l);
            } else {
                reveal_strlit("- id:");
                reveal_strlit("id:");
                assert(!starts_with(t, "- id:"@)) by {
                    if starts_with(t, "- id:"@) {
                        assert(t.take(5)[0] == '-');
                    }
                }
                assert(!starts_with(t, "id:"@)) by {
                    if starts_with(t, "id:"@) {
                        assert(t.take(3)[0] == 'i');
                    }
                }
                assert(o2.1 is None);
                assert(o2.0 == o.0 || (o.1 == Some(x) && o2.0 == o.0.insert(x)));
                assert(o.0.insert(x).remove(x) =~= o.0.remove(x));
            }
        } else if st.1 && t.len() == 0 && h.len() > 0 {
            lemma_step_quiet(o, l);
            assert forall|k: int| 1 <= k < st2.2.len() implies trim(#[trigger] st2.2[k]).len()
                == 0 by {
                if k < h.len() {
                    assert(st2.2[k] == h[k]);
                }
            }
            assert(st2.2[0] == h[0]);
        } else if st.1 {
            if t.len() == 0 {
                lemma_step_quiet(o, l);
                lemma_step_quiet(disabled_scan(st.0 + h), l);
            } else {
                lemma_step_content(o, l);
                lemma_step_content(disabled_scan(st.0 + h), l);
            }
            assert((st.0 + h).push(l).drop_last() =~= st.0 + h);
            if h.len() > 0 {
                let a1 = st.0.push(h[0]);
                assert(a1.drop_last() =~= st.0);
                lemma_step_names(q, h[0], x);
                assert(st.0 + h =~= a1 + h.drop_first());
                assert forall|k: int| 0 <= k < h.drop_first().len() implies trim(
                    #[trigger] h.drop_first()[k],
                ).len() == 0 by {
                    assert(h.drop_first()[k] == h[k + 1]);
                }
                lemma_scan_blanks(a1, h.drop_first());
            } else {
                assert(st.0 + h =~= st.0);
            }
        } else {
            assert(st.0.push(l).drop_last() =~= st.0);
            assert(disabled_scan(st2.0) == disabled_step(q, l));
            assert(o2.0 == o.0 || (o2.0 == o.0.insert(o.1->0) && o.1 is Some));
            if o.1 is Some && o2.0 == o.0.insert(o.1->0) && o2.0 != o.0 {
                assert(o.0.insert(o.1->0).remove(x) =~= o.0.remove(x).insert(o.1->0));
            }
        }
        assert(disabled_scan(st2.0).0 =~= o2.0.remove(x));
        assert(st2.1 ==> (o2.1 == Some(x) || o2.1 is None));
    }
}

/// The reader makes of the kept lines what it made of the input, less `x`.
proof fn lemma_undisabled_reads(ls: Seq<Seq<char>>, x: Seq<char>)
    requires
        canonical_blocks(ls, x),
    ensures
        disabled_scan(undisabled(ls, x)).0 == disabled_scan(ls).0.remove(x),
{
    lemma_undisable_sim(ls, x);
    let st = undisable_scan(ls, x);
    let h = st.2;
    if h.len() > 0 {
        assert forall|k: int| 0 <= k < h.drop_first().len() implies trim(
            #[trigger] h.drop_first()[k],
        ).len() == 0 by {
            assert(h.drop_first()[k] == h[k + 1]);
        }
        lemma_scan_blanks(st.0, h.drop_first());
    }
}

/// Every line the rewrite keeps is a line of its input.
proof fn lemma_undisable_members(ls: Seq<Seq<char>>, x: Seq<char>)
    ensures
        forall|k: int|
            0 <= k < undisable_scan(ls, x).0.len() ==> exists|j: int|
                0 <= j < ls.len() && #[trigger] undisable_scan(ls, x).0[k] == ls[j],
        forall|k: int|
            0 <= k < undisable_scan(ls, x).2.len() ==> exists|j: int|
                0 <= j < ls.len() && #[trigger] undisable_scan(ls, x).2[k] == ls[j],
        forall|k: int|
            0 <= k < undisabled(ls, x).len() ==> exists|j: int|
                0 <= j < ls.len() && #[trigger] undisabled(ls, x)[k] == ls[j],
    decreases ls.len(),
{
    if ls.len() > 0 {
        let p = ls.drop_last();
        lemma_undisable_members(p, x);
        let st = undisable_scan(p, x);
        let st2 = undisable_scan(ls, x);
        let l = ls.last();
        assert(l == ls[ls.len() - 1]);
        assert forall|k: int| 0 <= k < st.0.len() implies exists|j: int|
            0 <= j < ls.len() && #[trigger] st.0[k] == ls[j] by {
            let j = choose|j: int| 0 <= j < p.len() && #[trigger] st.0[k] == p[j];
            assert(p[j] == ls[j]);
        }
        assert forall|k: int| 0 <= k < st.2.len() implies exists|j: int|
            0 <= j < ls.len() && #[trigger] st.2[k] == ls[j] by {
            let j = choose|j: int| 0 <= j < p.len() && #[trigger] st.2[k] == p[j];
            assert(p[j] == ls[j]);
        }
        let f = flush_held(st.0, st.2);
        assert forall|k: int| 0 <= k < f.len() implies exists|j: int|
            0 <= j < ls.len() && #[trigger] f[k] == ls[j] by {
            if k < st.0.len() {
                assert(f[k] == st.0[k]);
            } else {
                assert(f[k] == st.2[k - st.0.len() + 1]);
            }
        }
        let a = st.0 + st.2;
        assert forall|k: int| 0 <= k < a.len() implies exists|j: int|
            0 <= j < ls.len() && #[trigger] a[k] == ls[j] by {
            if k < st.0.len() {
                assert(a[k] == st.0[k]);
            } else {
                assert(a[k] == st.2[k - st.0.len()]);
            }
        }
        assert(st2 == undisable_step(st, l, x));
        assert forall|k: int| 0 <= k < st2.0.len() implies exists|j: int|
            0 <= j < ls.len() && #[trigger] st2.0[k] == ls[j] by {
            if st2.0 == st.0 {
            } else if st2.0 == f.push(l) {
                if k < f.len() {
                    assert(st2.0[k] == f[k]);
                }
            } else if st2.0 == a.push(l) {
                if k < a.len() {
                    assert(st2.0[k] == a[k]);
                }
            } else if st2.0 == st.0.push(l) {
                if k < st.0.len() {
                    assert(st2.0[k] == st.0[k]);
                }
            } else {
                assert(st2.0 == f);
            }
        }
        assert forall|k: int| 0 <= k < st2.2.len() implies exists|j: int|
            0 <= j < ls.len() && #[trigger] st2.2[k] == ls[j] by {
            if st2.2 == st.2.push(l) {
                if k < st.2.len() {
                    assert(st2.2[k] == st.2[k]);
                }
            } else if st2.2 != st.2 {
                assert(st2.2 == seq![l]);
            }
        }
        let f2 = flush_held(st2.0, st2.2);
        assert forall|k: int| 0 <= k < f2.len() implies exists|j: int|
            0 <= j < ls.len() && #[trigger] f2[k] == ls[j] by {
            if k < st2.0.len() {
                assert(f2[k] == st2.0[k]);
            } else {
                assert(f2[k] == st2.2[k - st2.0.len() + 1]);
            }
        }
    } else {
        assert(undisabled(ls, x) =~= Seq::<Seq<char>>::empty());
    }
}

/// Trailing blank lines do not change what the reader makes of a document.
proof fn lemma_scan_drop_trailing_blank(ls: Seq<Seq<char>>)
    ensures
        disabled_scan(drop_trailing_blank(ls)) == disabled_scan(ls),
    decreases ls.len(),
{
    if ls.len() > 0 && trim(ls.last()).len() == 0 {
        lemma_scan_drop_trailing_blank(ls.drop_last());
        lemma_step_quiet(disabled_scan(ls.drop_last()), ls.last());
    }
}

/// The reader does not see the `'\r'` of a `"\r\n"` terminator.
proof fn lemma_step_strip_cr(st: (Set<Seq<char>>, Option<Seq<char>>), l: Seq<char>)
    ensures
        disabled_step(st, crate::text::strip_cr(l)) == disabled_step(st, l),
{
    crate::text::lemma_trim_strip_cr(l);
    let m = crate::text::strip_cr(l);
    if m.len() > 0 {
        assert(m[0] == l[0]);
    } else {
        assert(trim(m).len() == 0);
        reveal_strlit("- id:");
        reveal_strlit("id:");
        reveal_strlit("disabled: true");
        reveal_strlit("- ");
    }
}

proof fn lemma_scan_reread(ls: Seq<Seq<char>>)
    ensures
        disabled_scan(reread(ls)) == disabled_scan(ls),
    decreases ls.len(),
{
    if ls.len() > 0 {
        lemma_scan_reread(ls.drop_last());
        assert(reread(ls).drop_last() =~= reread(ls.drop_last()));
        lemma_step_strip_cr(disabled_scan(ls.drop_last()), ls.last());
    }
}

/// What the reader makes of an assembled document is what it makes of the
/// lines it was assembled from.
proof fn lemma_finalize_scan(c: Seq<Seq<char>>)
    requires
        crate::text::single_lines(c),
        c.len() > 0 ==> trim(c.last()).len() > 0,
    ensures
        disabled_scan(lines(finalize(c))).0 == disabled_scan(c).0,
{
    reveal_strlit("[]");
    reveal_strlit("[]\n");
    let nl = seq!['\n'];
    let ph = "[]"@;
    assert("[]\n"@ =~= ph + nl);
    assert(!ph.contains('\n'));
    assert(trim(ph) == ph) by {
        crate::text::lemma_trim_start_stop(ph);
        crate::text::lemma_trim_end_stop(ph);
    }
    lemma_drop_trailing_blank_prefix(c);
    assert(drop_trailing_blank(c) == c);
    let r0 = join(c, nl);
    if c.len() == 0 {
        let e = Seq::<char>::empty();
        assert(r0 =~= e);
        assert(!ends_with(r0, nl));
        let r = ensure_nl(r0);
        assert(r =~= nl);
        let one: Seq<Seq<char>> = seq![e];
        let two: Seq<Seq<char>> = seq![e, ph];
        assert(crate::text::single_lines(one));
        assert(crate::text::single_lines(two));
        crate::text::lemma_lines_of_written(one);
        crate::text::lemma_lines_of_written(two);
        assert(join(one, nl) =~= e);
        assert(r =~= join(one, nl) + nl);
        assert(two.drop_last() =~= one);
        assert(join(two, nl) =~= join(one, nl) + nl + ph);
        assert(r + "[]\n"@ =~= join(two, nl) + nl);
        lemma_scan_reread(one);
        lemma_scan_reread(two);
        assert(trim(e) =~= e);
        lemma_step_quiet((Set::<Seq<char>>::empty(), None), e);
        assert(one.drop_last() =~= Seq::<Seq<char>>::empty());
        assert(one.last() == e);
        assert(disabled_scan(one.drop_last()) == (Set::<Seq<char>>::empty(), None::<Seq<char>>));
        assert(disabled_scan(one) == disabled_step(disabled_scan(one.drop_last()), e));
        assert(disabled_scan(one) == (Set::<Seq<char>>::empty(), None::<Seq<char>>));
        assert(disabled_scan(c) == (Set::<Seq<char>>::empty(), None::<Seq<char>>));
        lemma_step_quiet(disabled_scan(one), ph);
        assert(disabled_scan(two) == disabled_step(disabled_scan(one), ph));
        assert(crate::text::strip_cr(e) == e);
        assert(lines(r) =~= seq![e]);
        assert(!meaningful(e));
        assert(!exists|i: int| 0 <= i < lines(r).len() && meaningful(#[trigger] lines(r)[i]));
        assert(finalize(c) == r + "[]\n"@);
        assert(disabled_scan(lines(finalize(c))) == disabled_scan(reread(two)));
    } else {
        assert(c.last().len() > 0);
        assert(!ends_with(r0, nl)) by {
            if ends_with(r0, nl) {
                crate::text::lemma_join_ends_nl(c);
            }
        }
        let r = r0 + nl;
        assert(ensure_nl(r0) == r);
        crate::text::lemma_lines_of_written(c);
        lemma_scan_reread(c);
        assert(lines(r) == reread(c));
        if finalize(c) != r {
            let c2 = c.push(ph);
            assert(c2.drop_last() =~= c);
            assert(join(c2, nl) == r0 + nl + ph);
            assert(finalize(c) =~= join(c2, nl) + nl);
            assert(crate::text::single_lines(c2)) by {
                assert forall|i: int| 0 <= i < c2.len() implies !(#[trigger] c2[i]).contains('\n') by {
                    if i < c.len() {
                        assert(c2[i] == c[i]);
                    }
                }
            }
            crate::text::lemma_lines_of_written(c2);
            lemma_scan_reread(c2);
            assert(lines(finalize(c)) == reread(c2));
            lemma_step_quiet(disabled_scan(c), ph);
            assert(disabled_scan(c2) == disabled_step(disabled_scan(c), ph));
        }
    }
}

/// Enabling a plugin clears it and nothing else: after
/// `set_disabled_row(raw, id, true)` the disabled-row reader reports what it
/// reported of `raw`, less `id`, whenever the id rows of `id` are exactly
/// the lines that open its blocks ([`canonical_blocks`]).
pub proof fn lemma_enable_reads(raw: Seq<char>, id: Seq<char>)
    requires
        canonical_blocks(lines(raw), id),
    ensures
        disabled_ids(set_disabled_row_text(raw, id, true)) == disabled_ids(raw).remove(id),
{
    let ls = lines(raw);
    let u = undisabled(ls, id);
    let c = drop_trailing_blank(u);
    lemma_undisabled_reads(ls, id);
    lemma_cleaned_single(raw, id);
    lemma_scan_drop_trailing_blank(u);
    lemma_finalize_scan(c);
}

/// The kept lines, with trailing blank lines dropped, are single lines and
/// end with a non-blank one.
proof fn lemma_cleaned_single(raw: Seq<char>, id: Seq<char>)
    ensures
        crate::text::single_lines(drop_trailing_blank(undisabled(lines(raw), id))),
        drop_trailing_blank(undisabled(lines(raw), id)).len() > 0 ==> trim(
            drop_trailing_blank(undisabled(lines(raw), id)).last(),
        ).len() > 0,
        forall|k: int|
            0 <= k < drop_trailing_blank(undisabled(lines(raw), id)).len() ==> exists|j: int|
                0 <= j < lines(raw).len() && #[trigger] drop_trailing_blank(
                    undisabled(lines(raw), id),
                )[k] == lines(raw)[j],
{
    let ls = lines(raw);
    let u = undisabled(ls, id);
    let c = drop_trailing_blank(u);
    lemma_undisable_members(ls, id);
    lemma_drop_trailing_blank_prefix(u);
    crate::text::lemma_lines_single(raw, 0);
    assert forall|k: int| 0 <= k < c.len() implies exists|j: int|
        0 <= j < ls.len() && #[trigger] c[k] == ls[j] by {
        assert(c[k] == u[k]);
    }
    assert forall|k: int| 0 <= k < c.len() implies !(#[trigger] c[k]).contains('\n') by {
        let j = choose|j: int| 0 <= j < ls.len() && #[trigger] c[k] == ls[j];
        assert(!ls[j].contains('\n'));
    }
}

/// The lines of a document a disable wrote: the kept lines (read back) and
/// the disable rows.
proof fn lemma_disable_doc_lines(c: Seq<Seq<char>>, id: Seq<char>)
    requires
        crate::text::single_lines(c),
        trim(id) == id,
        !id.contains('\n'),
    ensures
        lines(finalize(c + disable_rows(id))) == reread(c) + disable_rows(id),
{
    reveal_strlit("- id: ");
    let nl = seq!['\n'];
    let e = Seq::<char>::empty();
    let a = "- id: "@ + id;
    let b = "  disabled: true"@;
    lemma_disabled_row_trim();
    reveal_strlit("disabled: true");
    if id.len() > 0 {
        lemma_trimmed_edges(id);
        assert(a.last() == id.last());
    } else {
        assert(a.last() == ' ');
    }
    assert(is_ws('\r'));
    assert(!a.contains('\n')) by {
        if a.contains('\n') {
            let i = choose|i: int| 0 <= i < a.len() && a[i] == '\n';
            if i >= 6 {
                assert(id[i - 6] == '\n');
            }
        }
    }
    let ls = c + disable_rows(id);
    assert(ls.last() == b);
    assert(trim(b).len() > 0);
    assert(drop_trailing_blank(ls) == ls);
    assert(!e.contains('\n'));
    assert forall|i: int| 0 <= i < ls.len() implies !(#[trigger] ls[i]).contains('\n') by {
        if i < c.len() {
            assert(ls[i] == c[i]);
        } else if i == c.len() {
            assert(ls[i] == e);
        } else if i == c.len() + 1 {
            assert(ls[i] == a);
        } else {
            assert(ls[i] == b);
        }
    }
    let r0 = join(ls, nl);
    assert(r0 == join(ls.drop_last(), nl) + nl + b);
    assert(!ends_with(r0, nl)) by {
        if ends_with(r0, nl) {
            assert(r0.skip(r0.len() - 1)[0] == r0.last());
            assert(r0.last() == b.last());
        }
    }
    assert(ensure_nl(r0) == r0 + nl);
    crate::text::lemma_lines_of_written(ls);
    assert(lines(r0 + nl) == reread(ls));
    assert(crate::text::strip_cr(e) == e);
    assert(crate::text::strip_cr(a) == a);
    assert(crate::text::strip_cr(b) == b);
    assert(reread(ls) =~= reread(c) + disable_rows(id));
    assert(meaningful(lines(r0 + nl)[ls.len() - 1]));
}

/// Disabling a plugin adds it and changes nothing else: after
/// `set_disabled_row(raw, id, false)` the disabled-row reader reports what
/// it reported of `raw`, plus `id`, for every single-line id without
/// surrounding whitespace, whenever the id rows of `id` are exactly the
/// lines that open its blocks ([`canonical_blocks`]).
pub proof fn lemma_disable_reads(raw: Seq<char>, id: Seq<char>)
    requires
        canonical_blocks(lines(raw), id),
        trim(id) == id,
        !id.contains('\n'),
    ensures
        disabled_ids(set_disabled_row_text(raw, id, false)) == disabled_ids(raw).insert(id),
{
    let ls = lines(raw);
    let u = undisabled(ls, id);
    let c = drop_trailing_blank(u);
    lemma_undisabled_reads(ls, id);
    lemma_cleaned_single(raw, id);
    lemma_scan_drop_trailing_blank(u);
    lemma_disable_doc_lines(c, id);
    let rc = reread(c);
    lemma_scan_reread(c);
    let e = Seq::<char>::empty();
    let a = "- id: "@ + id;
    let b = "  disabled: true"@;
    let all = rc + disable_rows(id);
    assert(all.drop_last() =~= rc.push(e).push(a));
    assert(rc.push(e).push(a).drop_last() =~= rc.push(e));
    assert(rc.push(e).drop_last() =~= rc);
    assert(trim(e) =~= e);
    lemma_step_quiet(disabled_scan(rc), e);
    assert(disabled_scan(rc.push(e)) == disabled_scan(rc));
    lemma_disable_rows_parse(disabled_scan(rc), id);
    assert(all.last() == b);
    assert(rc.push(e).push(a).last() == a);
    assert(rc.push(e).last() == e);
    assert(disabled_scan(rc.push(e).push(a)) == disabled_step(disabled_scan(rc.push(e)), a));
    assert(disabled_scan(all) == disabled_step(disabled_scan(rc.push(e).push(a)), b));
    assert(disabled_scan(all) == disabled_step(disabled_step(disabled_scan(rc), a), b));
    assert(disabled_scan(ls).0.remove(id).insert(id) =~= disabled_scan(ls).0.insert(id));
}

proof fn lemma_names_block_strip_cr_eq(l: Seq<char>, id: Seq<char>)
    ensures
        names_block(crate::text::strip_cr(l), id) == names_block(l, id),
        trim(crate::text::strip_cr(l)) == trim(l),
{
    crate::text::lemma_trim_strip_cr(l);
    let m = crate::text::strip_cr(l);
    if m.len() > 0 {
        assert(m[0] == l[0]);
    } else {
        assert(trim(l).len() == 0);
        reveal_strlit("- id:");
        reveal_strlit("id:");
    }
}

/// A line that is neither an id row of `id` nor opens one of its blocks.
proof fn lemma_quiet_rows_name_nothing(id: Seq<char>)
    ensures
        !names_block("[]"@, id) && !is_id_row(trim("[]"@), id),
        !names_block(Seq::<char>::empty(), id) && !is_id_row(trim(Seq::<char>::empty()), id),
        !names_block("  disabled: true"@, id) && !is_id_row(trim("  disabled: true"@), id),
{
    reveal_strlit("[]");
    reveal_strlit("- id: ");
    reveal_strlit("id: ");
    reveal_strlit("- id:");
    reveal_strlit("id:");
    reveal_strlit("disabled: true");
    lemma_placeholder_row_names_nothing(id);
    lemma_disabled_row_trim();
    let ph = "[]"@;
    crate::text::lemma_trim_start_stop(ph);
    crate::text::lemma_trim_end_stop(ph);
    assert(trim(ph) == ph);
    assert(trim(Seq::<char>::empty()) =~= Seq::<char>::empty());
    let d = "disabled: true"@;
    assert(!starts_with(d, "- id:"@)) by {
        if starts_with(d, "- id:"@) {
            assert(d.take(5)[0] == '-');
        }
    }
    assert(!starts_with(d, "id:"@)) by {
        if starts_with(d, "id:"@) {
            assert(d.take(3)[0] == 'i');
        }
    }
    if d == "- id: "@ + id {
        assert(d[0] == ("- id: "@ + id)[0]);
    }
    if d == "id: "@ + id {
        assert(d[0] == ("id: "@ + id)[0]);
    }
}

/// The id row a disable writes for `x` is canonical for every id.
proof fn lemma_written_row_canonical(x: Seq<char>, y: Seq<char>)
    requires
        x.len() > 0,
        trim(x) == x,
    ensures
        names_block("- id: "@ + x, y) <==> is_id_row(trim("- id: "@ + x), y),
{
    reveal_strlit("- id: ");
    reveal_strlit("id: ");
    let a = "- id: "@ + x;
    let st = (Set::<Seq<char>>::empty(), None::<Seq<char>>);
    lemma_disable_rows_parse(st, x);
    lemma_trimmed_edges(x);
    assert(a.last() == x.last());
    crate::text::lemma_trim_start_stop(a);
    crate::text::lemma_trim_end_stop(a);
    assert(trim(a) == a);
    if names_block(a, y) {
        lemma_step_names(st, a, y);
    }
    if a == "- id: "@ + y {
        assert(x =~= y) by {
            assert forall|i: int| 0 <= i < x.len() implies x[i] == y[i] by {
                assert(a[i + 6] == ("- id: "@ + y)[i + 6]);
            }
        }
    }
    if a == "id: "@ + y {
        assert(a[0] == ("id: "@ + y)[0]);
    }
}

/// Rewriting the disabled row of any plugin keeps the blocks of `y`
/// canonical.
pub proof fn lemma_canonical_kept(raw: Seq<char>, x: Seq<char>, enabled: bool, y: Seq<char>)
    requires
        canonical_blocks(lines(raw), y),
        !enabled ==> x.len() > 0 && trim(x) == x && !x.contains('\n'),
    ensures
        canonical_blocks(lines(set_disabled_row_text(raw, x, enabled)), y),
{
    let ls = lines(raw);
    let c = drop_trailing_blank(undisabled(ls, x));
    lemma_cleaned_single(raw, x);
    lemma_quiet_rows_name_nothing(y);
    let out = lines(set_disabled_row_text(raw, x, enabled));
    if enabled {
        lemma_finalize_lines(c);
        assert forall|i: int| 0 <= i < out.len() implies (names_block(#[trigger] out[i], y)
            <==> is_id_row(trim(out[i]), y)) by {
            if out[i] != "[]"@ && out[i] != Seq::<char>::empty() {
                let j = choose|j: int| 0 <= j < c.len() && out[i] == crate::text::strip_cr(c[j]);
                let jj = choose|jj: int| 0 <= jj < ls.len() && #[trigger] c[j] == ls[jj];
                lemma_names_block_strip_cr_eq(ls[jj], y);
            }
        }
    } else {
        lemma_disable_doc_lines(c, x);
        lemma_written_row_canonical(x, y);
        assert forall|i: int| 0 <= i < out.len() implies (names_block(#[trigger] out[i], y)
            <==> is_id_row(trim(out[i]), y)) by {
            if i < c.len() {
                assert(out[i] == crate::text::strip_cr(c[i]));
                let jj = choose|jj: int| 0 <= jj < ls.len() && #[trigger] c[i] == ls[jj];
                lemma_names_block_strip_cr_eq(ls[jj], y);
            } else if i == c.len() {
                assert(out[i] == Seq::<char>::empty());
            } else if i == c.len() + 1 {
                assert(out[i] == "- id: "@ + x);
            } else {
                assert(out[i] == "  disabled: true"@);
            }
        }
    }
}

// ---------------------------------------------------------------------------
// Laws: repeating and undoing the disabled-row rewrite
// ---------------------------------------------------------------------------

/// No line ends with a `'\r'` (which reading the lines back would drop).
pub open spec fn no_cr_ends(ls: Seq<Seq<char>>) -> bool {
    forall|i: int| 0 <= i < ls.len() ==> (#[trigger] ls[i]).len() == 0 || ls[i].last() != '\r'
}

/// Lines that the disabled-row rewrite of `id` keeps as they are: neither
/// the `[]` placeholder nor an id row of `id`.
pub open spec fn plain_rows(ls: Seq<Seq<char>>, id: Seq<char>) -> bool {
    forall|i: int|
        0 <= i < ls.len() ==> trim(#[trigger] ls[i]) != "[]"@ && !is_id_row(trim(ls[i]), id)
}

/// Single lines without a final `'\r'`, written out with `'\n'` after each,
/// read back as themselves.
proof fn lemma_lines_written_exact(ls: Seq<Seq<char>>)
    requires
        ls.len() > 0,
        crate::text::single_lines(ls),
        no_cr_ends(ls),
    ensures
        lines(join(ls, seq!['\n']) + seq!['\n']) == ls,
{
    crate::text::lemma_lines_of_written(ls);
    assert forall|i: int| 0 <= i < ls.len() implies crate::text::strip_cr(#[trigger] ls[i])
        == ls[i] by {}
    assert(ls.map_values(|l: Seq<char>| crate::text::strip_cr(l)) =~= ls);
}

/// The rewrite passes plain lines through untouched.
proof fn lemma_undisable_plain(ls: Seq<Seq<char>>, id: Seq<char>)
    requires
        plain_rows(ls, id),
    ensures
        undisable_scan(ls, id) == (ls, false, Seq::<Seq<char>>::empty()),
        undisabled(ls, id) == ls,
    decreases ls.len(),
{
    if ls.len() > 0 {
        let p = ls.drop_last();
        assert forall|i: int| 0 <= i < p.len() implies trim(#[trigger] p[i]) != "[]"@
            && !is_id_row(trim(p[i]), id) by {
            assert(p[i] == ls[i]);
        }
        lemma_undisable_plain(p, id);
        assert(p.push(ls.last()) =~= ls);
    }
}

/// A line that reads back as itself: no `'\n'` inside and no final `'\r'`.
pub open spec fn rereadable(l: Seq<char>) -> bool {
    !l.contains('\n') && (l.len() == 0 || l.last() != '\r')
}

pub open spec fn all_rereadable(s: Seq<Seq<char>>) -> bool {
    forall|i: int| 0 <= i < s.len() ==> rereadable(#[trigger] s[i])
}

proof fn lemma_rereadable_parts(a: Seq<Seq<char>>, b: Seq<Seq<char>>, l: Seq<char>)
    requires
        all_rereadable(a),
        all_rereadable(b),
        rereadable(l),
    ensures
        all_rereadable(a + b),
        all_rereadable(a.push(l)),
        all_rereadable(flush_held(a, b)),
        all_rereadable(seq![l]),
        all_rereadable(b.push(l)),
{
    assert forall|i: int| 0 <= i < (a + b).len() implies rereadable(#[trigger] (a + b)[i]) by {
        if i < a.len() {
            assert((a + b)[i] == a[i]);
        } else {
            assert((a + b)[i] == b[i - a.len()]);
        }
    }
    assert forall|i: int| 0 <= i < a.push(l).len() implies rereadable(#[trigger] a.push(l)[i]) by {
        if i < a.len() {
            assert(a.push(l)[i] == a[i]);
        }
    }
    if b.len() > 0 {
        let d = b.drop_first();
        assert forall|i: int| 0 <= i < (a + d).len() implies rereadable(#[trigger] (a + d)[i]) by {
            if i < a.len() {
                assert((a + d)[i] == a[i]);
            } else {
                assert((a + d)[i] == b[i - a.len() + 1]);
            }
        }
    }
    assert(seq![l][0] == l);
    assert forall|i: int| 0 <= i < b.push(l).len() implies rereadable(#[trigger] b.push(l)[i]) by {
        if i < b.len() {
            assert(b.push(l)[i] == b[i]);
        }
    }
}

/// Every line the rewrite keeps or holds is one of its input lines, so it
/// reads back as itself when they do.
proof fn lemma_undisable_rereadable(ls: Seq<Seq<char>>, id: Seq<char>)
    requires
        all_rereadable(ls),
    ensures
        all_rereadable(undisable_scan(ls, id).0),
        all_rereadable(undisable_scan(ls, id).2),
        all_rereadable(undisabled(ls, id)),
    decreases ls.len(),
{
    let e = Seq::<char>::empty();
    assert(rereadable(e));
    if ls.len() > 0 {
        let p = ls.drop_last();
        assert forall|i: int| 0 <= i < p.len() implies rereadable(#[trigger] p[i]) by {
            assert(p[i] == ls[i]);
        }
        lemma_undisable_rereadable(p, id);
        let st = undisable_scan(p, id);
        let l = ls.last();
        assert(rereadable(ls[ls.len() - 1]));
        lemma_rereadable_parts(st.0, st.2, l);
        lemma_rereadable_parts(flush_held(st.0, st.2), Seq::<Seq<char>>::empty(), l);
        lemma_rereadable_parts(st.0 + st.2, Seq::<Seq<char>>::empty(), l);
        lemma_rereadable_parts(st.0, Seq::<Seq<char>>::empty(), l);
    }
    let st = undisable_scan(ls, id);
    lemma_rereadable_parts(st.0, st.2, e);
}

/// How the rewrite of `id` reads its own output back: rewriting the lines
/// kept so far changes nothing and holds nothing back; outside a block both
/// scans are outside one, inside a block whose id row was already kept both
/// are inside one, and only a held id row (followed by held blank lines)
/// leaves the second scan where the kept lines put it.
pub open spec fn rescan_agrees(st: (Seq<Seq<char>>, bool, Seq<Seq<char>>), id: Seq<char>) -> bool {
    let s2 = undisable_scan(st.0, id);
    &&& s2.0 == st.0
    &&& s2.2.len() == 0
    &&& !st.1 ==> st.2.len() == 0 && !s2.1
    &&& st.1 && st.2.len() == 0 ==> s2.1
    &&& st.2.len() > 0 ==> st.1 && is_id_row(trim(st.2[0]), id) && forall|k: int|
        1 <= k < st.2.len() ==> trim(#[trigger] st.2[k]).len() == 0
}

/// A blank line is neither the placeholder, nor an id row, nor a block
/// boundary, nor a `disabled:` row.
proof fn lemma_blank_line_quiet(l: Seq<char>, id: Seq<char>)
    requires
        trim(l).len() == 0,
    ensures
        trim(l) != "[]"@,
        !is_id_row(trim(l), id),
        !block_boundary(l),
        trim(l) != "disabled: true"@,
        trim(l) != "disabled: false"@,
{
    reveal_strlit("[]");
    reveal_strlit("- id: ");
    reveal_strlit("id: ");
    reveal_strlit("disabled: true");
    reveal_strlit("disabled: false");
    reveal_strlit("- ");
    reveal_strlit("id:");
    assert(("- id: "@ + id).len() >= 6);
    assert(("id: "@ + id).len() >= 4);
}

/// An id row is not the placeholder.
proof fn lemma_id_row_not_placeholder(t: Seq<char>, id: Seq<char>)
    requires
        is_id_row(t, id),
    ensures
        t != "[]"@,
        t.len() > 0,
{
    reveal_strlit("[]");
    reveal_strlit("- id: ");
    reveal_strlit("id: ");
    assert(("- id: "@ + id).len() >= 6);
    assert(("id: "@ + id).len() >= 4);
}

/// Blank lines after a scan that holds nothing are kept as they come.
proof fn lemma_rescan_blanks(a: Seq<Seq<char>>, bl: Seq<Seq<char>>, id: Seq<char>)
    requires
        forall|k: int| 0 <= k < bl.len() ==> trim(#[trigger] bl[k]).len() == 0,
        undisable_scan(a, id).2.len() == 0,
    ensures
        undisable_scan(a + bl, id) == (
            undisable_scan(a, id).0 + bl,
            undisable_scan(a, id).1,
            Seq::<Seq<char>>::empty(),
        ),
    decreases bl.len(),
{
    let s = undisable_scan(a, id);
    if bl.len() == 0 {
        assert(a + bl =~= a);
        assert(s.0 + bl =~= s.0);
        assert(s.2 =~= Seq::<Seq<char>>::empty());
    } else {
        let p = bl.drop_last();
        assert forall|k: int| 0 <= k < p.len() implies trim(#[trigger] p[k]).len() == 0 by {
            assert(p[k] == bl[k]);
        }
        lemma_rescan_blanks(a, p, id);
        assert((a + bl).drop_last() =~= a + p);
        let l = bl.last();
        assert(trim(bl[bl.len() - 1]).len() == 0);
        lemma_blank_line_quiet(l, id);
        assert((s.0 + p) + Seq::<Seq<char>>::empty() =~= s.0 + p);
        assert((s.0 + p).push(l) =~= s.0 + bl);
    }
}

/// Blank lines after a held id row are held with it.
proof fn lemma_rescan_held_blanks(a: Seq<Seq<char>>, bl: Seq<Seq<char>>, id: Seq<char>)
    requires
        forall|k: int| 0 <= k < bl.len() ==> trim(#[trigger] bl[k]).len() == 0,
        undisable_scan(a, id).1,
        undisable_scan(a, id).2.len() > 0,
    ensures
        undisable_scan(a + bl, id) == (undisable_scan(a, id).0, true, undisable_scan(a, id).2 + bl),
    decreases bl.len(),
{
    let s = undisable_scan(a, id);
    if bl.len() == 0 {
        assert(a + bl =~= a);
        assert(s.2 + bl =~= s.2);
    } else {
        let p = bl.drop_last();
        assert forall|k: int| 0 <= k < p.len() implies trim(#[trigger] p[k]).len() == 0 by {
            assert(p[k] == bl[k]);
        }
        lemma_rescan_held_blanks(a, p, id);
        assert((a + bl).drop_last() =~= a + p);
        let l = bl.last();
        assert(trim(bl[bl.len() - 1]).len() == 0);
        lemma_blank_line_quiet(l, id);
        assert((s.2 + p).push(l) =~= s.2 + bl);
    }
}

/// The rewrite reads its own output back in step with itself.
proof fn lemma_undisable_rescan(ls: Seq<Seq<char>>, id: Seq<char>)
    ensures
        rescan_agrees(undisable_scan(ls, id), id),
    decreases ls.len(),
{
    reveal_strlit("disabled: true");
    reveal_strlit("disabled: false");
    let e = Seq::<Seq<char>>::empty();
    if ls.len() > 0 {
        let p = ls.drop_last();
        let l = ls.last();
        lemma_undisable_rescan(p, id);
        let st = undisable_scan(p, id);
        let s2 = undisable_scan(st.0, id);
        let t = trim(l);
        assert(undisable_scan(ls, id) == undisable_step(st, l, id));
        if t == "[]"@ {
        } else if is_id_row(t, id) {
            if st.2.len() > 0 {
                let bl = st.2.drop_first();
                assert forall|k: int| 0 <= k < bl.len() implies trim(#[trigger] bl[k]).len() == 0 by {
                    assert(bl[k] == st.2[k + 1]);
                }
                lemma_rescan_blanks(st.0, bl, id);
            } else {
                assert(flush_held(st.0, st.2) == st.0);
            }
            assert(seq![l][0] == l);
        } else if st.1 && block_boundary(l) {
            let f = flush_held(st.0, st.2);
            if st.2.len() > 0 {
                let bl = st.2.drop_first();
                assert forall|k: int| 0 <= k < bl.len() implies trim(#[trigger] bl[k]).len() == 0 by {
                    assert(bl[k] == st.2[k + 1]);
                }
                lemma_rescan_blanks(st.0, bl, id);
            } else {
                assert(f == st.0);
            }
            assert(f.push(l).drop_last() =~= f);
        } else if st.1 && (t == "disabled: true"@ || t == "disabled: false"@) {
        } else if st.1 && t.len() == 0 && st.2.len() > 0 {
        } else if st.1 {
            if st.2.len() == 0 {
                assert(st.0 + st.2 =~= st.0);
                assert(st.0.push(l).drop_last() =~= st.0);
            } else {
                let h = st.2[0];
                let bl = st.2.drop_first();
                assert forall|k: int| 0 <= k < bl.len() implies trim(#[trigger] bl[k]).len() == 0 by {
                    assert(bl[k] == st.2[k + 1]);
                }
                assert(st.0.push(h).drop_last() =~= st.0);
                lemma_id_row_not_placeholder(trim(h), id);
                assert(flush_held(st.0, e) == st.0);
                assert(undisable_scan(st.0.push(h), id) == undisable_step(s2, h, id));
                assert(undisable_scan(st.0.push(h), id) == (st.0, true, seq![h]));
                lemma_rescan_held_blanks(st.0.push(h), bl, id);
                assert(seq![h] + bl =~= st.2);
                assert(st.0.push(h) + bl =~= st.0 + st.2);
                assert((st.0 + st.2).push(l).drop_last() =~= st.0 + st.2);
            }
        } else {
            assert(st.0.push(l).drop_last() =~= st.0);
        }
    }
}

/// Rewriting the rewrite's own output changes nothing.
proof fn lemma_undisabled_idempotent(ls: Seq<Seq<char>>, id: Seq<char>)
    ensures
        undisabled(undisabled(ls, id), id) == undisabled(ls, id),
{
    lemma_undisable_rescan(ls, id);
    let st = undisable_scan(ls, id);
    if st.2.len() > 0 {
        let bl = st.2.drop_first();
        assert forall|k: int| 0 <= k < bl.len() implies trim(#[trigger] bl[k]).len() == 0 by {
            assert(bl[k] == st.2[k + 1]);
        }
        lemma_rescan_blanks(st.0, bl, id);
    }
}

/// Blank lines appended to what the rewrite reads are appended to what it
/// keeps.
proof fn lemma_undisabled_blanks(a: Seq<Seq<char>>, bl: Seq<Seq<char>>, id: Seq<char>)
    requires
        forall|k: int| 0 <= k < bl.len() ==> trim(#[trigger] bl[k]).len() == 0,
    ensures
        undisabled(a + bl, id) == undisabled(a, id) + bl,
{
    lemma_undisable_rescan(a, id);
    let s = undisable_scan(a, id);
    if s.2.len() > 0 {
        lemma_rescan_held_blanks(a, bl, id);
        assert((s.2 + bl).drop_first() =~= s.2.drop_first() + bl);
        assert(s.0 + (s.2.drop_first() + bl) =~= (s.0 + s.2.drop_first()) + bl);
    } else {
        lemma_rescan_blanks(a, bl, id);
    }
}

/// What a rewrite keeps, without its trailing blank lines: another rewrite
/// leaves it as it is, and it is made of single lines that read back as
/// themselves and ends in a non-blank line.
proof fn lemma_cleaned_stable(ls: Seq<Seq<char>>, id: Seq<char>)
    requires
        crate::text::single_lines(ls),
        no_cr_ends(ls),
    ensures
        ({
            let c = drop_trailing_blank(undisabled(ls, id));
            &&& undisabled(c, id) == c
            &&& crate::text::single_lines(c)
            &&& no_cr_ends(c)
            &&& drop_trailing_blank(c) == c
            &&& (c.len() > 0 ==> trim(c.last()).len() > 0)
        }),
{
    assert forall|i: int| 0 <= i < ls.len() implies rereadable(#[trigger] ls[i]) by {}
    let u = undisabled(ls, id);
    lemma_undisable_rereadable(ls, id);
    lemma_undisabled_idempotent(ls, id);
    lemma_drop_trailing_blank_prefix(u);
    lemma_drop_trailing_blank_idempotent(u);
    let c = drop_trailing_blank(u);
    let tail = u.skip(c.len() as int);
    assert forall|k: int| 0 <= k < tail.len() implies trim(#[trigger] tail[k]).len() == 0 by {
        lemma_drop_trailing_blank_tail(u, k + c.len());
        assert(tail[k] == u[k + c.len()]);
    }
    assert(c + tail =~= u);
    lemma_undisabled_blanks(c, tail, id);
    let x = undisabled(c, id);
    assert(x + tail == c + tail);
    assert(x.len() == c.len());
    assert(x =~= (x + tail).take(x.len() as int));
    assert(c =~= (c + tail).take(c.len() as int));
    assert forall|i: int| 0 <= i < c.len() implies !(#[trigger] c[i]).contains('\n') && (c[i].len()
        == 0 || c[i].last() != '\r') by {
        assert(c[i] == u[i]);
        assert(rereadable(u[i]));
    }
}

/// A blank last line is dropped with the other trailing blanks.
proof fn lemma_drop_blank_push(c: Seq<Seq<char>>)
    ensures
        drop_trailing_blank(c.push(Seq::<char>::empty())) == drop_trailing_blank(c),
{
    let e = Seq::<char>::empty();
    assert(trim(e) =~= e);
    assert(c.push(e).drop_last() =~= c);
}

/// The id row written for `id` reads back as an id row of `id`.
proof fn lemma_id_row_shape(id: Seq<char>)
    requires
        id.len() > 0,
        !is_ws(id.last()),
        !id.contains('\n'),
    ensures
        trim("- id: "@ + id) == "- id: "@ + id,
        is_id_row(trim("- id: "@ + id), id),
        trim("- id: "@ + id) != "[]"@,
        !("- id: "@ + id).contains('\n'),
        ("- id: "@ + id).last() != '\r',
        meaningful("- id: "@ + id),
{
    reveal_strlit("- id: ");
    reveal_strlit("[]");
    let a = "- id: "@ + id;
    assert(a[0] == '-');
    assert(a.last() == id.last());
    crate::text::lemma_trim_start_stop(a);
    crate::text::lemma_trim_end_stop(a);
    assert(a.len() != 2);
    assert(is_ws('\r'));
    assert(!a.contains('\n')) by {
        if a.contains('\n') {
            let i = choose|i: int| 0 <= i < a.len() && a[i] == '\n';
            if i >= 6 {
                assert(id[i - 6] == '\n');
            }
        }
    }
}

/// The rewrite of `id` over its own disable rows, appended to any lines,
/// keeps what it keeps of those lines and one blank line.
proof fn lemma_undisable_rows(c: Seq<Seq<char>>, id: Seq<char>)
    requires
        id.len() > 0,
        !is_ws(id.last()),
        !id.contains('\n'),
    ensures
        undisabled(c + disable_rows(id), id) == undisabled(c, id).push(Seq::<char>::empty()),
{
    reveal_strlit("[]");
    reveal_strlit("- id: ");
    reveal_strlit("id: ");
    reveal_strlit("disabled: true");
    let e = Seq::<char>::empty();
    let a = "- id: "@ + id;
    let b = "  disabled: true"@;
    lemma_undisable_rescan(c, id);
    lemma_id_row_shape(id);
    lemma_disabled_row_trim();
    assert(trim(e) =~= e);
    lemma_blank_line_quiet(e, id);
    let d = "disabled: true"@;
    assert(!is_id_row(d, id)) by {
        assert(d[0] == 'd');
        if d == "- id: "@ + id {
            assert(("- id: "@ + id)[0] == '-');
        }
        if d == "id: "@ + id {
            assert(("id: "@ + id)[0] == 'i');
        }
    }
    let ls = c + disable_rows(id);
    assert(ls =~= c.push(e).push(a).push(b));
    assert(ls.drop_last() =~= c.push(e).push(a));
    assert(c.push(e).push(a).drop_last() =~= c.push(e));
    assert(c.push(e).drop_last() =~= c);
    let s0 = undisable_scan(c, id);
    let s1 = undisable_scan(c.push(e), id);
    assert(s1 == undisable_step(s0, e, id));
    let k = undisabled(c, id).push(e);
    assert(flush_held(s1.0, s1.2) == k) by {
        if s0.1 && s0.2.len() > 0 {
            assert(s1 == (s0.0, true, s0.2.push(e)));
            assert(s0.2.push(e).drop_first() =~= s0.2.drop_first().push(e));
            assert(s0.0 + s0.2.drop_first().push(e) =~= (s0.0 + s0.2.drop_first()).push(e));
        } else if s0.1 {
            assert(s0.0 + s0.2 =~= s0.0);
        }
    }
    let s2 = undisable_scan(c.push(e).push(a), id);
    assert(s2 == undisable_step(s1, a, id));
    assert(s2 == (k, true, seq![a]));
    assert(d != "[]"@) by {
        assert(d.len() != 2);
    }
    assert(!block_boundary(b)) by {
        reveal_strlit("- ");
        reveal_strlit("id:");
        if starts_with(d, "- "@) {
            assert(d.take(2)[0] == '-');
        }
        if starts_with(d, "id:"@) {
            assert(d.take(3)[0] == 'i');
        }
    }
    assert(undisable_scan(ls, id) == undisable_step(s2, b, id));
    assert(undisable_scan(ls, id) == s2);
    assert(seq![a].drop_first() =~= Seq::<Seq<char>>::empty());
    assert(k + Seq::<Seq<char>>::empty() =~= k);
}

/// The document written by a disable, and its lines.
proof fn lemma_disable_doc(c: Seq<Seq<char>>, id: Seq<char>)
    requires
        crate::text::single_lines(c),
        no_cr_ends(c),
        id.len() > 0,
        !is_ws(id.last()),
        !id.contains('\n'),
    ensures
        lines(finalize(c + disable_rows(id))) == c + disable_rows(id),
{
    let nl = seq!['\n'];
    let e = Seq::<char>::empty();
    let a = "- id: "@ + id;
    let b = "  disabled: true"@;
    lemma_id_row_shape(id);
    lemma_disabled_row_trim();
    reveal_strlit("disabled: true");
    let ls = c + disable_rows(id);
    assert(ls.last() == b);
    assert(trim(b).len() > 0);
    assert(drop_trailing_blank(ls) == ls);
    assert(!e.contains('\n'));
    assert forall|i: int| 0 <= i < ls.len() implies !(#[trigger] ls[i]).contains('\n') && (
    ls[i].len() == 0 || ls[i].last() != '\r') by {
        if i < c.len() {
            assert(ls[i] == c[i]);
        } else if i == c.len() {
            assert(ls[i] == e);
        } else if i == c.len() + 1 {
            assert(ls[i] == a);
        } else {
            assert(ls[i] == b);
        }
    }
    assert(ls.len() >= 2);
    let r0 = join(ls, nl);
    assert(r0 == join(ls.drop_last(), nl) + nl + b);
    assert(!ends_with(r0, nl)) by {
        if ends_with(r0, nl) {
            assert(r0.skip(r0.len() - 1)[0] == r0.last());
            assert(r0.last() == b.last());
        }
    }
    assert(ensure_nl(r0) == r0 + nl);
    lemma_lines_written_exact(ls);
    assert(meaningful(lines(r0 + nl)[ls.len() - 1]));
}

/// Assembling lines that a rewrite leaves as they are (trimmed of trailing
/// blank lines) and rewriting the result keeps those lines.
proof fn lemma_finalize_reread(c: Seq<Seq<char>>, id: Seq<char>)
    requires
        undisabled(c, id) == c,
        crate::text::single_lines(c),
        no_cr_ends(c),
        drop_trailing_blank(c) == c,
        c.len() > 0 ==> trim(c.last()).len() > 0,
    ensures
        drop_trailing_blank(undisabled(lines(finalize(c)), id)) == c,
{
    reveal_strlit("[]");
    reveal_strlit("[]\n");
    let nl = seq!['\n'];
    let e = Seq::<char>::empty();
    let ph = "[]"@;
    assert("[]\n"@ =~= ph + nl);
    assert(trim(e) =~= e);
    assert(trim(ph) == ph) by {
        crate::text::lemma_trim_start_stop(ph);
        crate::text::lemma_trim_end_stop(ph);
    }
    assert(!ph.contains('\n'));
    let r0 = join(c, nl);
    if c.len() == 0 {
        assert(r0 =~= e);
        assert(!ends_with(r0, nl));
        let r = ensure_nl(r0);
        assert(r =~= nl);
        let one: Seq<Seq<char>> = seq![e];
        assert(no_cr_ends(one));
        assert(crate::text::single_lines(one));
        lemma_lines_written_exact(one);
        assert(join(one, nl) =~= e);
        assert(r =~= join(one, nl) + nl);
        assert(!meaningful(e));
        assert(!exists|i: int| 0 <= i < lines(r).len() && meaningful(#[trigger] lines(r)[i]));
        let two: Seq<Seq<char>> = seq![e, ph];
        assert(no_cr_ends(two));
        assert(crate::text::single_lines(two));
        lemma_lines_written_exact(two);
        assert(two.drop_last() =~= one);
        assert(join(two, nl) =~= join(one, nl) + nl + ph);
        assert(finalize(c) =~= join(two, nl) + nl);
        assert(!is_id_row(e, id)) by {
            reveal_strlit("- id: ");
            reveal_strlit("id: ");
        }
        assert(plain_rows(one, id));
        lemma_undisable_plain(one, id);
        assert(two =~= one.push(ph));
        lemma_drop_blank_push(c);
        assert(one =~= c.push(e));
    } else {
        assert(c.last().len() > 0);
        assert(!ends_with(r0, nl)) by {
            if ends_with(r0, nl) {
                crate::text::lemma_join_ends_nl(c);
            }
        }
        let r = r0 + nl;
        assert(ensure_nl(r0) == r);
        lemma_lines_written_exact(c);
        if exists|i: int| 0 <= i < lines(r).len() && meaningful(#[trigger] lines(r)[i]) {
            assert(finalize(c) == r);
        } else {
            let c2 = c.push(ph);
            assert(c2.drop_last() =~= c);
            assert(join(c2, nl) == r0 + nl + ph);
            assert(finalize(c) =~= join(c2, nl) + nl);
            assert forall|i: int| 0 <= i < c2.len() implies !(#[trigger] c2[i]).contains('\n') && (
            c2[i].len() == 0 || c2[i].last() != '\r') by {
                if i < c.len() {
                    assert(c2[i] == c[i]);
                }
            }
            lemma_lines_written_exact(c2);
            assert(undisable_scan(c2, id) == undisable_step(undisable_scan(c, id), ph, id));
            assert(undisabled(c2, id) == undisabled(c, id));
        }
    }
}

/// Disabling twice is disabling once: `set_disabled_row(.., id, false)`
/// leaves its own output unchanged, for every non-empty single-line id that
/// does not end in whitespace and every document none of whose lines ends
/// in a `'\r'` that reading would drop.
pub proof fn lemma_disable_idempotent(raw: Seq<char>, id: Seq<char>)
    requires
        no_cr_ends(lines(raw)),
        id.len() > 0,
        !is_ws(id.last()),
        !id.contains('\n'),
    ensures
        set_disabled_row_text(set_disabled_row_text(raw, id, false), id, false)
            == set_disabled_row_text(raw, id, false),
{
    crate::text::lemma_lines_single(raw, 0);
    lemma_cleaned_stable(lines(raw), id);
    let c = drop_trailing_blank(undisabled(lines(raw), id));
    let d1 = finalize(c + disable_rows(id));
    lemma_disable_doc(c, id);
    lemma_undisable_rows(c, id);
    lemma_drop_blank_push(c);
    assert(drop_trailing_blank(undisabled(lines(d1), id)) == c);
}

/// Enabling after disabling is enabling alone: removing the `disabled:` row
/// that `set_disabled_row(.., id, false)` wrote gives what enabling `raw`
/// directly gives, whether or not `raw` already had rows of `id` (same
/// conditions as [`lemma_disable_idempotent`]).
pub proof fn lemma_enable_undoes_disable(raw: Seq<char>, id: Seq<char>)
    requires
        no_cr_ends(lines(raw)),
        id.len() > 0,
        !is_ws(id.last()),
        !id.contains('\n'),
    ensures
        set_disabled_row_text(set_disabled_row_text(raw, id, false), id, true)
            == set_disabled_row_text(raw, id, true),
{
    crate::text::lemma_lines_single(raw, 0);
    lemma_cleaned_stable(lines(raw), id);
    let c = drop_trailing_blank(undisabled(lines(raw), id));
    let d1 = finalize(c + disable_rows(id));
    lemma_disable_doc(c, id);
    lemma_undisable_rows(c, id);
    lemma_drop_blank_push(c);
    assert(drop_trailing_blank(undisabled(lines(d1), id)) == c);
}

/// Enabling twice is enabling once, for every id and every document none
/// of whose lines ends in a `'\r'` that reading would drop.
pub proof fn lemma_enable_idempotent(raw: Seq<char>, id: Seq<char>)
    requires
        no_cr_ends(lines(raw)),
    ensures
        set_disabled_row_text(set_disabled_row_text(raw, id, true), id, true)
            == set_disabled_row_text(raw, id, true),
{
    crate::text::lemma_lines_single(raw, 0);
    lemma_cleaned_stable(lines(raw), id);
    let c = drop_trailing_blank(undisabled(lines(raw), id));
    lemma_finalize_reread(c, id);
}


// ---------------------------------------------------------------------------
} // verus!
