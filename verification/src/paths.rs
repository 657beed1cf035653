//! Filesystem paths as text. The launcher runs on Unix, where a path is a
//! `/`-separated string; joining follows `Path::join` there.

use crate::text::{
    append_vec, chars_of, concat_vec, join, join_vec, slice_vec, starts_with, string_of, trim,
    trim_vec, view_lines,
};
use crate::config::opt_view;
use vstd::prelude::*;

verus! {

/// `base.join(seg)` on Unix: an absolute `seg` replaces `base`; otherwise a
/// single `/` separates the two (none is added after a trailing one, or to
/// an empty base).
pub open spec fn path_join(base: Seq<char>, seg: Seq<char>) -> Seq<char> {
    if seg.len() > 0 && seg[0] == '/' {
        seg
    } else if base.len() == 0 {
        seg
    } else if base.last() == '/' {
        base + seg
    } else {
        base + seq!['/'] + seg
    }
}

/// `base.join(seg)` on character vectors.
pub fn join_path_vec(base: &Vec<char>, seg: &Vec<char>) -> (r: Vec<char>)
    ensures
        r@ == path_join(base@, seg@),
{
    if seg.len() > 0 && seg[0] == '/' {
        return slice_vec(seg, 0, seg.len());
    }
    let mut r = slice_vec(base, 0, base.len());
    if base.len() > 0 && base[base.len() - 1] != '/' {
        r.push('/');
    }
    append_vec(&mut r, seg);
    proof {
        assert(base@.subrange(0, base@.len() as int) =~= base@);
        assert(seg@.subrange(0, seg@.len() as int) =~= seg@);
    }
    r
}

/// `base.join(seg)` on strings.
pub fn join_path(base: &str, seg: &str) -> (r: String)
    ensures
        r@ == path_join(base@, seg@),
{
    let b = chars_of(base);
    let s = chars_of(seg);
    let r = join_path_vec(&b, &s);
    string_of(&r)
}


// ---------------------------------------------------------------------------
// Normalising user-entered directories
// ---------------------------------------------------------------------------

/// One `/`-separated segment applied to the components resolved so far:
/// `..` goes up one level (and fails above the first component), empty and
/// `.` segments are skipped, anything else is appended.
pub open spec fn seg_apply(st: Option<Seq<Seq<char>>>, seg: Seq<char>) -> Option<Seq<Seq<char>>> {
    match st {
        None => None,
        Some(stack) => if seg == ".."@ {
            if stack.len() == 0 {
                None
            } else {
                Some(stack.drop_last())
            }
        } else if seg.len() == 0 || seg == "."@ {
            Some(stack)
        } else {
            Some(stack.push(seg))
        },
    }
}

/// Scans `s` left to right: the components resolved from the finished
/// segments, and the segment still being read.
pub open spec fn scan_path(s: Seq<char>) -> (Option<Seq<Seq<char>>>, Seq<char>)
    decreases s.len(),
{
    if s.len() == 0 {
        (Some(seq![]), seq![])
    } else {
        let prev = scan_path(s.drop_last());
        if s.last() == '/' {
            (seg_apply(prev.0, prev.1), seq![])
        } else {
            (prev.0, prev.1.push(s.last()))
        }
    }
}

/// The components of `s` with `.`/`..` resolved textually and empty
/// segments dropped; `None` when a `..` climbs above the first component.
pub open spec fn resolve_path(s: Seq<char>) -> Option<Seq<Seq<char>>> {
    let r = scan_path(s);
    seg_apply(r.0, r.1)
}

pub open spec fn no_home_error() -> Seq<char> {
    "无法解析 ~：未设置 HOME"@
}

/// A leading `~` of the trimmed input `t`: `~` alone and `~/...` expand to
/// `home`; `~user/...` is refused; anything else is left as is.
pub open spec fn expand_tilde(t: Seq<char>, home: Option<Seq<char>>) -> Result<Seq<char>, Seq<char>> {
    if t == "~"@ {
        match home {
            Some(h) => Ok(h),
            None => Err(no_home_error()),
        }
    } else if starts_with(t, "~/"@) {
        match home {
            Some(h) => Ok(path_join(h, t.skip(2))),
            None => Err(no_home_error()),
        }
    } else if t.len() > 0 && t[0] == '~' {
        Err("不支持 ~用户名 形式的路径："@ + t)
    } else {
        Ok(t)
    }
}

/// A user-entered directory as an absolute path: trimmed, `~` expanded to
/// `home`, `.`/`..` resolved textually, repeated and trailing separators
/// dropped; relative paths are refused. Symlinks are not resolved.
pub open spec fn normalized_dir(raw: Seq<char>, home: Option<Seq<char>>) -> Result<
    Seq<char>,
    Seq<char>,
> {
    let t = trim(raw);
    if t.len() == 0 {
        Err("路径不能为空"@)
    } else {
        match expand_tilde(t, home) {
            Err(e) => Err(e),
            Ok(e) => match resolve_path(e) {
                None => Err("路径越界："@ + t),
                Some(st) => if e.len() > 0 && e[0] == '/' {
                    Ok("/"@ + join(st, "/"@))
                } else {
                    Err("请填写绝对路径（以 / 开头）："@ + t)
                },
            },
        }
    }
}

/// Applies one finished segment to `stack`; false when `..` climbs above
/// the first component.
fn apply_seg(stack: &mut Vec<Vec<char>>, seg: Vec<char>) -> (ok: bool)
    ensures
        ok ==> seg_apply(Some(view_lines(old(stack)@)), seg@) == Some(view_lines(final(stack)@)),
        !ok ==> seg_apply(Some(view_lines(old(stack)@)), seg@) is None,
{
    proof {
        reveal_strlit("..");
        reveal_strlit(".");
    }
    if seg.len() == 2 && seg[0] == '.' && seg[1] == '.' {
        assert(seg@ =~= ".."@);
        if stack.len() == 0 {
            return false;
        }
        let _ = stack.pop();
        assert(view_lines(stack@) =~= view_lines(old(stack)@).drop_last());
        true
    } else if seg.len() == 0 || (seg.len() == 1 && seg[0] == '.') {
        assert(seg.len() == 1 ==> seg@ =~= "."@);
        true
    } else {
        assert(seg@ != ".."@ && seg@ != "."@) by {
            if seg@ == ".."@ {
                assert(seg@.len() == 2 && seg@[0] == '.' && seg@[1] == '.');
            }
            if seg@ == "."@ {
                assert(seg@.len() == 1 && seg@[0] == '.');
            }
        }
        let ghost s0 = view_lines(stack@);
        stack.push(seg);
        assert(view_lines(stack@) =~= s0.push(seg@));
        true
    }
}

/// Normalises a user-entered directory path into an absolute one (see
/// [`normalized_dir`]); `home` is the user's home directory, when known.
pub fn normalize_dir_path(raw: &str, home: Option<String>) -> (r: Result<String, String>)
    ensures
        match r {
            Ok(p) => normalized_dir(raw@, opt_view(home)) == Ok::<Seq<char>, Seq<char>>(p@),
            Err(e) => normalized_dir(raw@, opt_view(home)) == Err::<Seq<char>, Seq<char>>(e@),
        },
{
    let ghost hv = opt_view(home);
    proof {
        reveal_strlit("~");
        reveal_strlit("~/");
        reveal_strlit("/");
    }
    let t = trim_vec(&chars_of(raw));
    if t.len() == 0 {
        return Err(String::from_str("路径不能为空"));
    }
    // Expand a leading `~`.
    let e: Vec<char> = if t.len() == 1 && t[0] == '~' {
        assert(t@ =~= "~"@);
        match home {
            Some(h) => chars_of(h.as_str()),
            None => return Err(String::from_str("无法解析 ~：未设置 HOME")),
        }
    } else if t.len() >= 2 && t[0] == '~' && t[1] == '/' {
        assert(t@ != "~"@);
        assert(starts_with(t@, "~/"@)) by {
            assert(t@.take(2) =~= "~/"@);
        }
        match home {
            Some(h) => {
                let rest = slice_vec(&t, 2, t.len());
                assert(rest@ =~= t@.skip(2));
                join_path_vec(&chars_of(h.as_str()), &rest)
            },
            None => return Err(String::from_str("无法解析 ~：未设置 HOME")),
        }
    } else if t[0] == '~' {
        assert(t@ != "~"@);
        assert(!starts_with(t@, "~/"@)) by {
            if starts_with(t@, "~/"@) {
                assert(t@.take(2)[1] == '/');
            }
        }
        let mut msg = chars_of("不支持 ~用户名 形式的路径：");
        append_vec(&mut msg, &t);
        return Err(string_of(&msg));
    } else {
        assert(t@ != "~"@);
        assert(!starts_with(t@, "~/"@)) by {
            if starts_with(t@, "~/"@) {
                assert(t@.take(2)[0] == '~');
            }
        }
        t.clone()
    };
    assert(expand_tilde(t@, hv) == Ok::<Seq<char>, Seq<char>>(e@));
    // Resolve the segments.
    let mut stack: Vec<Vec<char>> = Vec::new();
    let mut cur: Vec<char> = Vec::new();
    let mut k: usize = 0;
    assert(e@.take(0) =~= Seq::<char>::empty());
    while k < e.len()
        invariant
            k <= e.len(),
            scan_path(e@.take(k as int)) == (Some(view_lines(stack@)), cur@),
            hv == opt_view(home),
            t@ == trim(raw@),
            t@.len() > 0,
            expand_tilde(t@, hv) == Ok::<Seq<char>, Seq<char>>(e@),
        decreases e.len() - k,
    {
        assert(e@.take(k + 1).drop_last() =~= e@.take(k as int));
        if e[k] == '/' {
            let seg = cur;
            cur = Vec::new();
            if !apply_seg(&mut stack, seg) {
                assert(scan_path(e@.take(k + 1)).0 is None);
                proof {
                    lemma_scan_none(e@, k as int + 1);
                }
                let mut msg = chars_of("路径越界：");
                append_vec(&mut msg, &t);
                return Err(string_of(&msg));
            }
        } else {
            cur.push(e[k]);
        }
        k = k + 1;
    }
    assert(e@.take(e.len() as int) =~= e@);
    if !apply_seg(&mut stack, cur) {
        let mut msg = chars_of("路径越界：");
        append_vec(&mut msg, &t);
        return Err(string_of(&msg));
    }
    if !(e.len() > 0 && e[0] == '/') {
        let mut msg = chars_of("请填写绝对路径（以 / 开头）：");
        append_vec(&mut msg, &t);
        return Err(string_of(&msg));
    }
    let sep = chars_of("/");
    let body = join_vec(&stack, &sep);
    let out = concat_vec(&sep, &body);
    Ok(string_of(&out))
}

/// Once a `..` has climbed too high, the scan stays failed.
proof fn lemma_scan_none(s: Seq<char>, k: int)
    requires
        0 <= k <= s.len(),
        scan_path(s.take(k)).0 is None,
    ensures
        scan_path(s).0 is None,
        resolve_path(s) is None,
    decreases s.len() - k,
{
    if k < s.len() {
        assert(s.take(k + 1).drop_last() =~= s.take(k));
        lemma_scan_none(s, k + 1);
    } else {
        assert(s.take(k) =~= s);
    }
}


/// A component that survives resolution: non-empty, not `.` or `..`, and
/// free of separators.
pub open spec fn normal_seg(x: Seq<char>) -> bool {
    x.len() > 0 && x != "."@ && x != ".."@ && !x.contains('/')
}

/// Reading characters other than `/` only extends the current segment.
proof fn lemma_scan_append(a: Seq<char>, x: Seq<char>)
    requires
        !x.contains('/'),
    ensures
        scan_path(a + x) == (scan_path(a).0, scan_path(a).1 + x),
    decreases x.len(),
{
    if x.len() == 0 {
        assert(a + x =~= a);
        assert(scan_path(a).1 + x =~= scan_path(a).1);
    } else {
        let y = x.drop_last();
        assert(!y.contains('/')) by {
            if y.contains('/') {
                let i = choose|i: int| 0 <= i < y.len() && y[i] == '/';
                assert(x[i] == '/');
            }
        }
        lemma_scan_append(a, y);
        assert((a + x).drop_last() =~= a + y);
        assert((a + x).last() == x.last());
        assert(x.last() != '/') by {
            if x.last() == '/' {
                assert(x.contains('/'));
            }
        }
        assert(scan_path(a).1 + y.push(x.last()) =~= scan_path(a).1 + x);
        assert((scan_path(a).1 + y).push(x.last()) =~= scan_path(a).1 + x);
    }
}

/// Every component the scan has resolved is normal, and the pending
/// segment holds no separator.
proof fn lemma_scan_normal(s: Seq<char>)
    ensures
        !scan_path(s).1.contains('/'),
        scan_path(s).0 matches Some(st) ==> forall|i: int|
            0 <= i < st.len() ==> normal_seg(#[trigger] st[i]),
    decreases s.len(),
{
    reveal_strlit(".");
    reveal_strlit("..");
    if s.len() > 0 {
        lemma_scan_normal(s.drop_last());
        let prev = scan_path(s.drop_last());
        if s.last() != '/' {
            assert(!prev.1.push(s.last()).contains('/')) by {
                if prev.1.push(s.last()).contains('/') {
                    let i = choose|i: int|
                        0 <= i < prev.1.push(s.last()).len() && prev.1.push(s.last())[i] == '/';
                    if i < prev.1.len() {
                        assert(prev.1[i] == '/');
                    }
                }
            }
        } else {
            assert(!Seq::<char>::empty().contains('/'));
            lemma_seg_apply_normal(prev.0, prev.1);
        }
    }
}

proof fn lemma_seg_apply_normal(st: Option<Seq<Seq<char>>>, seg: Seq<char>)
    requires
        !seg.contains('/'),
        st matches Some(s) ==> forall|i: int| 0 <= i < s.len() ==> normal_seg(#[trigger] s[i]),
    ensures
        seg_apply(st, seg) matches Some(s) ==> forall|i: int|
            0 <= i < s.len() ==> normal_seg(#[trigger] s[i]),
{
    match st {
        None => {},
        Some(stack) => {
            if seg == ".."@ {
                if stack.len() > 0 {
                    assert forall|i: int| 0 <= i < stack.drop_last().len() implies normal_seg(
                        #[trigger] stack.drop_last()[i],
                    ) by {
                        assert(stack.drop_last()[i] == stack[i]);
                    }
                }
            } else if seg.len() == 0 || seg == "."@ {
            } else {
                assert forall|i: int| 0 <= i < stack.push(seg).len() implies normal_seg(
                    #[trigger] stack.push(seg)[i],
                ) by {
                    if i < stack.len() {
                        assert(stack.push(seg)[i] == stack[i]);
                    }
                }
            }
        },
    }
}

proof fn lemma_scan_slash()
    ensures
        scan_path("/"@) == (Some(Seq::<Seq<char>>::empty()), Seq::<char>::empty()),
{
    reveal_strlit("/");
    reveal_strlit("..");
    let slash: Seq<char> = "/"@;
    assert(slash.drop_last() =~= Seq::<char>::empty());
    assert(scan_path(Seq::<char>::empty()) == (Some(Seq::<Seq<char>>::empty()), Seq::<char>::empty()));
    assert(Seq::<char>::empty() != ".."@);
    assert(seg_apply(Some(Seq::<Seq<char>>::empty()), Seq::<char>::empty()) == Some(Seq::<Seq<char>>::empty()));
}

/// An absolute path spelled from normal components resolves to them.
proof fn lemma_resolve_rendered(st: Seq<Seq<char>>)
    requires
        forall|i: int| 0 <= i < st.len() ==> normal_seg(#[trigger] st[i]),
    ensures
        resolve_path("/"@ + join(st, "/"@)) == Some(st),
    decreases st.len(),
{
    reveal_strlit("/");
    reveal_strlit(".");
    reveal_strlit("..");
    let slash: Seq<char> = "/"@;
    assert(slash.len() == 1 && slash[0] == '/');
    if st.len() == 0 {
        assert(slash + join(st, slash) =~= slash);
        lemma_scan_slash();
    } else {
        let st1 = st.drop_last();
        let x = st.last();
        assert(normal_seg(x));
        assert forall|i: int| 0 <= i < st1.len() implies normal_seg(#[trigger] st1[i]) by {
            assert(st1[i] == st[i]);
        }
        // The text before the last component, separator included.
        let head: Seq<char> = if st1.len() == 0 {
            slash
        } else {
            slash + join(st1, slash) + slash
        };
        assert(slash + join(st, slash) =~= head + x);
        if st1.len() == 0 {
            lemma_scan_slash();
            assert(st1 =~= Seq::<Seq<char>>::empty());
        } else {
            lemma_resolve_rendered(st1);
            let q = slash + join(st1, slash);
            assert(head.drop_last() =~= q);
            assert(head.last() == '/');
            assert(scan_path(head) == (seg_apply(scan_path(q).0, scan_path(q).1), Seq::<char>::empty()));
        }
        lemma_scan_append(head, x);
        assert(Seq::<char>::empty() + x =~= x);
        assert(st1.push(x) =~= st);
    }
}

/// Normalising is idempotent: a normalised path that does not end in
/// whitespace normalises to itself, whatever the home directory.
pub proof fn lemma_normalize_idempotent(
    raw: Seq<char>,
    home: Option<Seq<char>>,
    p: Seq<char>,
    home2: Option<Seq<char>>,
)
    requires
        normalized_dir(raw, home) == Ok::<Seq<char>, Seq<char>>(p),
        trim(p) == p,
    ensures
        normalized_dir(p, home2) == Ok::<Seq<char>, Seq<char>>(p),
{
    reveal_strlit("/");
    reveal_strlit("~");
    reveal_strlit("~/");
    let t = trim(raw);
    let e = expand_tilde(t, home)->Ok_0;
    let st = resolve_path(e)->Some_0;
    lemma_scan_normal(e);
    lemma_seg_apply_normal(scan_path(e).0, scan_path(e).1);
    lemma_resolve_rendered(st);
    assert(p[0] == '/');
    assert(p != "~"@);
    assert(!starts_with(p, "~/"@)) by {
        if starts_with(p, "~/"@) {
            assert(p.take(2)[0] == '~');
        }
    }
}

} // verus!
