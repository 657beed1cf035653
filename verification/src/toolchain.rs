//! The toolchain policy: which pnpm majors the launcher accepts, where its
//! store lives, which registry answers, and how version strings of the
//! tools are read.

use crate::config::opt_view;
use crate::paths::{join_path, path_join};
use crate::plugins::char_index;
use crate::text::{
    append_vec, cat, chars_of, dec, dec_vec, is_digit, lines, slice_vec, split_lines, string_of,
    trim, trim_start_char, trim_start_char_vec, trim_vec, view_lines,
};
use vstd::prelude::*;

verus! {

/// The pnpm major that DSH profiles are initialised with.
pub const REQUIRED_PNPM_MAJOR: u32 = 11;

/// The lowest pnpm major the setup page asks for.
pub const MIN_PNPM_MAJOR: u32 = 11;

/// The pnpm install command the setup page suggests.
pub const PNPM_INSTALL_HINT: &'static str = "npm install -g pnpm@11";

// ---------------------------------------------------------------------------
// Reading version output
// ---------------------------------------------------------------------------

/// The value of a string of decimal digits.
pub open spec fn digits_value(d: Seq<char>) -> nat
    decreases d.len(),
{
    if d.len() == 0 {
        0
    } else {
        digits_value(d.drop_last()) * 10 + ((d.last() as u32) - ('0' as u32)) as nat
    }
}

/// Whether every character is an ASCII digit.
pub open spec fn all_digits(d: Seq<char>) -> bool {
    forall|i: int| 0 <= i < d.len() ==> is_digit(#[trigger] d[i])
}

/// `str::parse` of an unsigned integer whose largest value is `max`: an
/// optional `+`, then at least one ASCII digit and nothing else; a value
/// above `max` is an overflow error.
pub open spec fn parse_uint(s: Seq<char>, max: nat) -> Option<nat> {
    let d = if s.len() > 0 && s[0] == '+' {
        s.drop_first()
    } else {
        s
    };
    if d.len() == 0 || !all_digits(d) {
        None
    } else if digits_value(d) > max {
        None
    } else {
        Some(digits_value(d))
    }
}

proof fn lemma_digits_value_grows(d: Seq<char>, k: int)
    requires
        0 <= k <= d.len(),
        all_digits(d),
    ensures
        digits_value(d.take(k)) <= digits_value(d),
    decreases d.len() - k,
{
    if k < d.len() {
        assert(d.take(k + 1).drop_last() =~= d.take(k));
        assert(is_digit(d[k]));
        lemma_digits_value_grows(d, k + 1);
    } else {
        assert(d.take(k) =~= d);
    }
}

/// Parses an unsigned integer no larger than `max` (see [`parse_uint`]).
pub fn parse_u64(s: &Vec<char>, max: u64) -> (r: Option<u64>)
    ensures
        match r {
            Some(v) => parse_uint(s@, max as nat) == Some(v as nat),
            None => parse_uint(s@, max as nat) is None,
        },
{
    let start: usize = if s.len() > 0 && s[0] == '+' {
        1
    } else {
        0
    };
    let d = slice_vec(s, start, s.len());
    proof {
        if start == 1 {
            assert(d@ =~= s@.drop_first());
        } else {
            assert(d@ =~= s@);
        }
    }
    if d.len() == 0 {
        return None;
    }
    let mut acc: u64 = 0;
    let mut k: usize = 0;
    while k < d.len()
        invariant
            k <= d.len(),
            d@ == (if s@.len() > 0 && s@[0] == '+' {
                s@.drop_first()
            } else {
                s@
            }),
            d@.len() > 0,
            acc as nat == digits_value(d@.take(k as int)),
            all_digits(d@.take(k as int)),
            acc <= max,
        decreases d.len() - k,
    {
        let c = d[k];
        assert(d@.take(k + 1).drop_last() =~= d@.take(k as int));
        assert(d@.take(k + 1).last() == c);
        if !('0' <= c && c <= '9') {
            assert(!all_digits(d@)) by {
                assert(!is_digit(d@[k as int]));
            }
            return None;
        }
        let digit = (c as u32 - '0' as u32) as u64;
        let next = match acc.checked_mul(10) {
            Some(m) => m.checked_add(digit),
            None => None,
        };
        match next {
            Some(v) => {
                if v > max {
                    proof {
                        assert(digits_value(d@.take(k + 1)) == v);
                        assert forall|i: int| 0 <= i < k + 1 implies is_digit(
                            #[trigger] d@.take(k + 1)[i],
                        ) by {
                            if i < k {
                                assert(d@.take(k + 1)[i] == d@.take(k as int)[i]);
                            }
                        }
                        lemma_overflow_or_bad(d@, k + 1, max as nat);
                    }
                    return None;
                }
                acc = v;
            },
            None => {
                proof {
                    assert(digits_value(d@.take(k + 1)) > u64::MAX);
                    assert forall|i: int| 0 <= i < k + 1 implies is_digit(
                        #[trigger] d@.take(k + 1)[i],
                    ) by {
                        if i < k {
                            assert(d@.take(k + 1)[i] == d@.take(k as int)[i]);
                        }
                    }
                    lemma_overflow_or_bad(d@, k + 1, max as nat);
                }
                return None;
            },
        }
        assert forall|i: int| 0 <= i < k + 1 implies is_digit(#[trigger] d@.take(k + 1)[i]) by {
            if i < k {
                assert(d@.take(k + 1)[i] == d@.take(k as int)[i]);
            }
        }
        k = k + 1;
    }
    assert(d@.take(d.len() as int) =~= d@);
    Some(acc)
}

/// When a prefix of digits already exceeds `max`, the whole string parses
/// to nothing: either it holds a non-digit, or its value is larger still.
proof fn lemma_overflow_or_bad(d: Seq<char>, k: int, max: nat)
    requires
        0 < k <= d.len(),
        all_digits(d.take(k)),
        digits_value(d.take(k)) > max,
    ensures
        !all_digits(d) || digits_value(d) > max,
{
    if all_digits(d) {
        lemma_digits_value_grows(d, k);
    }
}

/// The text before the first `.` (all of it when there is none).
pub open spec fn before_dot(s: Seq<char>) -> Seq<char> {
    let i = char_index(s, '.');
    if i < 0 {
        s
    } else {
        s.take(i)
    }
}

fn before_dot_vec(s: &Vec<char>) -> (r: Vec<char>)
    ensures
        r@ == before_dot(s@),
{
    let mut i: usize = 0;
    while i < s.len() && s[i] != '.'
        invariant
            i <= s.len(),
            forall|m: int| 0 <= m < i ==> s@[m] != '.',
        decreases s.len() - i,
    {
        i = i + 1;
    }
    proof {
        crate::plugins::lemma_char_index(s@, '.');
        let f = char_index(s@, '.');
        if i == s.len() {
            if f >= 0 {
                assert(s@[f] == '.');
            }
        } else {
            if f < 0 || i < f {
                assert(s@[i as int] != '.');
            } else if f < i {
                assert(s@[f] != '.');
            }
        }
    }
    let r = slice_vec(s, 0, i);
    assert(i == s.len() ==> r@ =~= s@);
    assert(i < s.len() ==> r@ =~= s@.take(i as int));
    r
}

/// The major version in `pnpm --version` output ("11.17.0\n" is 11): the
/// trimmed text before the first `.`, trimmed again and parsed as a `u32`.
pub open spec fn pnpm_major_of(out: Seq<char>) -> Option<nat> {
    parse_uint(trim(before_dot(trim(out))), u32::MAX as nat)
}

/// Parses the major version out of `pnpm --version` output.
pub fn pnpm_major(version_output: &str) -> (r: Option<u32>)
    ensures
        match r {
            Some(v) => pnpm_major_of(version_output@) == Some(v as nat),
            None => pnpm_major_of(version_output@) is None,
        },
{
    let t = trim_vec(&chars_of(version_output));
    let head = trim_vec(&before_dot_vec(&t));
    match parse_u64(&head, 0xffff_ffffu64) {
        Some(v) => Some(v as u32),
        None => None,
    }
}

/// The major version in `node --version` output ("v22.14.0" is 22): the
/// trimmed text without leading `v`s, before the first `.`, parsed as a
/// `u64`.
pub open spec fn node_major_of(out: Seq<char>) -> Option<nat> {
    parse_uint(before_dot(trim_start_char(trim(out), 'v')), u64::MAX as nat)
}

/// Parses the major out of `node --version` output.
pub fn node_major(version_output: &str) -> (r: Option<u64>)
    ensures
        match r {
            Some(v) => node_major_of(version_output@) == Some(v as nat),
            None => node_major_of(version_output@) is None,
        },
{
    let t = trim_vec(&chars_of(version_output));
    let s = trim_start_char_vec(&t, 'v');
    let head = before_dot_vec(&s);
    parse_u64(&head, u64::MAX)
}

// ---------------------------------------------------------------------------
// Store, registry, pnpm location
// ---------------------------------------------------------------------------

/// The registry mirror from `DSH_NPM_REGISTRY` (its raw value, when set),
/// trimmed; `None` when unset or blank.
pub fn registry_mirror(raw: Option<String>) -> (r: Option<String>)
    ensures
        match raw {
            Some(v) => if trim(v@).len() > 0 {
                r matches Some(m) && m@ == trim(v@)
            } else {
                r is None
            },
            None => r is None,
        },
{
    match raw {
        Some(v) => {
            let t = trim_vec(&chars_of(v.as_str()));
            if t.len() > 0 {
                Some(string_of(&t))
            } else {
                None
            }
        },
        None => None,
    }
}

/// The launcher's shared pnpm content store: `<data_dir>/.pnpm-store`.
pub fn store_dir(data_dir: &str) -> (r: String)
    ensures
        r@ == path_join(data_dir@, ".pnpm-store"@),
{
    join_path(data_dir, ".pnpm-store")
}

/// The launcher's tools directory: `<data_dir>/tools`.
pub fn tools_dir(data_dir: &str) -> (r: String)
    ensures
        r@ == path_join(data_dir@, "tools"@),
{
    join_path(data_dir, "tools")
}

/// The pnpm executable an earlier launcher left in the tools directory.
pub fn local_pnpm_path(tools_dir: &str) -> (r: String)
    ensures
        r@ == path_join(tools_dir@, "pnpm"@),
{
    join_path(tools_dir, "pnpm")
}

/// Network robustness flags for pnpm download subcommands, as
/// `--config.<name> value` pairs (the spelling pnpm 11 and 12 both accept):
/// a 5-minute fetch timeout, 5 retries and a 2-minute retry back-off cap.
/// Download concurrency is left at pnpm's default, which has no spelling
/// both majors accept.
pub open spec fn fetch_flags() -> Seq<Seq<char>> {
    seq![
        "--config.fetch-timeout"@,
        "300000"@,
        "--config.fetch-retries"@,
        "5"@,
        "--config.fetch-retry-maxtimeout"@,
        "120000"@,
    ]
}

/// The network robustness flags for pnpm download subcommands.
pub fn pnpm_fetch_flags() -> (r: Vec<String>)
    ensures
        crate::text::view_strings(r@) == fetch_flags(),
{
    let mut v: Vec<String> = Vec::new();
    v.push(String::from_str("--config.fetch-timeout"));
    v.push(String::from_str("300000"));
    v.push(String::from_str("--config.fetch-retries"));
    v.push(String::from_str("5"));
    v.push(String::from_str("--config.fetch-retry-maxtimeout"));
    v.push(String::from_str("120000"));
    assert(crate::text::view_strings(v@) =~= fetch_flags());
    v
}


/// Whether a probed pnpm (its major, if its output parsed) is one the
/// launcher adopts: any major from [`MIN_PNPM_MAJOR`] up.
pub fn is_required_pnpm(major: Option<u32>) -> (r: bool)
    ensures
        r == (major matches Some(m) && m >= MIN_PNPM_MAJOR),
{
    match major {
        Some(m) => m >= MIN_PNPM_MAJOR,
        None => false,
    }
}

/// The note when the system pnpm is older than the launcher accepts: its
/// trimmed version output and the lowest major accepted.
pub fn system_pnpm_mismatch_note(raw: &str) -> (r: String)
    ensures
        r@ == "系统 pnpm "@ + trim(raw@) + " 低于所需的 pnpm "@ + dec(MIN_PNPM_MAJOR as nat),
{
    let mut m = chars_of("系统 pnpm ");
    append_vec(&mut m, &trim_vec(&chars_of(raw)));
    append_vec(&mut m, &chars_of(" 低于所需的 pnpm "));
    append_vec(&mut m, &dec_vec(MIN_PNPM_MAJOR as u64));
    string_of(&m)
}

/// The error when no usable pnpm is found: the launcher installs no
/// toolchain, so it names the command that installs one.
pub fn pnpm_missing_error() -> (r: String)
    ensures
        r@ == "未找到可用的 pnpm（需要 "@ + dec(MIN_PNPM_MAJOR as nat) + " 或更高版本），请在终端运行："@
            + PNPM_INSTALL_HINT@,
{
    let mut m = chars_of("未找到可用的 pnpm（需要 ");
    append_vec(&mut m, &dec_vec(MIN_PNPM_MAJOR as u64));
    append_vec(&mut m, &chars_of(" 或更高版本），请在终端运行："));
    append_vec(&mut m, &chars_of(PNPM_INSTALL_HINT));
    string_of(&m)
}



} // verus!
