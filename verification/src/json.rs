//! JSON documents the launcher reads (profile manifests, pnpm's
//! `.modules.yaml` in its JSON form), as plain values. The application
//! parses the text and hands the tree over; every lookup the logic makes is
//! a function here.

use crate::text::{chars_of, string_of};
use vstd::prelude::*;

verus! {

/// A JSON value. Numbers keep their textual form; an object keeps its
/// members in document order.
#[derive(Debug)]
pub enum Json {
    Null,
    Bool(bool),
    Number(String),
    Str(String),
    Array(Vec<Json>),
    Object(Vec<(String, Json)>),
}

/// Index of the first member named `key`, or -1.
pub open spec fn member_index(es: Seq<(String, Json)>, key: Seq<char>) -> int
    decreases es.len(),
{
    if es.len() == 0 {
        -1
    } else {
        let f = member_index(es.drop_last(), key);
        if f >= 0 {
            f
        } else if es.last().0@ == key {
            es.len() - 1
        } else {
            -1
        }
    }
}

pub proof fn lemma_member_index(es: Seq<(String, Json)>, key: Seq<char>)
    ensures
        -1 <= member_index(es, key) < es.len(),
        member_index(es, key) >= 0 ==> es[member_index(es, key)].0@ == key,
    decreases es.len(),
{
    if es.len() > 0 {
        lemma_member_index(es.drop_last(), key);
        let f = member_index(es.drop_last(), key);
        if f >= 0 {
            assert(es.drop_last()[f] == es[f]);
        }
    }
}

proof fn lemma_member_index_prefix(es: Seq<(String, Json)>, key: Seq<char>, k: int)
    requires
        0 <= k < es.len(),
        member_index(es.take(k), key) == -1,
        es[k].0@ == key,
    ensures
        member_index(es, key) == k,
    decreases es.len(),
{
    assert(es.take(k + 1).drop_last() =~= es.take(k));
    assert(member_index(es.take(k + 1), key) == k);
    if es.len() > k + 1 {
        assert(es.drop_last().take(k) =~= es.take(k));
        lemma_member_index_prefix(es.drop_last(), key, k);
    } else {
        assert(es.take(k + 1) =~= es);
    }
}

/// The member `key` of an object (`Value::get`); `None` for a missing
/// member or a value that is not an object.
pub open spec fn field(j: Json, key: Seq<char>) -> Option<Json> {
    match j {
        Json::Object(es) => {
            let k = member_index(es@, key);
            if k >= 0 {
                Some(es@[k].1)
            } else {
                None
            }
        },
        _ => None,
    }
}

/// The member `key` of the value `j`, if `j` is present.
pub open spec fn field_of(j: Option<Json>, key: Seq<char>) -> Option<Json> {
    match j {
        Some(v) => field(v, key),
        None => None,
    }
}

/// The text of a string value (`Value::as_str`).
pub open spec fn as_text(j: Option<Json>) -> Option<Seq<char>> {
    match j {
        Some(Json::Str(s)) => Some(s@),
        _ => None,
    }
}

/// The member `key` of an object.
pub fn get_field<'a>(j: &'a Json, key: &str) -> (r: Option<&'a Json>)
    ensures
        match r {
            Some(v) => field(*j, key@) == Some(*v),
            None => field(*j, key@) is None,
        },
{
    match j {
        Json::Object(es) => {
            let mut k: usize = 0;
            let kc = chars_of(key);
            while k < es.len()
                invariant
                    k <= es.len(),
                    kc@ == key@,
                    *j == Json::Object(*es),
                    member_index(es@.take(k as int), key@) == -1,
                decreases es.len() - k,
            {
                assert(es@.take(k + 1).drop_last() =~= es@.take(k as int));
                if crate::text::vec_eq(&chars_of(es[k].0.as_str()), &kc) {
                    proof {
                        lemma_member_index_prefix(es@, key@, k as int);
                    }
                    return Some(&es[k].1);
                }
                k = k + 1;
            }
            assert(es@.take(es.len() as int) =~= es@);
            None
        },
        _ => None,
    }
}

/// The member `key` of an optional value.
pub fn get_field_of<'a>(j: Option<&'a Json>, key: &str) -> (r: Option<&'a Json>)
    ensures
        match j {
            Some(v) => match r {
                Some(x) => field(*v, key@) == Some(*x),
                None => field(*v, key@) is None,
            },
            None => r is None,
        },
{
    match j {
        Some(v) => get_field(v, key),
        None => None,
    }
}

/// The text of a string value.
pub fn text_of(j: Option<&Json>) -> (r: Option<String>)
    ensures
        match j {
            Some(v) => crate::config::opt_view(r) == as_text(Some(*v)),
            None => r is None,
        },
{
    match j {
        Some(Json::Str(s)) => Some(s.clone()),
        _ => None,
    }
}

} // verus!
