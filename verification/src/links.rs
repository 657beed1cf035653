//! `dsh-launcher://` deep links handed over on the command line.

use vstd::prelude::*;

use crate::text::{starts_with, str_starts_with};

verus! {

/// Whether an argument is a launcher deep link.
pub open spec fn is_deep_link(a: Seq<char>) -> bool {
    starts_with(a, "dsh-launcher://"@)
}

/// The first argument that is a `dsh-launcher://` deep link.
pub fn deep_link_from_args(args: &Vec<String>) -> (r: Option<String>)
    ensures
        r is None <==> forall|i: int| 0 <= i < args.len() ==> !is_deep_link(#[trigger] args@[i]@),
        r matches Some(u) ==> exists|i: int|
            0 <= i < args.len() && u@ == args@[i]@ && is_deep_link(args@[i]@) && forall|j: int|
                0 <= j < i ==> !is_deep_link(#[trigger] args@[j]@),
{
    let mut k: usize = 0;
    while k < args.len()
        invariant
            k <= args.len(),
            forall|j: int| 0 <= j < k ==> !is_deep_link(#[trigger] args@[j]@),
        decreases args.len() - k,
    {
        if str_starts_with(args[k].as_str(), "dsh-launcher://") {
            let u = args[k].clone();
            return Some(u);
        }
        k = k + 1;
    }
    None
}

/// Whether a deep link asks to launch an instance headless
/// (`dsh-launcher://launch…`), which keeps the launcher window hidden.
pub fn is_launch_link(link: &Option<String>) -> (r: bool)
    ensures
        r == (link matches Some(u) && starts_with(u@, "dsh-launcher://launch"@)),
{
    match link {
        Some(u) => str_starts_with(u.as_str(), "dsh-launcher://launch"),
        None => false,
    }
}

} // verus!
