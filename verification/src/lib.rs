//! Verified core of a mod-collection updater: the concurrent
//! resolution-and-download pipeline's aggregation and escalation policy,
//! the reconciliation of resolved downloads against an installation
//! directory, and the assembly of a portable modpack archive.

pub mod pipeline;
pub mod reconcile;
pub mod modpack;

use vstd::prelude::*;
use vstd::string::StrSliceExecFns;

verus! {

/// Width of the name column in progress lines: the longest name's length,
/// clamped to a sane range.
pub fn pad_width(longest: usize) -> (r: usize)
    ensures
        r == if longest < 20 { 20usize } else if longest > 50 { 50usize } else { longest },
{
    if longest < 20 {
        20
    } else if longest > 50 {
        50
    } else {
        longest
    }
}

/// The length of the longest name in the list, zero when it is empty.
pub open spec fn max_name_len(names: Seq<String>) -> nat
    decreases names.len(),
{
    if names.len() == 0 {
        0
    } else {
        let rest = max_name_len(names.drop_last());
        if names.last()@.len() > rest {
            names.last()@.len()
        } else {
            rest
        }
    }
}

/// Column width for aligned progress lines: the longest descriptor name's
/// length, clamped to the sane range (so twenty when there are no names).
#[verifier::loop_isolation(false)]
pub fn column_width(names: &Vec<String>) -> (r: usize)
    ensures
        r == if max_name_len(names@) < 20 {
            20nat
        } else if max_name_len(names@) > 50 {
            50nat
        } else {
            max_name_len(names@)
        },
{
    let mut w: usize = 0;
    let mut i: usize = 0;
    while i < names.len()
        invariant
            0 <= i <= names@.len(),
            w as nat == max_name_len(names@.take(i as int)),
        decreases names@.len() - i,
    {
        proof {
            assert(names@.take(i + 1).drop_last() =~= names@.take(i as int));
            assert(names@.take(i + 1).last() == names@[i as int]);
        }
        let l = names[i].as_str().unicode_len();
        if l > w {
            w = l;
        }
        i = i + 1;
    }
    proof {
        assert(names@.take(names@.len() as int) =~= names@);
    }
    pad_width(w)
}

} // verus!
