//! The width of the numbers in a directory: the one in use, and the one needed.

use vstd::prelude::*;
use crate::listing::PrefixedName;
use crate::name::{file_prefix, pow10, prefix_of};

verus! {

/// The width needed for `n` entries: the least `d >= 2` with `n <= 10^d`, which is
/// also the least `d >= 2` that writes every index below `n`.
pub open spec fn is_width_needed(n: nat, d: nat) -> bool {
    d >= 2 && n <= pow10(d) && (d == 2 || n > pow10((d - 1) as nat))
}

/// The width needed for `n` entries: the least `d >= 2` with `n <= 10^d`.
pub fn width_needed(n: usize) -> (d: usize)
    ensures
        is_width_needed(n as nat, d as nat),
{
    let mut d: usize = 2;
    let mut p: usize = 100;
    assert(pow10(2) == 100) by {
        lemma_pow10_grows(0);
        assert(pow10(0) == 1);
        assert(pow10(1) == 10);
    }
    while p < n
        invariant_except_break
            p == pow10(d as nat),
            2 <= d < p,
        invariant
            2 <= d,
            d == 2 || n > pow10((d - 1) as nat),
        ensures
            is_width_needed(n as nat, d as nat),
        decreases usize::MAX - p,
    {
        proof {
            assert(pow10((d + 1) as nat) == 10 * pow10(d as nat));
        }
        if p > usize::MAX / 10 {
            d = d + 1;
            break;
        }
        d = d + 1;
        p = p * 10;
    }
    d
}

/// `get_padding_digits`: the width of the first entry's prefix (0 when there
/// is none), and the width needed to number all the entries.
pub fn get_padding_digits(all_files: &Vec<PrefixedName>) -> (r: (usize, usize))
    ensures
        all_files@.len() == 0 ==> r.0 == 0,
        all_files@.len() > 0 ==> r.0 == prefix_of(all_files@[0]@).len(),
        is_width_needed(all_files@.len() as nat, r.1 as nat),
{
    let n = all_files.len();
    let d = width_needed(n);
    let used: usize = if n > 0 {
        file_prefix(all_files[0].name()).as_str().unicode_len()
    } else {
        0
    };
    (used, d)
}

proof fn lemma_pow10_grows(d: nat)
    ensures
        pow10(d) >= d + 1,
        pow10(d) >= 1,
    decreases d,
{
    if d > 0 {
        lemma_pow10_grows((d - 1) as nat);
    }
}

} // verus!
