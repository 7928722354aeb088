//! The two operations on a directory, as plans over its listing: `fix`
//! renumbers every entry from zero; `insert` makes room for a new entry.

use vstd::prelude::*;
use crate::listing::{
    all_valid, get_sorted_files_in_dir, valid_of, names_of, sorted_by_number, PrefixedName,
};
use crate::name::{
    lemma_renamed_shape, pow10, num_prefix, prefix_of, prefix_value, valid_name, NameError,
};
use crate::padding::{get_padding_digits, is_width_needed, width_needed};
use crate::renumber::{
    changes, distinct_destinations, down_positions, is_rename_of, lands_free, lemma_plan_members,
    new_name_at, no_overwrite,
    rename_at, rename_files_from_index, rename_plan, renames_view, target_index, up_positions,
    Rename,
};

verus! {

/// `s` is the valid names of `listing`, ordered by number.
pub open spec fn listed_in_order(listing: Seq<String>, s: Seq<Seq<char>>) -> bool {
    all_valid(s) && sorted_by_number(s) && s.to_multiset() == valid_of(
        names_of(listing),
    ).to_multiset()
}

/// The renames of `fix` on the ordered names `s`: each entry gets its position,
/// padded to the width needed for all of them.
pub open spec fn fix_plan(s: Seq<Seq<char>>, w: nat) -> Seq<(Seq<char>, Seq<char>)> {
    rename_plan(s, None, w, s.len() as int)
}

/// The renames of `fix` on a directory listing: the valid names, ordered by
/// number, renumbered from zero at the width needed for them all, unchanged
/// names left out, in an order where no rename lands on a name still in use.
pub fn fix_renames(listing: Vec<String>) -> (r: Vec<Rename>)
    ensures
        exists|s: Seq<Seq<char>>, w: nat|
            listed_in_order(listing@, s) && is_width_needed(s.len(), w) && renames_view(r@)
                == #[trigger] fix_plan(s, w) && lands_free(s, renames_view(r@)),
        no_overwrite(renames_view(r@)),
        distinct_destinations(renames_view(r@)),
{
    let ghost l = listing@;
    let sorted = get_sorted_files_in_dir(listing);
    let (_, needed) = get_padding_digits(&sorted);
    let r = rename_files_from_index(&sorted, None, needed);
    let ghost s = crate::listing::entry_names(sorted@);
    assert(listed_in_order(l, s) && is_width_needed(s.len(), needed as nat) && renames_view(r@)
        == fix_plan(s, needed as nat));
    assert(no_overwrite(renames_view(r@)) && distinct_destinations(renames_view(r@)));
    r
}

/// The position `k` splits the ordered names `s` at number `p`: those before it
/// are below `p`, the others at or above it.
pub open spec fn is_split(s: Seq<Seq<char>>, p: nat, k: int) -> bool {
    0 <= k <= s.len() && (forall|i: int| 0 <= i < k ==> prefix_value(#[trigger] s[i]) < p)
        && (forall|i: int| k <= i < s.len() ==> prefix_value(#[trigger] s[i]) >= p)
}

/// How many numbers the width of an insertion at `p` must write: the entries
/// listed, and, where some entries move up, every number up to the highest one
/// they move to (`p + shifted`).
pub open spec fn insert_span(n: nat, p: nat, shifted: nat) -> nat {
    if shifted > 0 && p + 1 + shifted > n {
        p + 1 + shifted
    } else {
        n
    }
}

/// The width needed for `n` numbers (see `is_width_needed`, which fixes it).
pub open spec fn width_for(n: nat) -> nat {
    choose|d: nat| is_width_needed(n, d)
}

/// The renames of `insert` at number `p` on the ordered names `s`, split at
/// `k`: the entries from `k` on move up by one after `p`, at width `needed`; the
/// entries before `k` are renumbered from zero at that width only if the width
/// in use is smaller.
pub open spec fn insert_plan(s: Seq<Seq<char>>, p: usize, k: int, used: nat, needed: nat) -> Seq<
    (Seq<char>, Seq<char>),
> {
    let after = s.subrange(k, s.len() as int);
    let before = s.subrange(0, k);
    rename_plan(after, Some(p), needed, after.len() as int) + if used < needed {
        rename_plan(before, None, needed, k)
    } else {
        Seq::empty()
    }
}

/// The name has an extension: a `.` past its first character.
pub open spec fn has_extension(s: Seq<char>) -> bool {
    exists|i: int| 0 < i < s.len() && s[i] == '.'
}

/// What `insert` does to a directory: the renames to perform, in order, and
/// whether the new entry is a directory (else it is a new file).
pub struct InsertPlan {
    pub renames: Vec<Rename>,
    pub create_dir: bool,
}

fn name_has_extension(name: &str) -> (r: bool)
    ensures
        r == has_extension(name@),
{
    let n = name.unicode_len();
    let mut i: usize = 1;
    while i < n
        invariant
            n == name@.len(),
            1 <= i,
            forall|j: int| 0 < j < i && j < n ==> name@[j] != '.',
        decreases n - i,
    {
        if name.get_char(i) == '.' {
            return true;
        }
        i = i + 1;
    }
    false
}

/// The plan of `insert` for a new entry named `page_name` in a directory with
/// the given listing. The new entry's number `p` is its prefix's; the valid
/// entries at or above `p` move up by one, and the entries below `p` are
/// re-padded when the width grows. The width is the one needed for the entries
/// listed and for the highest number an entry moves to. Fails with
/// `InvalidName` on a name with no number, and with `PrefixTooLarge` where `p`,
/// or a number that an entry would move to, does not fit in a `usize`. No
/// rename lands on a name still in use.
pub fn plan_insert(page_name: &str, listing: Vec<String>) -> (r: Result<InsertPlan, NameError>)
    ensures
        !valid_name(page_name@) ==> r == Err::<InsertPlan, NameError>(NameError::InvalidName),
        valid_name(page_name@) && prefix_value(page_name@) > usize::MAX ==> r == Err::<
            InsertPlan,
            NameError,
        >(NameError::PrefixTooLarge),
        r is Ok ==> r->Ok_0.create_dir == !has_extension(page_name@),
        r is Ok ==> no_overwrite(renames_view(r->Ok_0.renames@)),
        valid_name(page_name@) && prefix_value(page_name@) <= usize::MAX ==> exists|
            s: Seq<Seq<char>>,
            k: int,
        |
            #![trigger is_split(s, prefix_value(page_name@), k)]
            listed_in_order(listing@, s) && is_split(s, prefix_value(page_name@), k) && if prefix_value(
                page_name@,
            ) + 1 + (s.len() - k) <= usize::MAX {
                r is Ok && renames_view(r->Ok_0.renames@) == insert_plan(
                    s,
                    prefix_value(page_name@) as usize,
                    k,
                    if s.len() > 0 {
                        prefix_of(s[0]).len()
                    } else {
                        0
                    },
                    width_for(
                        insert_span(s.len(), prefix_value(page_name@), (s.len() - k) as nat),
                    ),
                )
            } else {
                r == Err::<InsertPlan, NameError>(NameError::PrefixTooLarge)
            },
{
    let p = match num_prefix(page_name) {
        Ok(p) => p,
        Err(e) => {
            return Err(e);
        },
    };
    let ghost l = listing@;
    let mut all = get_sorted_files_in_dir(listing);
    let (used, _) = get_padding_digits(&all);
    let ghost s = crate::listing::entry_names(all@);
    let mut k: usize = 0;
    while k < all.len()
        invariant
            k <= all@.len(),
            s == crate::listing::entry_names(all@),
            forall|i: int| 0 <= i < k ==> prefix_value(#[trigger] s[i]) < p,
        ensures
            k <= all@.len(),
            forall|i: int| 0 <= i < k ==> prefix_value(#[trigger] s[i]) < p,
            k < all@.len() ==> prefix_value(s[k as int]) >= p,
        decreases all@.len() - k,
    {
        assert(s[k as int] == all@[k as int]@);
        let at_or_above = match all[k].index() {
            Some(v) => v >= p,
            None => true,
        };
        if at_or_above {
            break;
        }
        k = k + 1;
    }
    assert(is_split(s, p as nat, k as int)) by {
        assert forall|i: int| k <= i < s.len() implies prefix_value(#[trigger] s[i]) >= p by {
            assert(prefix_value(s[k as int]) <= prefix_value(s[i]));
        }
    }
    let n = all.len();
    let shifted = n - k;
    if p > usize::MAX - 1 || shifted > usize::MAX - 1 - p {
        assert(listed_in_order(l, s) && is_split(s, p as nat, k as int));
        return Err(NameError::PrefixTooLarge);
    }
    let span: usize = if shifted > 0 && p + 1 + shifted > n {
        p + 1 + shifted
    } else {
        n
    };
    let width = width_needed(span);
    proof {
        lemma_width_unique(span as nat, width as nat, width_for(span as nat));
    }
    let after = all.split_off(k);
    assert(crate::listing::entry_names(after@) =~= s.subrange(k as int, s.len() as int));
    assert(crate::listing::entry_names(all@) =~= s.subrange(0, k as int));
    let mut renames = rename_files_from_index(&after, Some(p), width);
    let ghost first = renames_view(renames@);
    let ghost second: Seq<(Seq<char>, Seq<char>)> = Seq::empty();
    if used < width {
        let mut head = rename_files_from_index(&all, None, width);
        proof {
            second = renames_view(head@);
        }
        renames.append(&mut head);
    }
    let create_dir = !name_has_extension(page_name);
    let plan = InsertPlan { renames, create_dir };
    proof {
        let u: nat = if s.len() > 0 {
            prefix_of(s[0]).len()
        } else {
            0
        };
        assert(renames_view(plan.renames@) =~= first + second);
        assert(renames_view(plan.renames@) =~= insert_plan(s, p, k as int, u, width as nat));
        assert(listed_in_order(l, s) && is_split(s, p as nat, k as int));
        lemma_insert_no_overwrite(s, p, k as int, width as nat, first, second);
    }
    Ok(plan)
}

/// The renames of an insertion never land on a name still in use: each part
/// is safe, and the moved entries go above `p`, where no entry below `p` is.
proof fn lemma_insert_no_overwrite(
    s: Seq<Seq<char>>,
    p: usize,
    k: int,
    w: nat,
    first: Seq<(Seq<char>, Seq<char>)>,
    second: Seq<(Seq<char>, Seq<char>)>,
)
    requires
        sorted_by_number(s),
        is_split(s, p as nat, k),
        first == rename_plan(s.subrange(k, s.len() as int), Some(p), w, s.len() - k),
        no_overwrite(first),
        second == Seq::<(Seq<char>, Seq<char>)>::empty() || (second == rename_plan(
            s.subrange(0, k),
            None,
            w,
            k,
        ) && no_overwrite(second)),
    ensures
        no_overwrite(first + second),
{
    let after = s.subrange(k, s.len() as int);
    let before = s.subrange(0, k);
    lemma_plan_members(after, Some(p), w);
    assert(first == rename_plan(after, Some(p), w, after.len() as int));
    if second.len() > 0 {
        lemma_plan_members(before, None, w);
        assert(second == rename_plan(before, None, w, before.len() as int));
    }
    let v = first + second;
    assert forall|i: int, j: int| 0 <= i < j < v.len() implies (#[trigger] v[i]).1 != (
    #[trigger] v[j]).0 by {
        if i < first.len() && j >= first.len() {
            assert(is_rename_of(after, Some(p), w, first[i]));
            assert(is_rename_of(before, None, w, second[j - first.len()]));
            let qi = choose|q: int|
                0 <= q < after.len() && first[i] == #[trigger] rename_at(after, Some(p), w, q);
            let qj = choose|q: int|
                0 <= q < before.len() && second[j - first.len()] == #[trigger] rename_at(
                    before,
                    None,
                    w,
                    q,
                );
            crate::name::lemma_renamed_value(after[qi], target_index(Some(p), qi), w);
            assert(prefix_value(before[qj]) < p);
        } else if i < first.len() {
            assert(v[i] == first[i] && v[j] == first[j]);
        } else {
            assert(v[i] == second[i - first.len()] && v[j] == second[j - first.len()]);
        }
    }
}

/// The names that `fix` gives the ordered names `s` at width `w`, in order.
pub open spec fn fixed_names(s: Seq<Seq<char>>, w: nat) -> Seq<Seq<char>> {
    Seq::new(s.len(), |k: int| new_name_at(s, None, w, k))
}

/// Fixing twice renames nothing the second time. The names that `fix` gives
/// are valid, their numbers are their positions (so they are strictly
/// ordered), they need the same width, and `fix` on them renames nothing.
pub proof fn lemma_fix_idempotent(s: Seq<Seq<char>>, w: nat)
    requires
        s.len() <= usize::MAX,
        is_width_needed(s.len(), w),
    ensures
        all_valid(fixed_names(s, w)),
        forall|k: int|
            0 <= k < s.len() ==> prefix_value(#[trigger] fixed_names(s, w)[k]) == k,
        sorted_by_number(fixed_names(s, w)),
        is_width_needed(fixed_names(s, w).len(), w),
        fix_plan(fixed_names(s, w), w) == Seq::<(Seq<char>, Seq<char>)>::empty(),
{
    let f = fixed_names(s, w);
    assert forall|k: int| 0 <= k < s.len() implies prefix_value(#[trigger] f[k]) == k && valid_name(
        f[k],
    ) && new_name_at(f, None, w, k) == f[k] by {
        lemma_renamed_shape(s[k], k as nat, w);
        lemma_renamed_shape(f[k], k as nat, w);
        assert(new_name_at(f, None, w, k) =~= f[k]);
    }
    lemma_no_renames(f, w, f.len() as int);
}

proof fn lemma_no_renames(f: Seq<Seq<char>>, w: nat, j: int)
    requires
        0 <= j <= f.len(),
        forall|k: int| 0 <= k < f.len() ==> new_name_at(f, None, w, k) == #[trigger] f[k],
    ensures
        up_positions(f, None, w, j) == Seq::<int>::empty(),
        crate::renumber::changed_positions(f, None, w, j) == Seq::<int>::empty(),
        down_positions(f, None, w, j) == Seq::<int>::empty(),
        rename_plan(f, None, w, j) == Seq::<(Seq<char>, Seq<char>)>::empty(),
    decreases j,
{
    if j > 0 {
        assert(new_name_at(f, None, w, j - 1) == f[j - 1]);
        lemma_no_renames(f, w, j - 1);
    }
    assert(rename_plan(f, None, w, j) =~= Seq::<(Seq<char>, Seq<char>)>::empty());
}

proof fn lemma_pow10_mono(a: nat, b: nat)
    requires
        a <= b,
    ensures
        pow10(a) <= pow10(b),
    decreases b,
{
    if a < b {
        lemma_pow10_mono(a, (b - 1) as nat);
    }
}

/// The width needed for a number of entries is unique.
proof fn lemma_width_unique(n: nat, d1: nat, d2: nat)
    requires
        is_width_needed(n, d1),
        is_width_needed(n, d2),
    ensures
        d1 == d2,
{
    if d1 < d2 {
        lemma_pow10_mono(d1, (d2 - 1) as nat);
    } else if d2 < d1 {
        lemma_pow10_mono(d2, (d1 - 1) as nat);
    }
}

/// Names ordered by number that hold the same names as a sequence whose numbers
/// are its positions are that sequence.
proof fn lemma_sorted_equals_numbered(t: Seq<Seq<char>>, f: Seq<Seq<char>>)
    requires
        sorted_by_number(t),
        forall|k: int| 0 <= k < f.len() ==> prefix_value(#[trigger] f[k]) == k,
        t.to_multiset() == f.to_multiset(),
    ensures
        t == f,
    decreases f.len(),
{
    broadcast use vstd::seq_lib::group_to_multiset_ensures;

    vstd::seq_lib::to_multiset_len(t);
    vstd::seq_lib::to_multiset_len(f);
    if f.len() == 0 {
        assert(t.len() == 0);
        assert(t =~= f);
    } else {
        let n = f.len() as int;
        assert(t.len() == n);
        assert(t.to_multiset().count(f[n - 1]) > 0);
        assert(t.contains(f[n - 1]));
        let j = choose|j: int| 0 <= j < t.len() && t[j] == f[n - 1];
        assert(f.to_multiset().count(t[n - 1]) > 0);
        assert(f.contains(t[n - 1]));
        let i = choose|i: int| 0 <= i < f.len() && f[i] == t[n - 1];
        assert(prefix_value(t[j]) <= prefix_value(t[n - 1]));
        assert(i == n - 1);
        assert(t.remove(n - 1) =~= t.drop_last());
        assert(f.remove(n - 1) =~= f.drop_last());
        assert(t.drop_last().to_multiset() == f.drop_last().to_multiset());
        lemma_sorted_equals_numbered(t.drop_last(), f.drop_last());
        assert(t =~= t.drop_last().push(t[n - 1]));
        assert(f =~= f.drop_last().push(f[n - 1]));
    }
}

/// Fixing a directory twice renames nothing the second time: where the valid
/// names of the second listing are the names that `fix` gave to the ordered
/// names `s`, the second `fix` sees them in that order, at the same width, and
/// plans no rename.
pub proof fn lemma_fix_twice(
    s: Seq<Seq<char>>,
    w: nat,
    second: Seq<String>,
    t: Seq<Seq<char>>,
    w2: nat,
)
    requires
        s.len() <= usize::MAX,
        is_width_needed(s.len(), w),
        valid_of(names_of(second)).to_multiset() == fixed_names(s, w).to_multiset(),
        listed_in_order(second, t),
        is_width_needed(t.len(), w2),
    ensures
        t == fixed_names(s, w),
        w2 == w,
        fix_plan(t, w2) == Seq::<(Seq<char>, Seq<char>)>::empty(),
{
    lemma_fix_idempotent(s, w);
    lemma_sorted_equals_numbered(t, fixed_names(s, w));
    lemma_width_unique(t.len(), w, w2);
}


/// The names in a directory after performing renames in order: each one takes
/// its source away and adds its destination.
pub open spec fn apply_renames(d: Set<Seq<char>>, v: Seq<(Seq<char>, Seq<char>)>) -> Set<
    Seq<char>,
>
    decreases v.len(),
{
    if v.len() == 0 {
        d
    } else {
        apply_renames(d.remove(v[0].0).insert(v[0].1), v.drop_first())
    }
}

/// `x` is the source of one of the renames.
pub open spec fn is_source(v: Seq<(Seq<char>, Seq<char>)>, x: Seq<char>) -> bool {
    exists|i: int| 0 <= i < v.len() && (#[trigger] v[i]).0 == x
}

/// `x` is the destination of one of the renames.
pub open spec fn is_destination(v: Seq<(Seq<char>, Seq<char>)>, x: Seq<char>) -> bool {
    exists|i: int| 0 <= i < v.len() && (#[trigger] v[i]).1 == x
}

/// Renames that never land on a source still to come leave the names of the
/// directory that no rename takes away, and add every destination.
pub proof fn lemma_apply_renames(d: Set<Seq<char>>, v: Seq<(Seq<char>, Seq<char>)>)
    requires
        no_overwrite(v),
    ensures
        forall|x: Seq<char>|
            #[trigger] apply_renames(d, v).contains(x) <==> (d.contains(x) && !is_source(v, x))
                || is_destination(v, x),
    decreases v.len(),
{
    if v.len() > 0 {
        let v1 = v.drop_first();
        assert(no_overwrite(v1)) by {
            assert forall|i: int, j: int| 0 <= i < j < v1.len() implies (#[trigger] v1[i]).1 != (
            #[trigger] v1[j]).0 by {
                assert(v1[i] == v[i + 1] && v1[j] == v[j + 1]);
            }
        }
        let d1 = d.remove(v[0].0).insert(v[0].1);
        lemma_apply_renames(d1, v1);
        assert forall|x: Seq<char>|
            #[trigger] apply_renames(d, v).contains(x) <==> (d.contains(x) && !is_source(v, x))
                || is_destination(v, x) by {
            assert(apply_renames(d, v) == apply_renames(d1, v1));
            if is_source(v, x) {
                let i = choose|i: int| 0 <= i < v.len() && (#[trigger] v[i]).0 == x;
                if i > 0 {
                    assert(v1[i - 1] == v[i]);
                }
            }
            if is_source(v1, x) {
                let i = choose|i: int| 0 <= i < v1.len() && (#[trigger] v1[i]).0 == x;
                assert(v[i + 1] == v1[i]);
                if x == v[0].1 {
                    assert(v[0].1 != v[i + 1].0);
                }
            }
            if is_destination(v, x) {
                let i = choose|i: int| 0 <= i < v.len() && (#[trigger] v[i]).1 == x;
                if i > 0 {
                    assert(v1[i - 1] == v[i]);
                }
            }
            if is_destination(v1, x) {
                let i = choose|i: int| 0 <= i < v1.len() && (#[trigger] v1[i]).1 == x;
                assert(v[i + 1] == v1[i]);
            }
            if x == v[0].0 {
                assert(v[0].0 == x);
            }
            if x == v[0].1 {
                assert(v[0].1 == x);
            }
        }
    }
}

proof fn lemma_valid_of_contains(l: Seq<Seq<char>>, x: Seq<char>)
    ensures
        valid_of(l).contains(x) <==> l.contains(x) && valid_name(x),
{
    broadcast use vstd::seq_lib::group_filter_ensures;

    if valid_of(l).contains(x) {
        let i = choose|i: int| 0 <= i < valid_of(l).len() && valid_of(l)[i] == x;
        l.lemma_filter_contains_rev(|s: Seq<char>| valid_name(s), x);
        l.lemma_filter_pred(|s: Seq<char>| valid_name(s), i);
    }
    if l.contains(x) && valid_name(x) {
        let i = choose|i: int| 0 <= i < l.len() && l[i] == x;
        l.lemma_filter_contains(|s: Seq<char>| valid_name(s), i);
    }
}

proof fn lemma_same_contents(a: Seq<Seq<char>>, b: Seq<Seq<char>>)
    requires
        a.no_duplicates(),
        b.no_duplicates(),
        forall|x: Seq<char>| a.contains(x) <==> b.contains(x),
    ensures
        a.to_multiset() == b.to_multiset(),
{
    broadcast use vstd::seq_lib::group_to_multiset_ensures;

    a.lemma_multiset_has_no_duplicates();
    b.lemma_multiset_has_no_duplicates();
    assert forall|x: Seq<char>| a.to_multiset().count(x) == b.to_multiset().count(x) by {
        if a.contains(x) {
            assert(a.to_multiset().contains(x));
            assert(b.to_multiset().contains(x));
        }
    }
    assert(a.to_multiset() =~= b.to_multiset());
}

/// Fixing a directory twice renames nothing the second time. The first `fix`
/// plans its renames on the valid names `s` of the first listing; once they
/// are performed, the directory holds the names that `apply_renames` gives, and
/// `fix` on any listing of that directory plans no rename. A directory holds
/// each name once.
pub proof fn lemma_fix_twice_on_directory(
    first: Seq<String>,
    s: Seq<Seq<char>>,
    w: nat,
    second: Seq<String>,
    t: Seq<Seq<char>>,
    w2: nat,
)
    requires
        valid_of(names_of(first)).no_duplicates(),
        valid_of(names_of(second)).no_duplicates(),
        listed_in_order(first, s),
        s.len() <= usize::MAX,
        is_width_needed(s.len(), w),
        names_of(second).to_set() == apply_renames(names_of(first).to_set(), fix_plan(s, w)),
        listed_in_order(second, t),
        is_width_needed(t.len(), w2),
    ensures
        fix_plan(t, w2) == Seq::<(Seq<char>, Seq<char>)>::empty(),
{
    broadcast use vstd::seq_lib::group_to_multiset_ensures;

    let vf1 = valid_of(names_of(first));
    let vf2 = valid_of(names_of(second));
    vf1.lemma_multiset_has_no_duplicates();
    s.lemma_multiset_has_no_duplicates_conv();
    let plan = fix_plan(s, w);
    let n = s.len() as int;
    let f = fixed_names(s, w);
    crate::renumber::lemma_plan_safe(s, None, w);
    lemma_plan_members(s, None, w);
    lemma_fix_idempotent(s, w);
    let d1 = names_of(first).to_set();
    lemma_apply_renames(d1, plan);
    assert(f.no_duplicates()) by {
        assert forall|i: int, j: int| 0 <= i < f.len() && 0 <= j < f.len() && i != j implies f[i]
            != f[j] by {
            assert(prefix_value(f[i]) == i);
            assert(prefix_value(f[j]) == j);
        }
    }
    assert forall|x: Seq<char>| vf2.contains(x) <==> f.contains(x) by {
        lemma_valid_of_contains(names_of(second), x);
        lemma_valid_of_contains(names_of(first), x);
        if vf2.contains(x) {
            assert(names_of(second).to_set().contains(x));
            if is_destination(plan, x) {
                let i = choose|i: int| 0 <= i < plan.len() && (#[trigger] plan[i]).1 == x;
                assert(is_rename_of(s, None, w, plan[i]));
                let q = choose|q: int| 0 <= q < n && plan[i] == #[trigger] rename_at(s, None, w, q);
                assert(f[q] == x);
            } else {
                assert(d1.contains(x) && !is_source(plan, x));
                assert(vf1.contains(x));
                assert(vf1.to_multiset().contains(x));
                assert(s.contains(x));
                let q = choose|q: int| 0 <= q < n && s[q] == x;
                if changes(s, None, w, q) {
                    let i = choose|i: int| 0 <= i < plan.len() && #[trigger] plan[i] == rename_at(
                        s,
                        None,
                        w,
                        q,
                    );
                    assert(plan[i].0 == x);
                }
                assert(f[q] == x);
            }
        }
        if f.contains(x) {
            let q = choose|q: int| 0 <= q < f.len() && f[q] == x;
            assert(valid_name(f[q]));
            if changes(s, None, w, q) {
                let i = choose|i: int| 0 <= i < plan.len() && #[trigger] plan[i] == rename_at(
                    s,
                    None,
                    w,
                    q,
                );
                assert(plan[i].1 == x);
                assert(is_destination(plan, x));
            } else {
                assert(s[q] == x);
                assert(s.contains(x));
                assert(s.to_multiset().contains(x));
                assert(vf1.contains(x));
                if is_source(plan, x) {
                    let i = choose|i: int| 0 <= i < plan.len() && (#[trigger] plan[i]).0 == x;
                    assert(is_rename_of(s, None, w, plan[i]));
                    let q2 = choose|q2: int|
                        0 <= q2 < n && plan[i] == #[trigger] rename_at(s, None, w, q2);
                    assert(s[q2] == s[q]);
                    assert(q2 == q);
                }
            }
            assert(apply_renames(d1, plan).contains(x));
            assert(names_of(second).to_set().contains(x));
        }
    }
    lemma_same_contents(vf2, f);
    lemma_fix_twice(s, w, second, t, w2);
}

} // verus!
