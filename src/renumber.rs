//! Renumbering: the new name of every entry, and the renames that reach them.
//! Where no entry moves to a lower number the renames go in descending
//! position. Otherwise the entries that move up go first, the last one first,
//! then the others, the first one first. On entries ordered by number, no
//! rename lands on a name that has not moved away yet.

use vstd::prelude::*;
use crate::listing::{entry_names, sorted_by_number, PrefixedName};
use crate::name::{lemma_renamed_value, prefix_value, renamed, replaced_index_name_unchecked};

verus! {

/// One rename to perform in a directory: `from` becomes `to`.
pub struct Rename {
    pub from: String,
    pub to: String,
}

/// The names of a sequence of renames.
pub open spec fn renames_view(v: Seq<Rename>) -> Seq<(Seq<char>, Seq<char>)> {
    v.map_values(|r: Rename| (r.from@, r.to@))
}

/// The number given to the entry at position `k`: `k` itself, or, after an
/// insertion point `s`, `s + 1 + k`.
pub open spec fn target_index(start: Option<usize>, k: int) -> nat {
    match start {
        None => k as nat,
        Some(s) => (s + 1 + k) as nat,
    }
}

/// The new name of the entry at position `k`.
pub open spec fn new_name_at(names: Seq<Seq<char>>, start: Option<usize>, w: nat, k: int) -> Seq<
    char,
> {
    renamed(names[k], target_index(start, k), w)
}

/// The entry at position `k` gets a different name.
pub open spec fn changes(names: Seq<Seq<char>>, start: Option<usize>, w: nat, k: int) -> bool {
    new_name_at(names, start, w, k) != names[k]
}

/// The entry at position `k` moves to a higher number.
pub open spec fn moves_up(names: Seq<Seq<char>>, start: Option<usize>, k: int) -> bool {
    target_index(start, k) > prefix_value(names[k])
}

/// The entry at position `k` moves to a lower number.
pub open spec fn moves_down(names: Seq<Seq<char>>, start: Option<usize>, k: int) -> bool {
    target_index(start, k) < prefix_value(names[k])
}

/// Some entry below position `k` moves to a lower number.
pub open spec fn some_moves_down(names: Seq<Seq<char>>, start: Option<usize>, k: int) -> bool {
    exists|q: int| 0 <= q < k && #[trigger] moves_down(names, start, q)
}

/// The positions below `k` whose entries change name, highest first.
pub open spec fn changed_positions(
    names: Seq<Seq<char>>,
    start: Option<usize>,
    w: nat,
    k: int,
) -> Seq<int>
    decreases k,
{
    if k <= 0 {
        Seq::empty()
    } else {
        let rest = changed_positions(names, start, w, k - 1);
        if changes(names, start, w, k - 1) {
            seq![k - 1] + rest
        } else {
            rest
        }
    }
}

/// The positions below `k` whose entries move up and change name, highest first.
pub open spec fn up_positions(names: Seq<Seq<char>>, start: Option<usize>, w: nat, k: int) -> Seq<
    int,
>
    decreases k,
{
    if k <= 0 {
        Seq::empty()
    } else {
        let rest = up_positions(names, start, w, k - 1);
        if changes(names, start, w, k - 1) && moves_up(names, start, k - 1) {
            seq![k - 1] + rest
        } else {
            rest
        }
    }
}

/// The positions below `k` whose entries change name without moving up,
/// lowest first.
pub open spec fn down_positions(names: Seq<Seq<char>>, start: Option<usize>, w: nat, k: int) -> Seq<
    int,
>
    decreases k,
{
    if k <= 0 {
        Seq::empty()
    } else {
        let rest = down_positions(names, start, w, k - 1);
        if changes(names, start, w, k - 1) && !moves_up(names, start, k - 1) {
            rest.push(k - 1)
        } else {
            rest
        }
    }
}

/// The rename of the entry at position `q`.
pub open spec fn rename_at(names: Seq<Seq<char>>, start: Option<usize>, w: nat, q: int) -> (
    Seq<char>,
    Seq<char>,
) {
    (names[q], new_name_at(names, start, w, q))
}

/// The renames for the first `k` entries, unchanged names left out. Where no
/// entry moves to a lower number, they come in descending position. Otherwise
/// the entries that move to a higher number come first, the last position
/// first, then the others, the first position first: descending order alone
/// would move an entry onto a lower name that has not moved away yet. On entries
/// ordered by number no rename lands on a name that has not moved yet.
pub open spec fn rename_plan(names: Seq<Seq<char>>, start: Option<usize>, w: nat, k: int) -> Seq<
    (Seq<char>, Seq<char>),
> {
    if some_moves_down(names, start, k) {
        (up_positions(names, start, w, k) + down_positions(names, start, w, k)).map_values(
            |q: int| rename_at(names, start, w, q),
        )
    } else {
        changed_positions(names, start, w, k).map_values(|q: int| rename_at(names, start, w, q))
    }
}

/// No rename's destination is the source of a later rename: a rename never
/// lands on a name that the plan has yet to move away.
pub open spec fn no_overwrite(v: Seq<(Seq<char>, Seq<char>)>) -> bool {
    forall|i: int, j: int| 0 <= i < j < v.len() ==> (#[trigger] v[i]).1 != (#[trigger] v[j]).0
}

/// Every rename that lands on one of the listed names comes after the rename
/// that moved that name away.
pub open spec fn lands_free(names: Seq<Seq<char>>, v: Seq<(Seq<char>, Seq<char>)>) -> bool {
    forall|i: int, q: int|
        0 <= i < v.len() && 0 <= q < names.len() && (#[trigger] v[i]).1 == #[trigger] names[q]
            ==> exists|j: int| 0 <= j < i && (#[trigger] v[j]).0 == names[q]
}

/// No two renames share a destination.
pub open spec fn distinct_destinations(v: Seq<(Seq<char>, Seq<char>)>) -> bool {
    forall|i: int, j: int| 0 <= i < j < v.len() ==> (#[trigger] v[i]).1 != (#[trigger] v[j]).1
}

proof fn lemma_positions(names: Seq<Seq<char>>, start: Option<usize>, w: nat, k: int)
    requires
        0 <= k <= names.len(),
    ensures
        forall|a: int|
            0 <= a < up_positions(names, start, w, k).len() ==> {
                let q = #[trigger] up_positions(names, start, w, k)[a];
                0 <= q < k && changes(names, start, w, q) && moves_up(names, start, q)
            },
        forall|a: int, b: int|
            0 <= a < b < up_positions(names, start, w, k).len() ==> #[trigger] up_positions(
                names,
                start,
                w,
                k,
            )[a] > #[trigger] up_positions(names, start, w, k)[b],
        forall|a: int|
            0 <= a < down_positions(names, start, w, k).len() ==> {
                let q = #[trigger] down_positions(names, start, w, k)[a];
                0 <= q < k && changes(names, start, w, q) && !moves_up(names, start, q)
            },
        forall|a: int, b: int|
            0 <= a < b < down_positions(names, start, w, k).len() ==> #[trigger] down_positions(
                names,
                start,
                w,
                k,
            )[a] < #[trigger] down_positions(names, start, w, k)[b],
        forall|a: int|
            0 <= a < changed_positions(names, start, w, k).len() ==> {
                let q = #[trigger] changed_positions(names, start, w, k)[a];
                0 <= q < k && changes(names, start, w, q)
            },
        forall|a: int, b: int|
            0 <= a < b < changed_positions(names, start, w, k).len() ==> #[trigger] changed_positions(
                names,
                start,
                w,
                k,
            )[a] > #[trigger] changed_positions(names, start, w, k)[b],
    decreases k,
{
    if k > 0 {
        lemma_positions(names, start, w, k - 1);
        let c0 = changed_positions(names, start, w, k - 1);
        let c = changed_positions(names, start, w, k);
        if changes(names, start, w, k - 1) {
            assert forall|a: int| 0 < a < c.len() implies c[a] == c0[a - 1] by {}
        }
        assert forall|a: int, b: int| 0 <= a < b < c.len() implies #[trigger] c[a] > #[trigger] c[b] by {
            if changes(names, start, w, k - 1) {
                if a > 0 {
                    assert(c[a] == c0[a - 1] && c[b] == c0[b - 1]);
                } else {
                    assert(c[b] == c0[b - 1]);
                }
            }
        }
        let u0 = up_positions(names, start, w, k - 1);
        let d0 = down_positions(names, start, w, k - 1);
        let u = up_positions(names, start, w, k);
        let d = down_positions(names, start, w, k);
        if changes(names, start, w, k - 1) && moves_up(names, start, k - 1) {
            assert forall|a: int| 0 < a < u.len() implies u[a] == u0[a - 1] by {}
        }
        if changes(names, start, w, k - 1) && !moves_up(names, start, k - 1) {
            assert forall|a: int| 0 <= a < d0.len() implies d[a] == d0[a] by {}
        }
        assert forall|a: int, b: int| 0 <= a < b < u.len() implies #[trigger] u[a] > #[trigger] u[b] by {
            if changes(names, start, w, k - 1) && moves_up(names, start, k - 1) {
                if a > 0 {
                    assert(u[a] == u0[a - 1] && u[b] == u0[b - 1]);
                } else {
                    assert(u[b] == u0[b - 1]);
                }
            }
        }
        assert forall|a: int, b: int| 0 <= a < b < d.len() implies #[trigger] d[a] < #[trigger] d[b] by {
            if changes(names, start, w, k - 1) && !moves_up(names, start, k - 1) {
                if b < d0.len() {
                    assert(d[a] == d0[a] && d[b] == d0[b]);
                } else {
                    assert(d[a] == d0[a]);
                }
            }
        }
    }
}

/// `x` is the rename of one of the entries.
pub open spec fn is_rename_of(
    names: Seq<Seq<char>>,
    start: Option<usize>,
    w: nat,
    x: (Seq<char>, Seq<char>),
) -> bool {
    exists|q: int| 0 <= q < names.len() && x == #[trigger] rename_at(names, start, w, q)
}

/// Every rename of `rename_plan` is the rename of some entry.
pub proof fn lemma_plan_members(names: Seq<Seq<char>>, start: Option<usize>, w: nat)
    ensures
        forall|i: int|
            0 <= i < rename_plan(names, start, w, names.len() as int).len() ==> is_rename_of(
                names,
                start,
                w,
                #[trigger] rename_plan(names, start, w, names.len() as int)[i],
            ) && rename_plan(names, start, w, names.len() as int)[i].0 != rename_plan(
                names,
                start,
                w,
                names.len() as int,
            )[i].1,
        forall|q: int|
            0 <= q < names.len() && #[trigger] changes(names, start, w, q) ==> exists|i: int|
                0 <= i < rename_plan(names, start, w, names.len() as int).len() && #[trigger] rename_plan(
                    names,
                    start,
                    w,
                    names.len() as int,
                )[i] == rename_at(names, start, w, q),
{
    let n = names.len() as int;
    lemma_positions(names, start, w, n);
    let u = up_positions(names, start, w, n);
    let d = down_positions(names, start, w, n);
    let c = changed_positions(names, start, w, n);
    let v = rename_plan(names, start, w, n);
    lemma_positions_complete(names, start, w, n);
    assert forall|q: int| 0 <= q < names.len() && #[trigger] changes(names, start, w, q) implies exists|
        i: int,
    | 0 <= i < v.len() && #[trigger] v[i] == rename_at(names, start, w, q) by {
        if some_moves_down(names, start, n) {
            if moves_up(names, start, q) {
                let b = choose|b: int| 0 <= b < u.len() && u[b] == q;
                assert(v[b] == rename_at(names, start, w, q));
            } else {
                let b = choose|b: int| 0 <= b < d.len() && d[b] == q;
                assert(v[u.len() + b] == rename_at(names, start, w, q));
            }
        } else {
            let b = choose|b: int| 0 <= b < c.len() && c[b] == q;
            assert(v[b] == rename_at(names, start, w, q));
        }
    }
    assert forall|i: int| 0 <= i < v.len() implies is_rename_of(names, start, w, #[trigger] v[i])
        && v[i].0 != v[i].1 by {
        if !some_moves_down(names, start, n) {
            assert(v[i] == rename_at(names, start, w, c[i]));
            assert(changes(names, start, w, c[i]));
        } else {
        let q = (u + d)[i];
        if i < u.len() {
            assert(u[i] == q);
        } else {
            assert(d[i - u.len()] == q);
        }
        assert(v[i] == rename_at(names, start, w, q));
        assert(changes(names, start, w, q));
        }
    }
}

/// On entries ordered by number, the renames of `rename_plan` never land on a
/// name still in use, and no two of them share a destination.
pub proof fn lemma_plan_safe(names: Seq<Seq<char>>, start: Option<usize>, w: nat)
    requires
        sorted_by_number(names),
    ensures
        no_overwrite(rename_plan(names, start, w, names.len() as int)),
        distinct_destinations(rename_plan(names, start, w, names.len() as int)),
{
    let n = names.len() as int;
    lemma_positions(names, start, w, n);
    let u = up_positions(names, start, w, n);
    let d = down_positions(names, start, w, n);
    let c = changed_positions(names, start, w, n);
    let down = some_moves_down(names, start, n);
    let ps = if down {
        u + d
    } else {
        c
    };
    let v = rename_plan(names, start, w, n);
    assert forall|i: int, j: int| 0 <= i < j < v.len() implies (#[trigger] v[i]).1 != (
    #[trigger] v[j]).0 && v[i].1 != v[j].1 by {
        let qi = ps[i];
        let qj = ps[j];
        if down {
            if i < u.len() {
                assert(u[i] == qi);
            } else {
                assert(d[i - u.len()] == qi);
            }
            if j < u.len() {
                assert(u[j] == qj);
            } else {
                assert(d[j - u.len()] == qj);
            }
        } else {
            assert(c[i] > c[j]);
            assert(!moves_down(names, start, qj));
            assert(!moves_down(names, start, qi));
        }
        assert(qi != qj);
        lemma_renamed_value(names[qi], target_index(start, qi), w);
        lemma_renamed_value(names[qj], target_index(start, qj), w);
        assert(v[i] == rename_at(names, start, w, qi));
        assert(v[j] == rename_at(names, start, w, qj));
        if qi < qj {
            assert(prefix_value(names[qi]) <= prefix_value(names[qj]));
        } else {
            assert(prefix_value(names[qj]) <= prefix_value(names[qi]));
        }
    }
}

proof fn lemma_positions_complete(names: Seq<Seq<char>>, start: Option<usize>, w: nat, k: int)
    requires
        0 <= k <= names.len(),
    ensures
        forall|q: int|
            0 <= q < k && #[trigger] changes(names, start, w, q) ==> changed_positions(
                names,
                start,
                w,
                k,
            ).contains(q) && (moves_up(names, start, q) ==> up_positions(names, start, w, k).contains(
                q,
            )) && (!moves_up(names, start, q) ==> down_positions(names, start, w, k).contains(q)),
    decreases k,
{
    if k > 0 {
        lemma_positions_complete(names, start, w, k - 1);
        let c0 = changed_positions(names, start, w, k - 1);
        let u0 = up_positions(names, start, w, k - 1);
        let d0 = down_positions(names, start, w, k - 1);
        let c = changed_positions(names, start, w, k);
        let u = up_positions(names, start, w, k);
        let d = down_positions(names, start, w, k);
        assert forall|q: int| 0 <= q < k && #[trigger] changes(names, start, w, q) implies c.contains(q)
            && (moves_up(names, start, q) ==> u.contains(q)) && (!moves_up(names, start, q)
            ==> d.contains(q)) by {
            if q == k - 1 {
                assert(c[0] == q);
                if moves_up(names, start, q) {
                    assert(u[0] == q);
                } else {
                    assert(d[d.len() - 1] == q);
                }
            } else {
                let a = choose|a: int| 0 <= a < c0.len() && c0[a] == q;
                if changes(names, start, w, k - 1) {
                    assert(c[a + 1] == q);
                } else {
                    assert(c[a] == q);
                }
                if moves_up(names, start, q) {
                    let b = choose|b: int| 0 <= b < u0.len() && u0[b] == q;
                    if changes(names, start, w, k - 1) && moves_up(names, start, k - 1) {
                        assert(u[b + 1] == q);
                    } else {
                        assert(u[b] == q);
                    }
                } else {
                    let b = choose|b: int| 0 <= b < d0.len() && d0[b] == q;
                    assert(d[b] == q);
                }
            }
        }
    }
}

/// On entries ordered by number, a rename lands on a listed name only after
/// the rename that moved that name away.
pub proof fn lemma_plan_lands_free(names: Seq<Seq<char>>, start: Option<usize>, w: nat)
    requires
        sorted_by_number(names),
    ensures
        lands_free(names, rename_plan(names, start, w, names.len() as int)),
{
    let n = names.len() as int;
    lemma_plan_safe(names, start, w);
    lemma_positions(names, start, w, n);
    lemma_positions_complete(names, start, w, n);
    let u = up_positions(names, start, w, n);
    let d = down_positions(names, start, w, n);
    let c = changed_positions(names, start, w, n);
    let down = some_moves_down(names, start, n);
    let ps = if down {
        u + d
    } else {
        c
    };
    let v = rename_plan(names, start, w, n);
    assert(v.len() == ps.len());
    assert forall|a: int| 0 <= a < ps.len() implies #[trigger] v[a] == rename_at(names, start, w, ps[a])
        && 0 <= ps[a] < n && changes(names, start, w, ps[a]) by {
        if down {
            if a < u.len() {
                assert(u[a] == ps[a]);
            } else {
                assert(d[a - u.len()] == ps[a]);
            }
        } else {
            assert(c[a] == ps[a]);
        }
    }
    assert forall|i: int, q: int|
        0 <= i < v.len() && 0 <= q < names.len() && (#[trigger] v[i]).1 == #[trigger] names[q]
            implies exists|j: int| 0 <= j < i && (#[trigger] v[j]).0 == names[q] by {
        let qi = ps[i];
        assert(v[i] == rename_at(names, start, w, qi));
        lemma_renamed_value(names[qi], target_index(start, qi), w);
        lemma_renamed_value(names[q], target_index(start, q), w);
        if !changes(names, start, w, q) {
            assert(q == qi);
        }
        assert(changes(names, start, w, q));
        let j: int = if down {
            if moves_up(names, start, q) {
                choose|b: int| 0 <= b < u.len() && u[b] == q
            } else {
                u.len() + choose|b: int| 0 <= b < d.len() && d[b] == q
            }
        } else {
            choose|b: int| 0 <= b < c.len() && c[b] == q
        };
        assert(ps[j] == q);
        assert(v[j] == rename_at(names, start, w, q));
        assert(j != i);
        assert(!(j > i));
    }
}

/// Where no entry moves to a lower number, the renames come in strictly
/// descending position.
pub proof fn lemma_plan_descending(names: Seq<Seq<char>>, start: Option<usize>, w: nat)
    requires
        !some_moves_down(names, start, names.len() as int),
    ensures
        rename_plan(names, start, w, names.len() as int) == changed_positions(
            names,
            start,
            w,
            names.len() as int,
        ).map_values(|q: int| rename_at(names, start, w, q)),
        forall|a: int, b: int|
            0 <= a < b < changed_positions(names, start, w, names.len() as int).len()
                ==> #[trigger] changed_positions(names, start, w, names.len() as int)[a]
                > #[trigger] changed_positions(names, start, w, names.len() as int)[b],
{
    lemma_positions(names, start, w, names.len() as int);
}

/// Every index that renumbering gives fits in a `usize`.
pub open spec fn targets_fit(start: Option<usize>, n: nat) -> bool {
    match start {
        None => true,
        Some(s) => s + 1 + n <= usize::MAX,
    }
}

/// `rename_files_from_index`: the renames that give the entry at position `k`
/// the number `k` (or `start_index + 1 + k`) padded to `padding` digits,
/// leaving out entries whose name does not change. Where no entry moves to a
/// lower number, the renames come in descending position. Otherwise the entries
/// that move to a higher number come first, the last position first, then the
/// others, the first position first. On entries ordered by number, no rename
/// lands on a listed name before that name has moved away, and no two renames
/// share a destination.
pub fn rename_files_from_index(
    entries: &Vec<PrefixedName>,
    start_index: Option<usize>,
    padding: usize,
) -> (r: Vec<Rename>)
    requires
        targets_fit(start_index, entries@.len() as nat),
    ensures
        renames_view(r@) == rename_plan(
            entry_names(entries@),
            start_index,
            padding as nat,
            entries@.len() as int,
        ),
        sorted_by_number(entry_names(entries@)) ==> no_overwrite(renames_view(r@))
            && distinct_destinations(renames_view(r@)) && lands_free(
            entry_names(entries@),
            renames_view(r@),
        ),
        !some_moves_down(entry_names(entries@), start_index, entries@.len() as int)
            ==> renames_view(r@) == changed_positions(
            entry_names(entries@),
            start_index,
            padding as nat,
            entries@.len() as int,
        ).map_values(|q: int| rename_at(entry_names(entries@), start_index, padding as nat, q)),
{
    let ghost names = entry_names(entries@);
    let ghost w = padding as nat;
    let mut up: Vec<Rename> = Vec::new();
    let mut down: Vec<Rename> = Vec::new();
    let mut all: Vec<Rename> = Vec::new();
    let mut any_down = false;
    let mut k: usize = 0;
    while k < entries.len()
        invariant
            k <= entries@.len(),
            names == entry_names(entries@),
            w == padding as nat,
            targets_fit(start_index, entries@.len() as nat),
            renames_view(up@) == up_positions(names, start_index, w, k as int).map_values(
                |q: int| rename_at(names, start_index, w, q),
            ),
            renames_view(down@) == down_positions(names, start_index, w, k as int).map_values(
                |q: int| rename_at(names, start_index, w, q),
            ),
            renames_view(all@) == changed_positions(names, start_index, w, k as int).map_values(
                |q: int| rename_at(names, start_index, w, q),
            ),
            any_down == some_moves_down(names, start_index, k as int),
        decreases entries@.len() - k,
    {
        let target: usize = match start_index {
            None => k,
            Some(s) => s + 1 + k,
        };
        let e = &entries[k];
        let name = String::from_str(e.name());
        let next = replaced_index_name_unchecked(e.name(), target, padding);
        let key = e.index();
        let up_move = match key {
            Some(v) => target > v,
            None => false,
        };
        let down_move = match key {
            Some(v) => target < v,
            None => true,
        };
        assert(names[k as int] == entries@[k as int]@);
        let ghost old_up = up@;
        let ghost old_down = down@;
        let ghost old_all = all@;
        let ghost ku = k as int + 1;
        let differs = next != name;
        proof {
            assert(target as nat == target_index(start_index, k as int));
            assert(next@ == new_name_at(names, start_index, w, k as int));
            assert(name@ == names[k as int]);

            assert(differs == changes(names, start_index, w, k as int));
            assert(up_move == moves_up(names, start_index, k as int));
            assert(down_move == moves_down(names, start_index, k as int));
            assert(some_moves_down(names, start_index, ku) == (some_moves_down(
                names,
                start_index,
                k as int,
            ) || moves_down(names, start_index, k as int))) by {
                if moves_down(names, start_index, k as int) {
                    assert(some_moves_down(names, start_index, ku));
                }
                if some_moves_down(names, start_index, ku) && !moves_down(names, start_index, k as int) {
                    let q = choose|q: int| 0 <= q < ku && #[trigger] moves_down(names, start_index, q);
                    assert(q < k);
                }
            }
            let ck = changed_positions(names, start_index, w, k as int);
            if changes(names, start_index, w, k as int) {
                assert(changed_positions(names, start_index, w, ku) == seq![k as int] + ck);
            } else {
                assert(changed_positions(names, start_index, w, ku) == ck);
            }
            let uk = up_positions(names, start_index, w, k as int);
            let dk = down_positions(names, start_index, w, k as int);
            if changes(names, start_index, w, k as int) && moves_up(names, start_index, k as int) {
                assert(up_positions(names, start_index, w, ku) == seq![k as int] + uk);
                assert(down_positions(names, start_index, w, ku) == dk);
            } else if changes(names, start_index, w, k as int) {
                assert(up_positions(names, start_index, w, ku) == uk);
                assert(down_positions(names, start_index, w, ku) == dk.push(k as int));
            } else {
                assert(up_positions(names, start_index, w, ku) == uk);
                assert(down_positions(names, start_index, w, ku) == dk);
            }
        }
        any_down = any_down || down_move;
        if differs {
            all.insert(0, Rename { from: name.clone(), to: next.clone() });
            assert(renames_view(all@) =~= seq![rename_at(names, start_index, w, k as int)]
                + renames_view(old_all));
            assert((seq![k as int] + changed_positions(names, start_index, w, k as int)).map_values(
                |q: int| rename_at(names, start_index, w, q),
            ) =~= seq![rename_at(names, start_index, w, k as int)] + changed_positions(
                names,
                start_index,
                w,
                k as int,
            ).map_values(|q: int| rename_at(names, start_index, w, q)));
            if up_move {
                up.insert(0, Rename { from: name, to: next });
                assert(rename_at(names, start_index, w, k as int) == (names[k as int], next@));
                assert(renames_view(up@) =~= seq![rename_at(names, start_index, w, k as int)]
                    + renames_view(old_up));
                assert((seq![k as int] + up_positions(names, start_index, w, k as int)).map_values(
                    |q: int| rename_at(names, start_index, w, q),
                ) =~= seq![rename_at(names, start_index, w, k as int)] + up_positions(
                    names,
                    start_index,
                    w,
                    k as int,
                ).map_values(|q: int| rename_at(names, start_index, w, q)));
                assert(renames_view(up@) =~= up_positions(names, start_index, w, ku).map_values(
                    |q: int| rename_at(names, start_index, w, q),
                ));
            } else {
                down.push(Rename { from: name, to: next });
                assert(rename_at(names, start_index, w, k as int) == (names[k as int], next@));
                assert(renames_view(down@) =~= renames_view(old_down).push(
                    rename_at(names, start_index, w, k as int),
                ));
                assert(down_positions(names, start_index, w, k as int).push(k as int).map_values(
                    |q: int| rename_at(names, start_index, w, q),
                ) =~= down_positions(names, start_index, w, k as int).map_values(
                    |q: int| rename_at(names, start_index, w, q),
                ).push(rename_at(names, start_index, w, k as int)));
                assert(renames_view(down@) =~= down_positions(names, start_index, w, ku).map_values(
                    |q: int| rename_at(names, start_index, w, q),
                ));
            }
        }
        k = k + 1;
    }
    proof {
        if sorted_by_number(names) {
            lemma_plan_safe(names, start_index, w);
            lemma_plan_lands_free(names, start_index, w);
        }
    }
    if !any_down {
        return all;
    }
    let ghost uv = renames_view(up@);
    let ghost dv = renames_view(down@);
    up.append(&mut down);
    assert(renames_view(up@) =~= uv + dv);
    up
}

} // verus!
