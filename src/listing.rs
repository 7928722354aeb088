//! The valid numbered entries of a directory listing, in the order of their numbers.

use vstd::prelude::*;
use crate::name::{
    is_valid_name, managed_name, num_prefix, prefix_le, prefix_value, valid_name, NameError,
};

verus! {

/// A valid numbered name, kept together with its number where that fits in a
/// `usize`.
pub struct PrefixedName {
    name: String,
    index: Option<usize>,
}

impl View for PrefixedName {
    type V = Seq<char>;

    closed spec fn view(&self) -> Seq<char> {
        self.name@
    }
}

impl PrefixedName {
    #[verifier::type_invariant]
    spec fn well_formed(self) -> bool {
        valid_name(self.name@) && (self.index is Some <==> managed_name(self.name@)) && (
        self.index is Some ==> self.index->0 == prefix_value(self.name@))
    }

    /// Takes a valid name; fails with `InvalidName` on any other.
    pub fn new(name: String) -> (r: Result<PrefixedName, NameError>)
        ensures
            r is Ok <==> valid_name(name@),
            r is Ok ==> r->Ok_0@ == name@,
            r is Err ==> r->Err_0 == NameError::InvalidName,
    {
        if !is_valid_name(name.as_str()) {
            return Err(NameError::InvalidName);
        }
        let index = match num_prefix(name.as_str()) {
            Ok(v) => Some(v),
            Err(_) => None,
        };
        Ok(PrefixedName { name, index })
    }

    /// The name itself.
    pub fn name(&self) -> (r: &str)
        ensures
            r@ == self@,
    {
        self.name.as_str()
    }

    /// The number that the name's prefix spells, where it fits in a `usize`.
    pub fn index(&self) -> (r: Option<usize>)
        ensures
            valid_name(self@),
            r is Some <==> prefix_value(self@) <= usize::MAX,
            r is Some ==> r->0 == prefix_value(self@),
    {
        proof {
            use_type_invariant(self);
        }
        self.index
    }
}

/// The character sequences of a listing of names.
pub open spec fn names_of(v: Seq<String>) -> Seq<Seq<char>> {
    v.map_values(|s: String| s@)
}

/// The names of a sequence of entries.
pub open spec fn entry_names(v: Seq<PrefixedName>) -> Seq<Seq<char>> {
    v.map_values(|e: PrefixedName| e@)
}

/// The valid names of a listing.
pub open spec fn valid_of(v: Seq<Seq<char>>) -> Seq<Seq<char>> {
    v.filter(|s: Seq<char>| valid_name(s))
}

/// Entries are in non-decreasing order of their numbers.
pub open spec fn sorted_by_number(v: Seq<Seq<char>>) -> bool {
    forall|i: int, j: int|
        0 <= i <= j < v.len() ==> prefix_value(#[trigger] v[i]) <= prefix_value(#[trigger] v[j])
}

/// Every name of the sequence is valid.
pub open spec fn all_valid(v: Seq<Seq<char>>) -> bool {
    forall|i: int| 0 <= i < v.len() ==> valid_name(#[trigger] v[i])
}

/// `get_sorted_files_in_dir`: keeps the valid names of a directory listing and
/// orders them by number.
pub fn get_sorted_files_in_dir(listing: Vec<String>) -> (r: Vec<PrefixedName>)
    ensures
        all_valid(entry_names(r@)),
        sorted_by_number(entry_names(r@)),
        entry_names(r@).to_multiset() == valid_of(names_of(listing@)).to_multiset(),
{
    let ghost full = names_of(listing@);
    let mut rest = listing;
    let mut out: Vec<PrefixedName> = Vec::new();
    proof {
        broadcast use vstd::seq_lib::group_to_multiset_ensures;
        broadcast use vstd::multiset::group_multiset_axioms;

        assert(entry_names(out@) =~= Seq::<Seq<char>>::empty());
        assert(names_of(rest@) =~= full.subrange(0, rest@.len() as int));
        assert(entry_names(out@).to_multiset().add(valid_of(names_of(rest@)).to_multiset())
            =~= valid_of(full).to_multiset());
    }
    while rest.len() > 0
        invariant
            full.len() >= rest@.len(),
            names_of(rest@) == full.subrange(0, rest@.len() as int),
            all_valid(entry_names(out@)),
            sorted_by_number(entry_names(out@)),
            entry_names(out@).to_multiset().add(valid_of(names_of(rest@)).to_multiset())
                == valid_of(full).to_multiset(),
        decreases rest@.len(),
    {
        let ghost before = rest@;
        let s = rest.pop().unwrap();
        proof {
            assert(names_of(before).drop_last() =~= names_of(rest@));
            assert(names_of(before).last() == s@);
            reveal(Seq::filter);
            assert(names_of(rest@) =~= full.subrange(0, rest@.len() as int));
        }
        match PrefixedName::new(s) {
            Ok(e) => {
                let ghost key = prefix_value(e@);
                let _ = e.index();
                let ghost on = entry_names(out@);
                let mut j: usize = 0;
                while j < out.len()
                    invariant
                        j <= out@.len(),
                        on == entry_names(out@),
                        valid_name(e@),
                        key == prefix_value(e@),
                        forall|k: int| 0 <= k < j ==> prefix_value(#[trigger] on[k]) < key,
                    ensures
                        j <= out@.len(),
                        forall|k: int| 0 <= k < j ==> prefix_value(#[trigger] on[k]) < key,
                        j < out@.len() ==> prefix_value(on[j as int]) >= key,
                    decreases out@.len() - j,
                {
                    assert(on[j as int] == out@[j as int]@);
                    let _ = out[j].index();
                    if prefix_le(e.name(), out[j].name()) {
                        break;
                    }
                    j = j + 1;
                }
                let ghost ev = e@;
                proof {
                    if j < on.len() {
                        assert(on[j as int] == out@[j as int]@);
                    }
                }
                out.insert(j, e);
                proof {
                    let nn = entry_names(out@);
                    assert(nn =~= on.insert(j as int, ev));
                    vstd::seq_lib::to_multiset_insert(on, j as int, ev);
                    assert(valid_of(names_of(before)) =~= valid_of(names_of(rest@)).push(ev));
                    vstd::seq_lib::to_multiset_build(valid_of(names_of(rest@)), ev);
                    assert forall|a: int, b: int| 0 <= a <= b < nn.len() implies prefix_value(
                        #[trigger] nn[a],
                    ) <= prefix_value(#[trigger] nn[b]) by {
                        assert(sorted_by_number(on));
                        assert(prefix_value(ev) == key);
                        if a < j {
                            assert(nn[a] == on[a]);
                            assert(prefix_value(on[a]) < key);
                        }
                        if a == j {
                            assert(nn[a] == ev);
                        }
                        if a > j {
                            assert(nn[a] == on[a - 1]);
                        }
                        if b < j {
                            assert(nn[b] == on[b]);
                        }
                        if b == j {
                            assert(nn[b] == ev);
                        }
                        if b > j {
                            assert(nn[b] == on[b - 1]);
                            assert(prefix_value(on[j as int]) >= key);
                            assert(prefix_value(on[j as int]) <= prefix_value(on[b - 1]));
                        }
                        if a > j {
                            assert(prefix_value(on[a - 1]) <= prefix_value(on[b - 1]));
                        }
                        if a < j && b < j {
                            assert(prefix_value(on[a]) <= prefix_value(on[b]));
                        }
                    }
                    assert forall|a: int| 0 <= a < nn.len() implies valid_name(#[trigger] nn[a]) by {
                        if a < j {
                            assert(valid_name(on[a]));
                        } else if a > j {
                            assert(valid_name(on[a - 1]));
                        }
                    }
                }
            },
            Err(_) => {
                proof {
                    assert(valid_of(names_of(before)) =~= valid_of(names_of(rest@)));
                }
            },
        }
    }
    proof {
        broadcast use vstd::seq_lib::group_to_multiset_ensures;
        broadcast use vstd::multiset::group_multiset_axioms;

        assert(valid_of(names_of(rest@)) =~= Seq::<Seq<char>>::empty()) by {
            reveal(Seq::filter);
        }
        assert(entry_names(out@).to_multiset() =~= valid_of(full).to_multiset());
    }
    out
}

} // verus!
