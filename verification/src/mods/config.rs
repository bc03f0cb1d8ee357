use vstd::prelude::*;

use super::types::{names_of, Config, PCHStdError};

verus! {

broadcast use vstd::seq_lib::group_seq_properties;

/// What a removal did with one of the names it was given.
#[derive(Debug, Clone, Copy, PartialEq, Eq, Structural)]
pub enum RemoveOutcome {
    /// The first occurrence of the name was taken out.
    Removed,
    /// The name was not configured; nothing changed.
    NotFound,
}

/// The names after `data` was removed from `names`, one by one and in order:
/// each removes the first occurrence of itself that is left, if any.
pub open spec fn removed_names(names: Seq<Seq<char>>, data: Seq<Seq<char>>) -> Seq<Seq<char>>
    decreases data.len(),
{
    if data.len() == 0 {
        names
    } else {
        removed_names(names, data.drop_last()).remove_value(data.last())
    }
}

/// What the removal of `data` from `names` reports for the name at `i`:
/// `Removed` when that name was still configured at its turn.
pub open spec fn remove_outcome(names: Seq<Seq<char>>, data: Seq<Seq<char>>, i: int) -> RemoveOutcome {
    if removed_names(names, data.take(i)).contains(data[i]) {
        RemoveOutcome::Removed
    } else {
        RemoveOutcome::NotFound
    }
}

/// Removing the value at its first occurrence `p`.
proof fn lemma_remove_value_at(s: Seq<Seq<char>>, x: Seq<char>, p: int)
    requires
        0 <= p < s.len(),
        s[p] == x,
        forall|j: int| 0 <= j < p ==> s[j] != x,
    ensures
        s.remove_value(x) == s.remove(p),
{
    s.index_of_first_ensures(x);
    let idx = s.index_of_first(x).unwrap();
    if idx < p {
        assert(s[idx] == x);
    } else if idx > p {
        assert(s[p] == x);
    }
}

/// Removing a value that does not occur changes nothing.
proof fn lemma_remove_value_absent(s: Seq<Seq<char>>, x: Seq<char>)
    requires
        !s.contains(x),
    ensures
        s.remove_value(x) == s,
{
    s.index_of_first_ensures(x);
}

/// Finds the first position of `name` in `names`.
fn find_name(names: &Vec<String>, name: &String) -> (r: Option<usize>)
    ensures
        match r {
            Some(p) => {
                &&& p < names.len()
                &&& names_of(names@)[p as int] == name@
                &&& forall|j: int| 0 <= j < p ==> names_of(names@)[j] != name@
            },
            None => !names_of(names@).contains(name@),
        },
{
    let mut i: usize = 0;
    while i < names.len()
        invariant
            i <= names.len(),
            forall|j: int| 0 <= j < i ==> names_of(names@)[j] != name@,
        decreases names.len() - i,
    {
        if names[i] == *name {
            return Some(i);
        }
        i = i + 1;
    }
    assert forall|j: int| 0 <= j < names_of(names@).len() implies names_of(names@)[j] != name@ by {}
    None
}

/// Adds the names in `data` to the end of the configuration, in order.
/// Without names it fails with `EmptyInput` and changes nothing.
pub fn add(config: &mut Config, data: &Option<Vec<String>>) -> (r: Result<(), PCHStdError>)
    ensures
        match data {
            Some(d) => r is Ok && final(config)@ == old(config)@ + names_of(d@),
            None => r == Err::<(), PCHStdError>(PCHStdError::EmptyInput) && final(config)@ == old(
                config,
            )@,
        },
{
    match data {
        None => Err(PCHStdError::EmptyInput),
        Some(d) => {
            let ghost start = config@;
            let mut i: usize = 0;
            while i < d.len()
                invariant
                    i <= d.len(),
                    config@ == start + names_of(d@).take(i as int),
                decreases d.len() - i,
            {
                let ghost before = config@;
                config.file_names.push(d[i].clone());
                assert(config@ =~= before.push(d@[i as int]@));
                assert(names_of(d@).take(i + 1) =~= names_of(d@).take(i as int).push(d@[i as int]@));
                i = i + 1;
            }
            assert(names_of(d@).take(d.len() as int) =~= names_of(d@));
            Ok(())
        }
    }
}

/// Removes the names in `data` from the configuration, one by one and in
/// order; each takes out the first occurrence of itself that is left. The
/// result tells, for each name, whether it was found. Without names it fails
/// with `EmptyInput` and changes nothing.
pub fn remove(config: &mut Config, data: &Option<Vec<String>>) -> (r: Result<
    Vec<RemoveOutcome>,
    PCHStdError,
>)
    ensures
        match data {
            Some(d) => {
                &&& final(config)@ == removed_names(old(config)@, names_of(d@))
                &&& r is Ok
                &&& r->Ok_0.len() == d.len()
                &&& forall|i: int|
                    0 <= i < d.len() ==> #[trigger] r->Ok_0[i] == remove_outcome(
                        old(config)@,
                        names_of(d@),
                        i,
                    )
            },
            None => r == Err::<Vec<RemoveOutcome>, PCHStdError>(PCHStdError::EmptyInput)
                && final(config)@ == old(config)@,
        },
{
    match data {
        None => Err(PCHStdError::EmptyInput),
        Some(d) => {
            let ghost start = config@;
            let ghost all = names_of(d@);
            let mut outcomes: Vec<RemoveOutcome> = Vec::new();
            let mut i: usize = 0;
            while i < d.len()
                invariant
                    i <= d.len(),
                    all == names_of(d@),
                    config@ == removed_names(start, all.take(i as int)),
                    outcomes.len() == i,
                    forall|j: int| 0 <= j < i ==> #[trigger] outcomes@[j] == remove_outcome(start, all, j),
                decreases d.len() - i,
            {
                let ghost before = config@;
                assert(all.take(i + 1).drop_last() =~= all.take(i as int));
                assert(all.take(i + 1).last() == all[i as int]);
                match find_name(&config.file_names, &d[i]) {
                    Some(p) => {
                        proof {
                            lemma_remove_value_at(before, all[i as int], p as int);
                        }
                        config.file_names.remove(p);
                        assert(config@ =~= before.remove(p as int));
                        outcomes.push(RemoveOutcome::Removed);
                    },
                    None => {
                        proof {
                            lemma_remove_value_absent(before, all[i as int]);
                        }
                        outcomes.push(RemoveOutcome::NotFound);
                    },
                }
                i = i + 1;
            }
            assert(all.take(d.len() as int) =~= all);
            Ok(outcomes)
        }
    }
}

/// The names left after removing the first `k` entries of `data` from
/// `names + data`, when no entry of `data` occurs in `names`.
proof fn lemma_remove_appended_prefix(names: Seq<Seq<char>>, data: Seq<Seq<char>>, k: int)
    requires
        0 <= k <= data.len(),
        forall|i: int| 0 <= i < data.len() ==> !names.contains(#[trigger] data[i]),
    ensures
        removed_names(names + data, data.take(k)) == names + data.skip(k),
    decreases k,
{
    if k == 0 {
        assert(data.take(0) =~= Seq::<Seq<char>>::empty());
        assert(data.skip(0) =~= data);
    } else {
        lemma_remove_appended_prefix(names, data, k - 1);
        assert(data.take(k).drop_last() =~= data.take(k - 1));
        let s = names + data.skip(k - 1);
        let x = data[k - 1];
        assert(s[names.len() as int] == x);
        assert forall|j: int| 0 <= j < names.len() implies s[j] != x by {
            if s[j] == x {
                assert(names[j] == x);
                assert(names.contains(x));
            }
        }
        lemma_remove_value_at(s, x, names.len() as int);
        assert(s.remove(names.len() as int) =~= names + data.skip(k));
    }
}

/// Adding names and then removing the same names gives back the original
/// configuration exactly, when none of those names was configured before.
pub proof fn lemma_add_then_remove_restores(names: Seq<Seq<char>>, data: Seq<Seq<char>>)
    requires
        forall|i: int| 0 <= i < data.len() ==> !names.contains(#[trigger] data[i]),
    ensures
        removed_names(names + data, data) == names,
{
    lemma_remove_appended_prefix(names, data, data.len() as int);
    assert(data.take(data.len() as int) =~= data);
    assert(names + data.skip(data.len() as int) =~= names);
}

/// Removing names that are all present, counted with multiplicity, takes
/// exactly those names out of the multiset of configured names.
proof fn lemma_removed_multiset(s: Seq<Seq<char>>, d: Seq<Seq<char>>)
    requires
        d.to_multiset().subset_of(s.to_multiset()),
    ensures
        removed_names(s, d).to_multiset() == s.to_multiset().sub(d.to_multiset()),
    decreases d.len(),
{
    broadcast use vstd::multiset::group_multiset_axioms;

    if d.len() == 0 {
        assert(d.to_multiset() =~= vstd::multiset::Multiset::<Seq<char>>::empty());
        assert(s.to_multiset().sub(d.to_multiset()) =~= s.to_multiset());
    } else {
        let dp = d.drop_last();
        let x = d.last();
        assert(d =~= dp.push(x));
        assert(d.to_multiset() =~= dp.to_multiset().insert(x));
        assert(dp.to_multiset().subset_of(s.to_multiset())) by {
            assert forall|y: Seq<char>| dp.to_multiset().count(y) <= s.to_multiset().count(y) by {
                assert(dp.to_multiset().count(y) <= d.to_multiset().count(y));
            }
        }
        lemma_removed_multiset(s, dp);
        let r = removed_names(s, dp);
        assert(r.to_multiset().count(x) > 0) by {
            assert(d.to_multiset().count(x) == dp.to_multiset().count(x) + 1);
            assert(d.to_multiset().count(x) <= s.to_multiset().count(x));
        }
        assert(r.contains(x));
        r.index_of_first_ensures(x);
        let p = r.index_of_first(x).unwrap();
        assert(r.remove_value(x) == r.remove(p));
        assert(r.remove(p).to_multiset() == r.to_multiset().remove(x));
        assert(r.remove(p).to_multiset() =~= s.to_multiset().sub(d.to_multiset()));
    }
}

/// Adding names and then removing the same names leaves the same names
/// configured, each as many times as before (the order may differ when a
/// removed name was configured before).
pub proof fn lemma_add_then_remove_same_multiset(names: Seq<Seq<char>>, data: Seq<Seq<char>>)
    ensures
        removed_names(names + data, data).to_multiset() == names.to_multiset(),
{
    broadcast use vstd::multiset::group_multiset_axioms;

    vstd::seq_lib::lemma_multiset_commutative(names, data);
    lemma_removed_multiset(names + data, data);
    assert(names.to_multiset().add(data.to_multiset()).sub(data.to_multiset())
        =~= names.to_multiset());
}

/// Removing a name that is not configured leaves the configuration as it was.
pub proof fn lemma_remove_absent_keeps(names: Seq<Seq<char>>, data: Seq<Seq<char>>)
    requires
        forall|i: int| 0 <= i < data.len() ==> !names.contains(#[trigger] data[i]),
    ensures
        removed_names(names, data) == names,
    decreases data.len(),
{
    if data.len() > 0 {
        lemma_remove_absent_keeps(names, data.drop_last());
        assert(data.drop_last().len() < data.len());
        lemma_remove_value_absent(names, data.last());
    }
}

} // verus!
