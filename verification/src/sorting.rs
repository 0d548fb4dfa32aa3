//! Stable insertion sort of command lanes by a case-insensitive key.
//!
//! The specification-level sort inserts each element after every element
//! whose key does not exceed its own, so entries with equal keys keep their
//! original relative order (the sort is stable).

use vstd::prelude::*;

use crate::order::le_ci;
use crate::order::lemma_lex_le_total;
use crate::order::lemma_lex_le_trans;
use crate::order::lex_le;
use crate::order::lower_of;

verus! {

/// Inserts `x` into the sorted sequence `s`, after all elements whose key is
/// less than or equal to the key of `x`.
pub open spec fn insert_by<T>(key: spec_fn(T) -> Seq<char>, s: Seq<T>, x: T) -> Seq<T>
    decreases s.len(),
{
    if s.len() == 0 {
        seq![x]
    } else if lex_le(key(s.last()), key(x)) {
        s.push(x)
    } else {
        insert_by(key, s.drop_last(), x).push(s.last())
    }
}

/// Stable insertion sort of `s` by `key`.
pub open spec fn sort_by<T>(key: spec_fn(T) -> Seq<char>, s: Seq<T>) -> Seq<T>
    decreases s.len(),
{
    if s.len() == 0 {
        Seq::empty()
    } else {
        insert_by(key, sort_by(key, s.drop_last()), s.last())
    }
}

/// Whether `s` is sorted ascending by `key`.
pub open spec fn sorted_by<T>(key: spec_fn(T) -> Seq<char>, s: Seq<T>) -> bool {
    forall|i: int, j: int| 0 <= i < j < s.len() ==> lex_le(key(s[i]), key(s[j]))
}

/// The position at which `insert_by` places `x` in `s`.
pub open spec fn insert_pos<T>(key: spec_fn(T) -> Seq<char>, s: Seq<T>, x: T) -> int
    decreases s.len(),
{
    if s.len() == 0 {
        0
    } else if lex_le(key(s.last()), key(x)) {
        s.len() as int
    } else {
        insert_pos(key, s.drop_last(), x)
    }
}

/// `insert_by` splits `s` at `insert_pos` and puts `x` between the parts;
/// everything at or after that position has a key strictly above the key of
/// `x`, and the element just before it (if any) has a key at or below it.
pub proof fn lemma_insert_by_shape<T>(key: spec_fn(T) -> Seq<char>, s: Seq<T>, x: T)
    ensures
        0 <= insert_pos(key, s, x) <= s.len(),
        insert_by(key, s, x) == s.take(insert_pos(key, s, x)).push(x) + s.skip(
            insert_pos(key, s, x),
        ),
        forall|m: int|
            insert_pos(key, s, x) <= m < s.len() ==> !lex_le(key(s[m]), key(x)),
        insert_pos(key, s, x) > 0 ==> lex_le(key(s[insert_pos(key, s, x) - 1]), key(x)),
    decreases s.len(),
{
    if s.len() == 0 {
        assert(insert_by(key, s, x) =~= s.take(0).push(x) + s.skip(0));
    } else if lex_le(key(s.last()), key(x)) {
        assert(s.take(s.len() as int) =~= s);
        assert(insert_by(key, s, x) =~= s.take(s.len() as int).push(x) + s.skip(
            s.len() as int,
        ));
    } else {
        lemma_insert_by_shape(key, s.drop_last(), x);
        let p = insert_pos(key, s.drop_last(), x);
        assert(s.drop_last().take(p) =~= s.take(p));
        assert(insert_by(key, s.drop_last(), x).push(s.last()) =~= s.take(p).push(x) + s.skip(
            p,
        ));
        assert forall|m: int| p <= m < s.len() implies !lex_le(key(s[m]), key(x)) by {
            if m < s.len() - 1 {
                assert(s.drop_last()[m] == s[m]);
            }
        }
        if p > 0 {
            assert(s.drop_last()[p - 1] == s[p - 1]);
        }
    }
}

/// Inserting into a sorted sequence keeps it sorted.
pub proof fn lemma_insert_by_sorted<T>(key: spec_fn(T) -> Seq<char>, s: Seq<T>, x: T)
    requires
        sorted_by(key, s),
    ensures
        sorted_by(key, insert_by(key, s, x)),
{
    lemma_insert_by_shape(key, s, x);
    let p = insert_pos(key, s, x);
    let r = insert_by(key, s, x);
    assert(r.len() == s.len() + 1);
    assert forall|i: int, j: int| 0 <= i < j < r.len() implies lex_le(key(r[i]), key(r[j])) by {
        assert(forall|m: int| 0 <= m < p ==> r[m] == s[m]);
        assert(r[p] == x);
        assert(forall|m: int| p < m < r.len() ==> r[m] == s[m - 1]);
        if i < p && j == p {
            if i < p - 1 {
                lemma_lex_le_trans(key(s[i]), key(s[p - 1]), key(x));
            }
        } else if i == p && j > p {
            lemma_lex_le_total(key(s[j - 1]), key(x));
        } else if i < p && j > p {
            if !(i < j - 1) {
                lemma_lex_le_total(key(s[j - 1]), key(x));
                lemma_lex_le_trans(key(s[i]), key(x), key(s[j - 1]));
            }
        }
    }
}

/// The result of `sort_by` is sorted.
pub proof fn lemma_sort_by_sorted<T>(key: spec_fn(T) -> Seq<char>, s: Seq<T>)
    ensures
        sorted_by(key, sort_by(key, s)),
    decreases s.len(),
{
    if s.len() > 0 {
        lemma_sort_by_sorted(key, s.drop_last());
        lemma_insert_by_sorted(key, sort_by(key, s.drop_last()), s.last());
    }
}

/// Sorting an already-sorted sequence yields the same sequence: together
/// with `lemma_sort_by_sorted`, sorting is idempotent.
pub proof fn lemma_sort_by_of_sorted<T>(key: spec_fn(T) -> Seq<char>, s: Seq<T>)
    requires
        sorted_by(key, s),
    ensures
        sort_by(key, s) == s,
    decreases s.len(),
{
    if s.len() == 0 {
        assert(sort_by(key, s) =~= s);
    } else {
        let dl = s.drop_last();
        assert(forall|m: int| 0 <= m < dl.len() ==> dl[m] == s[m]);
        lemma_sort_by_of_sorted(key, dl);
        if dl.len() > 0 {
            assert(lex_le(key(dl.last()), key(s.last())));
        }
        assert(insert_by(key, dl, s.last()) == dl.push(s.last()));
        assert(dl.push(s.last()) =~= s);
    }
}

/// Sorting is idempotent: sorting a sorted sequence changes nothing.
pub proof fn lemma_sort_by_idempotent<T>(key: spec_fn(T) -> Seq<char>, s: Seq<T>)
    ensures
        sort_by(key, sort_by(key, s)) == sort_by(key, s),
{
    lemma_sort_by_sorted(key, s);
    lemma_sort_by_of_sorted(key, sort_by(key, s));
}

/// Sorting rearranges and never adds, drops or changes an element: the
/// result holds the same elements as the input, as a multiset.
pub proof fn lemma_sort_by_multiset<T>(key: spec_fn(T) -> Seq<char>, s: Seq<T>)
    ensures
        sort_by(key, s).to_multiset() == s.to_multiset(),
    decreases s.len(),
{
    broadcast use vstd::seq_lib::group_to_multiset_ensures;
    broadcast use vstd::seq_lib::lemma_multiset_commutative;
    broadcast use vstd::multiset::group_multiset_axioms;

    if s.len() == 0 {
        assert(sort_by(key, s).to_multiset() =~= s.to_multiset());
    } else {
        lemma_sort_by_multiset(key, s.drop_last());
        let sorted = sort_by(key, s.drop_last());
        let x = s.last();
        lemma_insert_by_shape(key, sorted, x);
        let p = insert_pos(key, sorted, x);
        assert(insert_by(key, sorted, x).to_multiset() =~= sorted.to_multiset().insert(x)) by {
            assert(insert_by(key, sorted, x) == sorted.take(p).push(x) + sorted.skip(p));
            assert(sorted.take(p) + sorted.skip(p) =~= sorted);
        }
        assert(s.drop_last().push(x) =~= s);
        assert(s.drop_last().to_multiset().insert(x) =~= s.to_multiset());
        assert(sort_by(key, s).to_multiset() =~= s.to_multiset());
    }
}

/// The character sequences of a sequence of strings.
pub open spec fn strings_view(s: Seq<String>) -> Seq<Seq<char>> {
    s.map_values(|x: String| x@)
}

/// The character sequences of a sequence of string/flag pairs.
pub open spec fn pairs_view(s: Seq<(String, bool)>) -> Seq<(Seq<char>, bool)> {
    s.map_values(|x: (String, bool)| (x.0@, x.1))
}

/// The sort key of a plain command string: its lowercase form.
pub open spec fn lower_key() -> spec_fn(Seq<char>) -> Seq<char> {
    |t: Seq<char>| lower_of(t)
}

/// The sort key of a command/flag pair: the lowercase form of the command.
pub open spec fn pair_lower_key() -> spec_fn((Seq<char>, bool)) -> Seq<char> {
    |p: (Seq<char>, bool)| lower_of(p.0)
}

/// Sorts a lane of plain command strings by their lowercase forms, stably.
pub fn sort_strings(v: &mut Vec<String>)
    ensures
        strings_view(final(v)@) == sort_by(lower_key(), strings_view(old(v)@)),
{
    let ghost orig = old(v)@;
    if v.len() == 0 {
        proof {
            assert(strings_view(v@) =~= Seq::<Seq<char>>::empty());
            assert(sort_by(lower_key(), strings_view(orig)) == strings_view(v@));
        }
        return;
    }
    proof {
        let sv1 = strings_view(orig.take(1));
        assert(sv1.len() == 1);
        assert(sv1.drop_last() =~= Seq::<Seq<char>>::empty());
        assert(sort_by(lower_key(), sv1.drop_last()) == Seq::<Seq<char>>::empty());
        assert(insert_by(lower_key(), Seq::<Seq<char>>::empty(), sv1.last()) == seq![
            sv1.last(),
        ]);
        assert(sv1 =~= seq![sv1.last()]);
        assert(strings_view(v@.take(1)) =~= sv1);
    }
    let mut i: usize = 1;
    while i < v.len()
        invariant
            1 <= i <= v@.len(),
            v@.len() == orig.len(),
            strings_view(v@.take(i as int)) == sort_by(
                lower_key(),
                strings_view(orig.take(i as int)),
            ),
            v@.skip(i as int) == orig.skip(i as int),
        decreases v@.len() - i,
    {
        let ghost before = v@;
        let x = v.remove(i);
        let ghost sp = strings_view(before.take(i as int));
        let ghost xv = x@;
        proof {
            assert(before.skip(i as int)[0] == before[i as int]);
            assert(orig.skip(i as int)[0] == orig[i as int]);
            assert(v@.take(i as int) =~= before.take(i as int));
            assert(v@.skip(i as int) =~= before.skip(i + 1));
            assert(sp.take(i as int) =~= sp);
        }
        let mut j: usize = i;
        while j > 0 && !le_ci(v[j - 1].as_str(), x.as_str())
            invariant
                j <= i,
                i < v@.len() + 1,
                sp == strings_view(v@.take(i as int)),
                sp.len() == i,
                xv == x@,
                insert_pos(lower_key(), sp, xv) == insert_pos(
                    lower_key(),
                    sp.take(j as int),
                    xv,
                ),
                forall|m: int| j <= m < i ==> !lex_le(lower_of(#[trigger] sp[m]), lower_of(xv)),
            decreases j,
        {
            proof {
                assert(v@.take(i as int)[j - 1] == v@[j - 1]);
                assert(sp[j - 1] == v@[j - 1]@);
                assert(sp.take(j as int).drop_last() =~= sp.take(j - 1));
                assert(sp.take(j as int).last() == sp[j - 1]);
            }
            j = j - 1;
        }
        proof {
            if j > 0 {
                assert(v@.take(i as int)[j - 1] == v@[j - 1]);
                assert(sp[j - 1] == v@[j - 1]@);
                assert(sp.take(j as int).last() == sp[j - 1]);
                assert(insert_pos(lower_key(), sp.take(j as int), xv) == j);
            } else {
                assert(sp.take(0) =~= Seq::<Seq<char>>::empty());
                assert(insert_pos(lower_key(), sp.take(0), xv) == 0);
            }
        }
        let ghost removed = v@;
        v.insert(j, x);
        proof {
            lemma_insert_by_shape(lower_key(), sp, xv);
            assert(insert_by(lower_key(), sp, xv) == sp.take(j as int).push(xv) + sp.skip(
                j as int,
            ));
            assert(v@ == removed.insert(j as int, x));
            assert(strings_view(v@.take(i + 1)) =~= sp.take(j as int).push(xv) + sp.skip(
                j as int,
            ));
            let svi1 = strings_view(orig.take(i + 1));
            assert(svi1.drop_last() =~= strings_view(orig.take(i as int)));
            assert(svi1.last() == xv);
            assert(sort_by(lower_key(), svi1) == insert_by(
                lower_key(),
                sort_by(lower_key(), strings_view(orig.take(i as int))),
                xv,
            ));
            assert(strings_view(v@.take(i + 1)) == sort_by(lower_key(), svi1));
            assert forall|m: int| i + 1 <= m < orig.len() implies v@[m] == orig[m] by {
                assert(removed[m - 1] == before[m]);
                assert(before.skip(i as int)[m - i] == before[m]);
                assert(orig.skip(i as int)[m - i] == orig[m]);
            }
            assert(v@.skip(i + 1) =~= orig.skip(i + 1));
        }
        i = i + 1;
    }
    proof {
        assert(v@.take(i as int) =~= v@);
        assert(orig.take(i as int) =~= orig);
    }
}

/// Sorts a lane of command/flag pairs by the lowercase form of the command,
/// stably; the flags travel with their commands.
pub fn sort_pairs(v: &mut Vec<(String, bool)>)
    ensures
        pairs_view(final(v)@) == sort_by(pair_lower_key(), pairs_view(old(v)@)),
{
    let ghost orig = old(v)@;
    if v.len() == 0 {
        proof {
            assert(pairs_view(v@) =~= Seq::<(Seq<char>, bool)>::empty());
            assert(sort_by(pair_lower_key(), pairs_view(orig)) == pairs_view(v@));
        }
        return;
    }
    proof {
        let sv1 = pairs_view(orig.take(1));
        assert(sv1.len() == 1);
        assert(sv1.drop_last() =~= Seq::<(Seq<char>, bool)>::empty());
        assert(sort_by(pair_lower_key(), sv1.drop_last()) == Seq::<(Seq<char>, bool)>::empty());
        assert(insert_by(pair_lower_key(), Seq::<(Seq<char>, bool)>::empty(), sv1.last())
            == seq![sv1.last()]);
        assert(sv1 =~= seq![sv1.last()]);
        assert(pairs_view(v@.take(1)) =~= sv1);
    }
    let mut i: usize = 1;
    while i < v.len()
        invariant
            1 <= i <= v@.len(),
            v@.len() == orig.len(),
            pairs_view(v@.take(i as int)) == sort_by(
                pair_lower_key(),
                pairs_view(orig.take(i as int)),
            ),
            v@.skip(i as int) == orig.skip(i as int),
        decreases v@.len() - i,
    {
        let ghost before = v@;
        let x = v.remove(i);
        let ghost sp = pairs_view(before.take(i as int));
        let ghost xv = (x.0@, x.1);
        proof {
            assert(before.skip(i as int)[0] == before[i as int]);
            assert(orig.skip(i as int)[0] == orig[i as int]);
            assert(v@.take(i as int) =~= before.take(i as int));
            assert(v@.skip(i as int) =~= before.skip(i + 1));
            assert(sp.take(i as int) =~= sp);
        }
        let mut j: usize = i;
        while j > 0 && !le_ci(v[j - 1].0.as_str(), x.0.as_str())
            invariant
                j <= i,
                i < v@.len() + 1,
                sp == pairs_view(v@.take(i as int)),
                sp.len() == i,
                xv == (x.0@, x.1),
                insert_pos(pair_lower_key(), sp, xv) == insert_pos(
                    pair_lower_key(),
                    sp.take(j as int),
                    xv,
                ),
                forall|m: int|
                    j <= m < i ==> !lex_le(lower_of((#[trigger] sp[m]).0), lower_of(xv.0)),
            decreases j,
        {
            proof {
                assert(v@.take(i as int)[j - 1] == v@[j - 1]);
                assert(sp[j - 1] == (v@[j - 1].0@, v@[j - 1].1));
                assert(sp.take(j as int).drop_last() =~= sp.take(j - 1));
                assert(sp.take(j as int).last() == sp[j - 1]);
            }
            j = j - 1;
        }
        proof {
            if j > 0 {
                assert(v@.take(i as int)[j - 1] == v@[j - 1]);
                assert(sp[j - 1] == (v@[j - 1].0@, v@[j - 1].1));
                assert(sp.take(j as int).last() == sp[j - 1]);
                assert(insert_pos(pair_lower_key(), sp.take(j as int), xv) == j);
            } else {
                assert(sp.take(0) =~= Seq::<(Seq<char>, bool)>::empty());
                assert(insert_pos(pair_lower_key(), sp.take(0), xv) == 0);
            }
        }
        let ghost removed = v@;
        v.insert(j, x);
        proof {
            lemma_insert_by_shape(pair_lower_key(), sp, xv);
            assert(insert_by(pair_lower_key(), sp, xv) == sp.take(j as int).push(xv) + sp.skip(
                j as int,
            ));
            assert(v@ == removed.insert(j as int, x));
            assert(pairs_view(v@.take(i + 1)) =~= sp.take(j as int).push(xv) + sp.skip(
                j as int,
            ));
            let svi1 = pairs_view(orig.take(i + 1));
            assert(svi1.drop_last() =~= pairs_view(orig.take(i as int)));
            assert(svi1.last() == xv);
            assert(sort_by(pair_lower_key(), svi1) == insert_by(
                pair_lower_key(),
                sort_by(pair_lower_key(), pairs_view(orig.take(i as int))),
                xv,
            ));
            assert(pairs_view(v@.take(i + 1)) == sort_by(pair_lower_key(), svi1));
            assert forall|m: int| i + 1 <= m < orig.len() implies v@[m] == orig[m] by {
                assert(removed[m - 1] == before[m]);
                assert(before.skip(i as int)[m - i] == before[m]);
                assert(orig.skip(i as int)[m - i] == orig[m]);
            }
            assert(v@.skip(i + 1) =~= orig.skip(i + 1));
        }
        i = i + 1;
    }
    proof {
        assert(v@.take(i as int) =~= v@);
        assert(orig.take(i as int) =~= orig);
    }
}

} // verus!
