//! The mathematical model of a frequency table held as a list of entries.
//!
//! A profile stores its counts as a vector of `(key, count)` pairs with
//! pairwise-distinct keys. These spec functions read such an entry sequence as
//! a multiset of key occurrences, as a per-key total, and as an overall total,
//! and the lemmas relate the three readings.

use vstd::multiset::Multiset;
use vstd::prelude::*;

verus! {

broadcast use vstd::multiset::group_multiset_axioms;

/// `c` occurrences of the key `k`.
pub open spec fn copies(k: Seq<char>, c: nat) -> Multiset<Seq<char>>
    decreases c,
{
    if c == 0 {
        Multiset::<Seq<char>>::empty()
    } else {
        copies(k, (c - 1) as nat).insert(k)
    }
}

/// `copies(k, c)` holds `c` occurrences of `k` and nothing else.
pub proof fn lemma_copies(k: Seq<char>, c: nat, x: Seq<char>)
    ensures
        copies(k, c).count(x) == if x == k {
            c
        } else {
            0nat
        },
        copies(k, c).len() == c,
    decreases c,
{
    if c > 0 {
        lemma_copies(k, (c - 1) as nat, x);
    }
}

/// The number of occurrences of the key `x` recorded by the entries.
pub open spec fn key_sum(s: Seq<(String, u32)>, x: Seq<char>) -> nat
    decreases s.len(),
{
    if s.len() == 0 {
        0nat
    } else {
        key_sum(s.drop_last(), x) + (if s.last().0@ == x {
            s.last().1 as nat
        } else {
            0nat
        })
    }
}

/// The total number of occurrences recorded by the entries.
pub open spec fn total_of(s: Seq<(String, u32)>) -> nat
    decreases s.len(),
{
    if s.len() == 0 {
        0nat
    } else {
        total_of(s.drop_last()) + s.last().1 as nat
    }
}

/// The multiset of key occurrences recorded by the entries.
pub open spec fn ms_of(s: Seq<(String, u32)>) -> Multiset<Seq<char>>
    decreases s.len(),
{
    if s.len() == 0 {
        Multiset::<Seq<char>>::empty()
    } else {
        ms_of(s.drop_last()).add(copies(s.last().0@, s.last().1 as nat))
    }
}

/// No two entries record the same key.
pub open spec fn distinct_keys(s: Seq<(String, u32)>) -> bool {
    forall|i: int, j: int| 0 <= i < j < s.len() ==> s[i].0@ != s[j].0@
}

/// The multiset reading counts each key exactly as `key_sum` does.
pub proof fn lemma_ms_of_count(s: Seq<(String, u32)>, x: Seq<char>)
    ensures
        ms_of(s).count(x) == key_sum(s, x),
    decreases s.len(),
{
    if s.len() > 0 {
        lemma_ms_of_count(s.drop_last(), x);
        lemma_copies(s.last().0@, s.last().1 as nat, x);
    }
}

/// The multiset reading is as large as the recorded total.
pub proof fn lemma_ms_of_len(s: Seq<(String, u32)>)
    ensures
        ms_of(s).len() == total_of(s),
    decreases s.len(),
{
    if s.len() > 0 {
        lemma_ms_of_len(s.drop_last());
        lemma_copies(s.last().0@, s.last().1 as nat, s.last().0@);
    }
}

/// A key recorded by no entry has a zero sum.
pub proof fn lemma_key_sum_absent(s: Seq<(String, u32)>, x: Seq<char>)
    requires
        forall|i: int| 0 <= i < s.len() ==> s[i].0@ != x,
    ensures
        key_sum(s, x) == 0,
    decreases s.len(),
{
    if s.len() > 0 {
        assert(forall|i: int| 0 <= i < s.len() - 1 ==> s.drop_last()[i].0@ != x);
        lemma_key_sum_absent(s.drop_last(), x);
    }
}

/// With distinct keys, an entry's key sums to exactly that entry's count.
pub proof fn lemma_key_sum_at(s: Seq<(String, u32)>, i: int)
    requires
        distinct_keys(s),
        0 <= i < s.len(),
    ensures
        key_sum(s, s[i].0@) == s[i].1 as nat,
    decreases s.len(),
{
    if i == s.len() - 1 {
        assert(forall|j: int| 0 <= j < s.len() - 1 ==> s.drop_last()[j].0@ != s[i].0@);
        lemma_key_sum_absent(s.drop_last(), s[i].0@);
    } else {
        assert(distinct_keys(s.drop_last()));
        lemma_key_sum_at(s.drop_last(), i);
        assert(s.drop_last()[i] == s[i]);
    }
}

/// No key sums to more than the total.
pub proof fn lemma_key_sum_le_total(s: Seq<(String, u32)>, x: Seq<char>)
    ensures
        key_sum(s, x) <= total_of(s),
    decreases s.len(),
{
    if s.len() > 0 {
        lemma_key_sum_le_total(s.drop_last(), x);
    }
}

/// Appending one entry adds its count to its key's sum and to the total.
pub proof fn lemma_push(s: Seq<(String, u32)>, p: (String, u32), x: Seq<char>)
    ensures
        key_sum(s.push(p), x) == key_sum(s, x) + (if p.0@ == x {
            p.1 as nat
        } else {
            0nat
        }),
        total_of(s.push(p)) == total_of(s) + p.1 as nat,
{
    assert(s.push(p).drop_last() =~= s);
    assert(s.push(p).last() == p);
}

/// Replacing one entry moves its key's sum and the total from the old
/// entry's count to the new entry's count.
pub proof fn lemma_update(s: Seq<(String, u32)>, i: int, p: (String, u32), x: Seq<char>)
    requires
        0 <= i < s.len(),
    ensures
        key_sum(s.update(i, p), x) + (if s[i].0@ == x {
            s[i].1 as nat
        } else {
            0nat
        }) == key_sum(s, x) + (if p.0@ == x {
            p.1 as nat
        } else {
            0nat
        }),
        total_of(s.update(i, p)) + s[i].1 as nat == total_of(s) + p.1 as nat,
    decreases s.len(),
{
    if i == s.len() - 1 {
        assert(s.update(i, p).drop_last() =~= s.drop_last());
        assert(s.update(i, p).last() == p);
    } else {
        assert(s.update(i, p).drop_last() =~= s.drop_last().update(i, p));
        assert(s.update(i, p).last() == s.last());
        assert(s.drop_last()[i] == s[i]);
        lemma_update(s.drop_last(), i, p, x);
    }
}

/// The sum, over the entries, of the smaller of the entry's count and the
/// key's count in `b`: the number of occurrences the entries share with `b`.
pub open spec fn min_sum(s: Seq<(String, u32)>, b: Multiset<Seq<char>>) -> nat
    decreases s.len(),
{
    if s.len() == 0 {
        0nat
    } else {
        min_sum(s.drop_last(), b) + vstd::math::min(
            s.last().1 as int,
            b.count(s.last().0@) as int,
        ) as nat
    }
}

/// A prefix of the entries records at most the whole total.
pub proof fn lemma_total_of_take(s: Seq<(String, u32)>, i: int)
    requires
        0 <= i <= s.len(),
    ensures
        total_of(s.take(i)) <= total_of(s),
    decreases s.len() - i,
{
    if i == s.len() {
        assert(s.take(i) =~= s);
    } else {
        lemma_total_of_take(s, i + 1);
        assert(s.take(i + 1).drop_last() =~= s.take(i));
        assert(s.take(i + 1).last() == s[i]);
    }
}

/// With distinct keys, the minimum sum against `b` is exactly the size of the
/// multiset intersection (per-key minimum of counts) of the entries' reading
/// with `b`.
pub proof fn lemma_min_sum_matches(s: Seq<(String, u32)>, b: Multiset<Seq<char>>)
    requires
        distinct_keys(s),
    ensures
        min_sum(s, b) == ms_of(s).intersection_with(b).len(),
    decreases s.len(),
{
    if s.len() == 0 {
        assert(ms_of(s).intersection_with(b) =~= Multiset::<Seq<char>>::empty()) by {
            assert forall|x: Seq<char>| ms_of(s).intersection_with(b).count(x) == 0nat by {
                vstd::multiset::lemma_intersection_count(ms_of(s), b, x);
            }
        }
    } else {
        let s0 = s.drop_last();
        let k = s.last().0@;
        let c = s.last().1 as nat;
        let cut = vstd::math::min(c as int, b.count(k) as int) as nat;
        assert(distinct_keys(s0));
        lemma_min_sum_matches(s0, b);
        assert(forall|j: int| 0 <= j < s0.len() ==> s0[j].0@ != k);
        lemma_key_sum_absent(s0, k);
        lemma_ms_of_count(s0, k);
        assert(ms_of(s).intersection_with(b) =~= ms_of(s0).intersection_with(b).add(
            copies(k, cut),
        )) by {
            assert forall|x: Seq<char>|
                ms_of(s).intersection_with(b).count(x) == ms_of(s0).intersection_with(b).count(x)
                    + copies(k, cut).count(x) by {
                vstd::multiset::lemma_intersection_count(ms_of(s), b, x);
                vstd::multiset::lemma_intersection_count(ms_of(s0), b, x);
                lemma_copies(k, cut, x);
                lemma_copies(k, c, x);
                lemma_ms_of_count(s0, x);
                lemma_ms_of_count(s, x);
                lemma_key_sum_le_total(s0, x);
                if x == k {
                    assert(ms_of(s).count(k) == key_sum(s, k));
                    assert(key_sum(s, k) == key_sum(s0, k) + c);
                } else {
                    assert(key_sum(s, x) == key_sum(s0, x));
                }
            }
        }
        lemma_copies(k, cut, k);
    }
}

} // verus!
