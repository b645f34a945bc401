//! The laws of profiles and their Dice similarity score, stated over the
//! multiset model.
//!
//! The executable score is the fraction `2 * matches / (size(a) + size(b))`,
//! where `matches` counts the occurrences the two profiles share: for every
//! key, the smaller of its two counts. These lemmas pin down how profiles
//! accumulate and how the numerator behaves, for all profiles, not just
//! tested ones.

use vstd::multiset::Multiset;
use vstd::prelude::*;

verus! {

broadcast use vstd::multiset::group_multiset_axioms;

/// The matched occurrences between two profiles: the size of the multiset
/// intersection, which takes the per-key minimum of the two counts.
pub open spec fn dice_matches(a: Multiset<Seq<char>>, b: Multiset<Seq<char>>) -> nat {
    a.intersection_with(b).len()
}

/// The score is symmetric: the matched occurrences (and with them the whole
/// fraction, whose denominator is a plain sum) do not depend on the order of
/// the two profiles.
pub proof fn lemma_dice_symmetric(a: Multiset<Seq<char>>, b: Multiset<Seq<char>>)
    ensures
        dice_matches(a, b) == dice_matches(b, a),
{
    assert(a.intersection_with(b) =~= b.intersection_with(a)) by {
        assert forall|x: Seq<char>|
            a.intersection_with(b).count(x) == b.intersection_with(a).count(x) by {
            vstd::multiset::lemma_intersection_count(a, b, x);
            vstd::multiset::lemma_intersection_count(b, a, x);
        }
    }
}

/// A profile matched against itself matches every one of its occurrences, so
/// the fraction is `2 * len / (len + len)`: one, whenever the profile is not
/// empty.
pub proof fn lemma_dice_self(a: Multiset<Seq<char>>)
    ensures
        dice_matches(a, a) == a.len(),
{
    assert(a.intersection_with(a) =~= a) by {
        assert forall|x: Seq<char>| a.intersection_with(a).count(x) == a.count(x) by {
            vstd::multiset::lemma_intersection_count(a, a, x);
        }
    }
}

/// Profiles that share no key match nothing, so the score is zero.
pub proof fn lemma_dice_disjoint(a: Multiset<Seq<char>>, b: Multiset<Seq<char>>)
    requires
        a.is_disjoint_from(b),
    ensures
        dice_matches(a, b) == 0,
{
    assert(a.intersection_with(b) =~= Multiset::<Seq<char>>::empty()) by {
        assert forall|x: Seq<char>| a.intersection_with(b).count(x) == 0nat by {
            vstd::multiset::lemma_intersection_count(a, b, x);
        }
    }
}

/// The matched occurrences never exceed either profile's size; twice the
/// matches therefore never exceed the sum of the sizes, which bounds the
/// score by one (and, being a count, below by zero).
pub proof fn lemma_dice_bounds(a: Multiset<Seq<char>>, b: Multiset<Seq<char>>)
    ensures
        dice_matches(a, b) <= a.len(),
        dice_matches(a, b) <= b.len(),
        2 * dice_matches(a, b) <= a.len() + b.len(),
{
    let i = a.intersection_with(b);
    assert forall|x: Seq<char>| i.count(x) <= a.count(x) && i.count(x) <= b.count(x) by {
        vstd::multiset::lemma_intersection_count(a, b, x);
    }
    assert(a =~= i.add(a.sub(i)));
    assert(b =~= i.add(b.sub(i)));
}

/// Counts accumulate: extending a profile with one n-gram stream and then
/// another leaves the same profile as extending it with the two streams'
/// concatenation in one step.
pub proof fn lemma_counts_accumulate(
    m: Multiset<Seq<char>>,
    g1: Seq<Seq<char>>,
    g2: Seq<Seq<char>>,
)
    ensures
        m.add(g1.to_multiset()).add(g2.to_multiset()) == m.add((g1 + g2).to_multiset()),
{
    vstd::seq_lib::lemma_multiset_commutative(g1, g2);
    assert(m.add(g1.to_multiset()).add(g2.to_multiset()) =~= m.add((g1 + g2).to_multiset()));
}

} // verus!
