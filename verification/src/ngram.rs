//! The n-gram frequency profile and its operations.

use crate::counts::{
    distinct_keys, lemma_key_sum_absent, lemma_key_sum_at, lemma_key_sum_le_total,
    lemma_min_sum_matches, lemma_ms_of_count, lemma_ms_of_len, lemma_push, lemma_total_of_take,
    lemma_update, min_sum, ms_of, total_of,
};
use crate::laws::dice_matches;
use crate::text::{gram_stream, grams, join_words, lemma_tokens_first, lemma_tokens_len, tokens};
use vstd::multiset::Multiset;
use vstd::prelude::*;
use vstd::string::StrSliceExecFns;
use vstd::string::StringExecFns;

verus! {

broadcast use vstd::multiset::group_multiset_axioms;

/// A frequency profile of the n-grams of one or more texts.
///
/// Abstractly the profile is a multiset of n-gram occurrences (its view) and a
/// window size: each occurrence is `window()` consecutive tokens of an
/// analyzed text, joined with single spaces. Concretely the counts live in a
/// vector of `(key, count)` entries with pairwise-distinct keys, and the total
/// occurrence count is kept alongside, updated on every insertion rather than
/// recomputed.
pub struct NgramSet {
    items: Vec<(String, u32)>,
    n: u8,
    size: usize,
}

impl View for NgramSet {
    type V = Multiset<Seq<char>>;

    closed spec fn view(&self) -> Multiset<Seq<char>> {
        ms_of(self.items@)
    }
}

impl NgramSet {
    /// The window size: how many consecutive tokens form one n-gram.
    pub closed spec fn window(&self) -> nat {
        self.n as nat
    }

    #[verifier::type_invariant]
    closed spec fn wf(&self) -> bool {
        &&& 1 <= self.n
        &&& distinct_keys(self.items@)
        &&& (forall|i: int| 0 <= i < self.items@.len() ==> 1 <= #[trigger] self.items@[i].1)
        &&& self.size == total_of(self.items@)
        &&& self.size <= u32::MAX
    }

    /// An empty profile for n-grams of `n` consecutive tokens. A window of
    /// zero tokens is degenerate and is rejected at construction.
    pub fn new(n: u8) -> (r: NgramSet)
        requires
            1 <= n,
        ensures
            r@ == Multiset::<Seq<char>>::empty(),
            r.window() == n as nat,
    {
        NgramSet { items: Vec::new(), n, size: 0 }
    }

    /// The total number of n-gram occurrences observed, counting repeats —
    /// not the number of distinct n-grams.
    pub fn len(&self) -> (r: usize)
        ensures
            r == self@.len(),
    {
        proof {
            use_type_invariant(self);
            lemma_ms_of_len(self.items@);
        }
        self.size
    }

    /// Whether no n-gram occurrence has been observed at all.
    pub fn is_empty(&self) -> (r: bool)
        ensures
            r == (self@.len() == 0),
    {
        proof {
            use_type_invariant(self);
            lemma_ms_of_len(self.items@);
        }
        self.size == 0
    }

    /// The window size the profile was constructed with.
    pub fn sequence_length(&self) -> (n: u8)
        ensures
            n as nat == self.window(),
            1 <= n,
    {
        proof {
            use_type_invariant(self);
        }
        self.n
    }

    /// The occurrence count recorded for an exact n-gram key, zero if the key
    /// was never observed. Never an error.
    pub fn get(&self, gram: &str) -> (count: u32)
        ensures
            count as nat == self@.count(gram@),
    {
        proof {
            use_type_invariant(self);
            lemma_ms_of_count(self.items@, gram@);
        }
        match find_key(&self.items, gram) {
            Some(i) => {
                proof {
                    lemma_key_sum_at(self.items@, i as int);
                }
                self.items[i].1
            },
            None => {
                proof {
                    lemma_key_sum_absent(self.items@, gram@);
                }
                0
            },
        }
    }
}

impl NgramSet {
    /// A profile of one text: an empty profile extended by one analysis pass.
    pub fn from_str(s: &str, n: u8) -> (r: NgramSet)
        requires
            1 <= n,
            s@.len() + 1 <= u32::MAX,
        ensures
            r@ == gram_stream(s@, n as nat).to_multiset(),
            r.window() == n as nat,
    {
        let mut set = NgramSet::new(n);
        set.analyze(s);
        proof {
            assert(set@ =~= gram_stream(s@, n as nat).to_multiset());
        }
        set
    }

    /// One analysis pass: split `s` on the single space character, slide a
    /// window of `window()` consecutive tokens across the token stream one
    /// token at a time, and count each window's joined text as one more
    /// occurrence. Counts accumulate over repeated calls; a text with fewer
    /// tokens than the window leaves the profile unchanged.
    pub fn analyze(&mut self, s: &str)
        requires
            old(self)@.len() + s@.len() + 1 <= u32::MAX,
        ensures
            final(self)@ == old(self)@.add(
                gram_stream(s@, old(self).window()).to_multiset(),
            ),
            final(self)@.len() == old(self)@.len() + gram_stream(s@, old(self).window()).len(),
            final(self).window() == old(self).window(),
            tokens(s@).len() < old(self).window() ==> final(self)@ == old(self)@,
    {
        proof {
            use_type_invariant(&*self);
            lemma_ms_of_len(self.items@);
            lemma_tokens_len(s@);
        }
        let mut work = NgramSet { items: Vec::new(), n: self.n, size: 0 };
        core::mem::swap(&mut work, self);
        let ghost old_ms = work@;
        let nw: usize = work.n as usize;
        let toks = split_spaces(s);
        let ghost tv = toks@.map_values(|t: String| t@);
        let ghost gs = grams(tv, work.n as nat);
        if nw <= toks.len() {
            let windows: usize = toks.len() - nw + 1;
            assert(gs.len() == windows);
            proof {
                assert(gs.take(0) =~= Seq::<Seq<char>>::empty());
                vstd::seq_lib::to_multiset_len(gs.take(0));
                assert(work@ =~= old_ms.add(gs.take(0).to_multiset()));
            }
            let mut p: usize = 0;
            while p < windows
                invariant
                    p <= windows,
                    1 <= nw <= tv.len(),
                    windows == tv.len() - nw + 1,
                    toks@.map_values(|t: String| t@) == tv,
                    windows <= u32::MAX - old_ms.len(),
                    gs == grams(tv, nw as nat),
                    gs.len() == windows,
                    work.window() == nw as nat,
                    work@ == old_ms.add(gs.take(p as int).to_multiset()),
                    work@.len() == old_ms.len() + p,
                decreases windows - p,
            {
                let key = join_range(&toks, p, nw);
                assert(key@ == gs[p as int]);
                proof {
                    vstd::seq_lib::to_multiset_len(gs.take(p as int));
                }
                work = work.add_gram(key);
                proof {
                    assert(gs.take(p + 1).drop_last() =~= gs.take(p as int));
                    assert(gs.take(p + 1) =~= gs.take(p as int).push(gs[p as int]));
                    vstd::seq_lib::to_multiset_build(gs.take(p as int), gs[p as int]);
                    assert(work@ =~= old_ms.add(gs.take(p + 1).to_multiset()));
                    vstd::seq_lib::to_multiset_len(gs.take(p + 1));
                }
                p += 1;
            }
            proof {
                assert(gs.take(windows as int) =~= gs);
            }
        } else {
            proof {
                assert(gs =~= Seq::<Seq<char>>::empty());
                vstd::seq_lib::to_multiset_len(gs);
                assert(work@ =~= old_ms.add(gs.to_multiset()));
            }
        }
        core::mem::swap(&mut work, self);
        proof {
            vstd::seq_lib::to_multiset_len(gs);
            if tokens(s@).len() < self.window() {
                assert(self@ =~= old_ms);
            }
        }
    }

    /// Record one more occurrence of the n-gram `gram`.
    fn add_gram(self, gram: String) -> (r: Self)
        requires
            self@.len() < u32::MAX,
        ensures
            r@ == self@.insert(gram@),
            r.window() == self.window(),
            r@.len() == self@.len() + 1,
    {
        proof {
            use_type_invariant(&self);
            lemma_ms_of_len(self.items@);
        }
        let NgramSet { mut items, n, size } = self;
        let ghost s0 = items@;
        let found = find_key(&items, gram.as_str());
        match found {
            Some(i) => {
                proof {
                    lemma_key_sum_at(s0, i as int);
                    lemma_key_sum_le_total(s0, gram@);
                    lemma_ms_of_count(s0, gram@);
                }
                let c = items[i].1;
                items[i] = (gram, c + 1);
                proof {
                    let s1 = items@;
                    assert forall|x: Seq<char>| #[trigger]
                        ms_of(s1).count(x) == ms_of(s0).insert(gram@).count(x) by {
                        lemma_update(s0, i as int, s1[i as int], x);
                        lemma_ms_of_count(s0, x);
                        lemma_ms_of_count(s1, x);
                    }
                    assert(ms_of(s1) =~= ms_of(s0).insert(gram@));
                    lemma_update(s0, i as int, s1[i as int], gram@);
                    assert forall|a: int, b: int| 0 <= a < b < s1.len() implies s1[a].0@
                        != s1[b].0@ by {
                        assert(s0[a].0@ != s0[b].0@);
                    }
                    lemma_ms_of_len(s1);
                }
            },
            None => {
                items.push((gram, 1));
                proof {
                    let s1 = items@;
                    assert forall|x: Seq<char>| #[trigger]
                        ms_of(s1).count(x) == ms_of(s0).insert(gram@).count(x) by {
                        lemma_push(s0, s1.last(), x);
                        lemma_ms_of_count(s0, x);
                        lemma_ms_of_count(s1, x);
                    }
                    assert(ms_of(s1) =~= ms_of(s0).insert(gram@));
                    lemma_push(s0, s1.last(), gram@);
                    assert forall|a: int, b: int| 0 <= a < b < s1.len() implies s1[a].0@
                        != s1[b].0@ by {
                        if b < s1.len() - 1 {
                            assert(s0[a].0@ != s0[b].0@);
                        }
                    }
                    lemma_ms_of_len(s1);
                }
            },
        }
        let r = NgramSet { items, n, size: size + 1 };
        proof {
            lemma_ms_of_len(r.items@);
        }
        r
    }

    /// The number of matched n-gram occurrences between two profiles: for
    /// every key both profiles hold, the smaller of the two counts, summed —
    /// the multiset intersection, which weighs repeated phrases, not mere
    /// presence. Profiles built with different window sizes are not
    /// comparable and match nothing, by definition rather than by error. The
    /// Dice score is `2 * match_count / (self.len() + other.len())`.
    pub fn match_count(&self, other: &NgramSet) -> (m: u64)
        ensures
            self.window() == other.window() ==> m == dice_matches(self@, other@),
            self.window() != other.window() ==> m == 0,
    {
        proof {
            use_type_invariant(self);
            use_type_invariant(other);
        }
        if self.n != other.n {
            return 0;
        }
        let (x, y) = if self.items.len() < other.items.len() {
            (self, other)
        } else {
            (other, self)
        };
        let mut m: u64 = 0;
        let mut i: usize = 0;
        proof {
            assert(x.items@.take(0) =~= Seq::<(String, u32)>::empty());
        }
        while i < x.items.len()
            invariant
                i <= x.items@.len(),
                distinct_keys(x.items@),
                total_of(x.items@) <= u32::MAX,
                m == min_sum(x.items@.take(i as int), y@),
                m <= total_of(x.items@.take(i as int)),
            decreases x.items@.len() - i,
        {
            let c = x.items[i].1;
            let yc = y.get(x.items[i].0.as_str());
            let matched = if c < yc {
                c
            } else {
                yc
            };
            proof {
                let t1 = x.items@.take(i + 1);
                assert(t1.drop_last() =~= x.items@.take(i as int));
                assert(t1.last() == x.items@[i as int]);
                lemma_total_of_take(x.items@, i + 1);
            }
            m = m + matched as u64;
            i += 1;
        }
        proof {
            assert(x.items@.take(x.items@.len() as int) =~= x.items@);
            lemma_min_sum_matches(x.items@, y@);
            crate::laws::lemma_dice_symmetric(self@, other@);
        }
        m
    }

    /// The distinct n-grams observed, each paired with its occurrence count:
    /// every recorded key exactly once, in no promised order, and every key
    /// the profile counts is recorded.
    pub fn entries(&self) -> (r: &Vec<(String, u32)>)
        ensures
            forall|i: int|
                0 <= i < r@.len() ==> (#[trigger] r@[i]).1 as nat == self@.count(r@[i].0@) && 1
                    <= r@[i].1,
            forall|i: int, j: int| 0 <= i < j < r@.len() ==> r@[i].0@ != r@[j].0@,
            forall|k: Seq<char>|
                #[trigger] self@.count(k) > 0 ==> exists|i: int|
                    0 <= i < r@.len() && (#[trigger] r@[i]).0@ == k,
    {
        proof {
            use_type_invariant(self);
            assert forall|i: int|
                0 <= i < self.items@.len() implies (#[trigger] self.items@[i]).1 as nat
                == self@.count(self.items@[i].0@) && 1 <= self.items@[i].1 by {
                lemma_ms_of_count(self.items@, self.items@[i].0@);
                lemma_key_sum_at(self.items@, i);
            }
            assert forall|k: Seq<char>| #[trigger] self@.count(k) > 0 implies exists|i: int|
                0 <= i < self.items@.len() && (#[trigger] self.items@[i]).0@ == k by {
                lemma_ms_of_count(self.items@, k);
                if forall|i: int|
                    0 <= i < self.items@.len() ==> (#[trigger] self.items@[i]).0@ != k {
                    lemma_key_sum_absent(self.items@, k);
                }
            }
        }
        &self.items
    }
}

/// Whether two string slices hold the same characters.
fn str_eq(a: &str, b: &str) -> (r: bool)
    ensures
        r == (a@ == b@),
{
    let la = a.unicode_len();
    let lb = b.unicode_len();
    if la != lb {
        return false;
    }
    let mut i: usize = 0;
    while i < la
        invariant
            la == a@.len(),
            la == b@.len(),
            i <= la,
            forall|j: int| 0 <= j < i ==> a@[j] == b@[j],
        decreases la - i,
    {
        if a.get_char(i) != b.get_char(i) {
            return false;
        }
        i += 1;
    }
    proof {
        assert(a@ =~= b@);
    }
    true
}

/// The position of the entry recording `key`, if one does.
fn find_key(items: &Vec<(String, u32)>, key: &str) -> (r: Option<usize>)
    ensures
        match r {
            Some(i) => i < items@.len() && items@[i as int].0@ == key@,
            None => forall|i: int| 0 <= i < items@.len() ==> items@[i].0@ != key@,
        },
{
    let mut i: usize = 0;
    while i < items.len()
        invariant
            i <= items@.len(),
            forall|j: int| 0 <= j < i ==> items@[j].0@ != key@,
        decreases items@.len() - i,
    {
        if str_eq(items[i].0.as_str(), key) {
            return Some(i);
        }
        i += 1;
    }
    None
}

/// The text split on the single space character, each token owned.
fn split_spaces(s: &str) -> (toks: Vec<String>)
    ensures
        toks@.map_values(|t: String| t@) == tokens(s@),
{
    let len = s.unicode_len();
    let mut toks: Vec<String> = Vec::new();
    proof {
        assert(s@.skip(0) =~= s@);
        assert(toks@.map_values(|t: String| t@) + tokens(s@.skip(0)) =~= tokens(s@));
    }
    let mut start: usize = 0;
    let mut i: usize = 0;
    while i < len
        invariant
            start <= i <= len,
            len == s@.len(),
            forall|j: int| start <= j < i ==> s@[j] != ' ',
            tokens(s@) == toks@.map_values(|t: String| t@) + tokens(s@.skip(start as int)),
        decreases len - i,
    {
        let c = s.get_char(i);
        if c == ' ' {
            let tok = s.substring_char(start, i);
            let ghost pre = toks@.map_values(|t: String| t@);
            toks.push(tok.to_owned());
            proof {
                let t = s@.skip(start as int);
                lemma_tokens_first(t, i - start);
                assert(t[i - start] == ' ');
                assert(t.subrange(0, i - start) =~= s@.subrange(start as int, i as int));
                assert(t.skip(i - start + 1) =~= s@.skip(i + 1));
                assert(toks@.map_values(|t: String| t@) =~= pre + seq![tok@]);
                assert(tokens(s@) =~= toks@.map_values(|t: String| t@) + tokens(
                    s@.skip(i + 1),
                ));
            }
            start = i + 1;
        }
        i += 1;
    }
    let tok = s.substring_char(start, len);
    let ghost pre = toks@.map_values(|t: String| t@);
    toks.push(tok.to_owned());
    proof {
        let t = s@.skip(start as int);
        lemma_tokens_first(t, (len - start) as int);
        assert(t =~= s@.subrange(start as int, len as int));
        assert(toks@.map_values(|t: String| t@) =~= pre + seq![tok@]);
        assert(tokens(s@) =~= toks@.map_values(|t: String| t@));
    }
    toks
}

/// The `n` tokens starting at `p`, joined with single spaces into one key.
fn join_range(toks: &Vec<String>, p: usize, n: usize) -> (key: String)
    requires
        1 <= n,
        p + n <= toks@.len(),
    ensures
        key@ == join_words(toks@.map_values(|t: String| t@).subrange(p as int, p + n)),
{
    let ghost tv = toks@.map_values(|t: String| t@);
    let total = toks.len();
    let mut key = toks[p].clone();
    proof {
        assert(tv.subrange(p as int, p + 1) =~= seq![tv[p as int]]);
    }
    let mut j: usize = 1;
    while j < n
        invariant
            1 <= j <= n,
            p + n <= total,
            total == toks@.len(),
            tv == toks@.map_values(|t: String| t@),
            key@ == join_words(tv.subrange(p as int, p + j)),
        decreases n - j,
    {
        key.append(" ");
        key.append(toks[p + j].as_str());
        proof {
            reveal_strlit(" ");
            assert(" "@ =~= seq![' ']);
            let w = tv.subrange(p as int, p + j + 1);
            assert(w.drop_last() =~= tv.subrange(p as int, p + j));
            assert(w.last() == tv[p + j]);
            assert(key@ =~= join_words(w));
        }
        j += 1;
    }
    key
}

} // verus!
