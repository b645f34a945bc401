//! The mathematical model of tokenization and n-gram extraction.
//!
//! A text is a sequence of characters. Its token stream is the text split on
//! the single space character, exactly as `str::split(' ')` splits: nothing is
//! trimmed, so an empty text yields one empty token and adjacent spaces yield
//! empty tokens between them. An n-gram is a window of consecutive tokens
//! joined back together with single spaces.

use vstd::prelude::*;

verus! {

/// The token stream of a text: the text split on the single space character.
pub open spec fn tokens(s: Seq<char>) -> Seq<Seq<char>>
    decreases s.len(),
{
    if s.len() == 0 {
        seq![Seq::<char>::empty()]
    } else if s[0] == ' ' {
        seq![Seq::<char>::empty()] + tokens(s.skip(1))
    } else {
        let rest = tokens(s.skip(1));
        rest.update(0, seq![s[0]] + rest[0])
    }
}

/// Tokens joined back into one text with a single space between neighbours.
pub open spec fn join_words(ws: Seq<Seq<char>>) -> Seq<char>
    decreases ws.len(),
{
    if ws.len() == 0 {
        Seq::<char>::empty()
    } else if ws.len() == 1 {
        ws[0]
    } else {
        join_words(ws.drop_last()) + seq![' '] + ws.last()
    }
}

/// The n-grams of a token stream: every window of `n` consecutive tokens,
/// advanced one token at a time, joined with single spaces. A stream of `k`
/// tokens yields exactly `k - n + 1` windows when `k >= n`, and none otherwise.
pub open spec fn grams(toks: Seq<Seq<char>>, n: nat) -> Seq<Seq<char>> {
    if n <= toks.len() {
        Seq::new((toks.len() - n + 1) as nat, |i: int| join_words(toks.subrange(i, i + n)))
    } else {
        Seq::<Seq<char>>::empty()
    }
}

/// The n-gram occurrence stream of a text: tokenize, then slide the window.
pub open spec fn gram_stream(s: Seq<char>, n: nat) -> Seq<Seq<char>> {
    grams(tokens(s), n)
}

/// A token stream is never empty and never longer than the text plus one:
/// each token past the first consumes one separating space.
pub proof fn lemma_tokens_len(s: Seq<char>)
    ensures
        1 <= tokens(s).len() <= s.len() + 1,
    decreases s.len(),
{
    if s.len() == 0 {
    } else if s[0] == ' ' {
        lemma_tokens_len(s.skip(1));
    } else {
        lemma_tokens_len(s.skip(1));
    }
}

/// Reading a token off the front: if the first `k` characters hold no space,
/// they are the first token; it ends at the text's end or at the first space.
pub proof fn lemma_tokens_first(s: Seq<char>, k: int)
    requires
        0 <= k <= s.len(),
        forall|j: int| 0 <= j < k ==> s[j] != ' ',
    ensures
        k == s.len() ==> tokens(s) == seq![s],
        k < s.len() && s[k] == ' ' ==> tokens(s) == seq![s.subrange(0, k)] + tokens(s.skip(k + 1)),
    decreases k,
{
    if k == 0 {
        if 0 == s.len() {
            assert(tokens(s) =~~= seq![s]);
        } else if s[0] == ' ' {
            assert(s.subrange(0, 0) =~= Seq::<char>::empty());
            assert(tokens(s) =~~= seq![s.subrange(0, 0)] + tokens(s.skip(1)));
        }
    } else {
        let t = s.skip(1);
        assert(forall|j: int| 0 <= j < k - 1 ==> t[j] != ' ');
        lemma_tokens_first(t, k - 1);
        let rest = tokens(t);
        lemma_tokens_len(t);
        assert(s[0] != ' ');
        if k == s.len() {
            assert(rest == seq![t]);
            assert(seq![s[0]] + t =~= s);
            assert(tokens(s) =~~= seq![s]);
        } else if s[k] == ' ' {
            assert(t[k - 1] == ' ');
            assert(rest == seq![t.subrange(0, k - 1)] + tokens(t.skip(k)));
            assert(t.subrange(0, k - 1) =~= s.subrange(1, k));
            assert(seq![s[0]] + s.subrange(1, k) =~= s.subrange(0, k));
            assert(t.skip(k) =~= s.skip(k + 1));
            assert(rest[0] == t.subrange(0, k - 1));
            assert(tokens(s) =~~= seq![s.subrange(0, k)] + tokens(s.skip(k + 1)));
        }
    }
}

} // verus!
