//! The per-utterance hotword vocabulary: the unigrams to boost, whole-word
//! membership, and the lengths behind the partial-word credit.
use vstd::prelude::*;
use vstd::string::*;

use crate::text::{split_ws, views, split_whitespace, has_prefix, same_chars, lemma_views_push};

verus! {

/// The unigrams of a list of words or phrases: each one split at whitespace,
/// in order.
pub open spec fn unigrams_of(words: Seq<Seq<char>>) -> Seq<Seq<char>>
    decreases words.len(),
{
    if words.len() == 0 {
        Seq::empty()
    } else {
        unigrams_of(words.drop_last()) + split_ws(words.last())
    }
}

/// The length of the shortest unigram that starts with `p`, if any does.
pub open spec fn shortest_with_prefix(us: Seq<Seq<char>>, p: Seq<char>) -> Option<nat>
    decreases us.len(),
{
    if us.len() == 0 {
        None
    } else {
        let rest = shortest_with_prefix(us.drop_last(), p);
        let u = us.last();
        if p.is_prefix_of(u) {
            match rest {
                Some(m) => Some(if u.len() < m { u.len() } else { m }),
                None => Some(u.len()),
            }
        } else {
            rest
        }
    }
}

/// The two lengths whose ratio, times the hotword weight, is the credit for an
/// unfinished word `p`: `p`'s length and the length of the shortest unigram
/// that it begins. None (no credit) for an empty `p`, an empty vocabulary, or
/// a `p` that no unigram begins with.
pub open spec fn prefix_credit(us: Seq<Seq<char>>, p: Seq<char>) -> Option<(nat, nat)> {
    if p.len() == 0 || us.len() == 0 {
        None
    } else {
        match shortest_with_prefix(us, p) {
            Some(m) => Some((p.len(), m)),
            None => None,
        }
    }
}

/// Per-utterance hotwords: the unigrams to boost.
pub struct Hotwords {
    unigrams: Vec<String>,
}

impl View for Hotwords {
    type V = Seq<Seq<char>>;

    closed spec fn view(&self) -> Seq<Seq<char>> {
        views(self.unigrams@)
    }
}

impl Hotwords {
    /// Builds the vocabulary from words or phrases; phrases are split into
    /// their whitespace-separated unigrams.
    pub fn new(words: Vec<String>) -> (h: Hotwords)
        ensures
            h@ == unigrams_of(views(words@)),
    {
        let mut unigrams: Vec<String> = Vec::new();
        let mut i: usize = 0;
        while i < words.len()
            invariant
                i <= words.len(),
                views(unigrams@) == unigrams_of(views(words@.take(i as int))),
            decreases words.len() - i,
        {
            let parts = split_whitespace(words[i].as_str());
            let ghost before = views(unigrams@);
            let mut k: usize = 0;
            while k < parts.len()
                invariant
                    k <= parts.len(),
                    views(unigrams@) == before + views(parts@).take(k as int),
                decreases parts.len() - k,
            {
                let ghost prev = unigrams@;
                unigrams.push(parts[k].clone());
                proof {
                    lemma_views_push(prev, parts@[k as int]);
                }
                assert(views(unigrams@) =~= before + views(parts@).take(k + 1));
                k = k + 1;
            }
            assert(views(words@.take(i + 1)).drop_last() =~= views(words@.take(i as int)));
            assert(views(parts@).take(k as int) =~= views(parts@));
            i = i + 1;
        }
        assert(words@.take(words.len() as int) =~= words@);
        Hotwords { unigrams }
    }

    /// Whether `w` is one of the unigrams.
    pub fn is_word(&self, w: &str) -> (r: bool)
        ensures
            r == self@.contains(w@),
    {
        let mut i: usize = 0;
        while i < self.unigrams.len()
            invariant
                i <= self.unigrams.len(),
                forall|k: int| 0 <= k < i ==> self@[k] != w@,
            decreases self.unigrams.len() - i,
        {
            if same_chars(self.unigrams[i].as_str(), w) {
                assert(self@[i as int] == w@);
                return true;
            }
            i = i + 1;
        }
        false
    }

    /// The lengths behind the partial-word credit of `word_part`: its own
    /// length in characters and that of the shortest unigram it begins;
    /// the credit is the weight times their ratio, and nothing where this
    /// returns None.
    pub fn partial_lengths(&self, word_part: &str) -> (r: Option<(usize, usize)>)
        ensures
            r matches Some((a, b)) ==> a == word_part@.len(),
            match r {
                Some((a, b)) => prefix_credit(self@, word_part@) == Some((a as nat, b as nat)),
                None => prefix_credit(self@, word_part@) is None,
            },
    {
        let wp = word_part.unicode_len();
        if wp == 0 || self.unigrams.len() == 0 {
            return None;
        }
        let mut best: Option<usize> = None;
        let mut i: usize = 0;
        while i < self.unigrams.len()
            invariant
                i <= self.unigrams.len(),
                match best {
                    Some(m) => shortest_with_prefix(self@.take(i as int), word_part@) == Some(
                        m as nat,
                    ),
                    None => shortest_with_prefix(self@.take(i as int), word_part@) is None,
                },
            decreases self.unigrams.len() - i,
        {
            let u = self.unigrams[i].as_str();
            assert(self@.take(i + 1).drop_last() =~= self@.take(i as int));
            if has_prefix(u, word_part) {
                let l = u.unicode_len();
                best = match best {
                    Some(m) => Some(if l < m { l } else { m }),
                    None => Some(l),
                };
            }
            i = i + 1;
        }
        assert(self@.take(self.unigrams.len() as int) =~= self@);
        match best {
            Some(m) => Some((wp, m)),
            None => None,
        }
    }
}

proof fn lemma_shortest(us: Seq<Seq<char>>, p: Seq<char>)
    ensures
        shortest_with_prefix(us, p) is Some <==> exists|i: int|
            0 <= i < us.len() && p.is_prefix_of(#[trigger] us[i]),
        shortest_with_prefix(us, p) matches Some(m) ==> m >= p.len() && forall|i: int|
            0 <= i < us.len() && p.is_prefix_of(#[trigger] us[i]) ==> m <= us[i].len(),
        shortest_with_prefix(us, p) matches Some(m) ==> exists|i: int|
            0 <= i < us.len() && p.is_prefix_of(#[trigger] us[i]) && us[i].len() == m,
    decreases us.len(),
{
    if us.len() > 0 {
        let init = us.drop_last();
        lemma_shortest(init, p);
        assert forall|i: int| 0 <= i < init.len() implies init[i] == us[i] by {}
        let last = us.len() - 1;
        match shortest_with_prefix(us, p) {
            Some(m) => {
                if p.is_prefix_of(us[last]) && us[last].len() == m {
                    assert(p.is_prefix_of(us[last]) && us[last].len() == m);
                } else {
                    let rest = shortest_with_prefix(init, p);
                    assert(rest == Some(m));
                    let i = choose|i: int|
                        0 <= i < init.len() && p.is_prefix_of(#[trigger] init[i]) && init[i].len()
                            == m;
                    assert(us[i] == init[i]);
                }
            },
            None => {},
        }
        if exists|i: int| 0 <= i < us.len() && p.is_prefix_of(#[trigger] us[i]) {
            let i = choose|i: int| 0 <= i < us.len() && p.is_prefix_of(#[trigger] us[i]);
            if i < us.len() - 1 {
                assert(p.is_prefix_of(init[i]));
            }
        }
    }
}

/// A hotword typed in full earns the whole weight: when `p` is itself one of
/// the unigrams, the shortest unigram it begins is `p`, so the ratio is 1.
pub proof fn law_whole_hotword_gets_full_credit(us: Seq<Seq<char>>, p: Seq<char>)
    requires
        us.contains(p),
        p.len() > 0,
    ensures
        prefix_credit(us, p) == Some((p.len(), p.len())),
{
    lemma_shortest(us, p);
    let i = choose|i: int| 0 <= i < us.len() && us[i] == p;
    assert(p.is_prefix_of(us[i])) by {
        assert(us[i].subrange(0, p.len() as int) =~= p);
    }
}

/// The partial credit never exceeds the weight: the word part is no longer
/// than the unigram it begins, and it is never empty.
pub proof fn law_partial_credit_at_most_full(us: Seq<Seq<char>>, p: Seq<char>)
    ensures
        prefix_credit(us, p) matches Some((a, b)) ==> 0 < a <= b,
{
    lemma_shortest(us, p);
}

/// Whenever there is credit, its lengths are the word part's own length and
/// the length of the shortest unigram that the word part begins.
pub proof fn law_credit_lengths(us: Seq<Seq<char>>, p: Seq<char>)
    ensures
        prefix_credit(us, p) matches Some((a, b)) ==> {
            &&& a == p.len()
            &&& exists|i: int|
                0 <= i < us.len() && p.is_prefix_of(#[trigger] us[i]) && us[i].len() == b
            &&& forall|i: int|
                0 <= i < us.len() && p.is_prefix_of(#[trigger] us[i]) ==> b <= us[i].len()
        },
{
    lemma_shortest(us, p);
}

/// A word part earns credit exactly when it is not empty and some unigram
/// begins with it.
pub proof fn law_credit_iff_some_unigram_begins(us: Seq<Seq<char>>, p: Seq<char>)
    ensures
        prefix_credit(us, p) is Some <==> p.len() > 0 && exists|i: int|
            0 <= i < us.len() && p.is_prefix_of(#[trigger] us[i]),
{
    lemma_shortest(us, p);
}

/// The vocabulary holds exactly the whitespace-separated words of the inputs.
pub proof fn law_unigrams_are_input_words(words: Seq<Seq<char>>, w: Seq<char>)
    ensures
        unigrams_of(words).contains(w) <==> exists|i: int|
            0 <= i < words.len() && split_ws(#[trigger] words[i]).contains(w),
    decreases words.len(),
{
    if words.len() > 0 {
        let init = words.drop_last();
        law_unigrams_are_input_words(init, w);
        let a = unigrams_of(init);
        let b = split_ws(words.last());
        assert(unigrams_of(words) == a + b);
        if (a + b).contains(w) {
            let k = choose|k: int| 0 <= k < (a + b).len() && (a + b)[k] == w;
            if k < a.len() {
                assert(a.contains(w));
                let i = choose|i: int| 0 <= i < init.len() && split_ws(#[trigger] init[i]).contains(w);
                assert(words[i] == init[i]);
            } else {
                assert(b[k - a.len()] == w);
                assert(split_ws(words[words.len() - 1]).contains(w));
            }
        }
        if exists|i: int| 0 <= i < words.len() && split_ws(#[trigger] words[i]).contains(w) {
            let i = choose|i: int| 0 <= i < words.len() && split_ws(#[trigger] words[i]).contains(w);
            if i < words.len() - 1 {
                assert(init[i] == words[i]);
                assert(a.contains(w));
                let k = choose|k: int| 0 <= k < a.len() && a[k] == w;
                assert((a + b)[k] == w);
            } else {
                let k = choose|k: int| 0 <= k < b.len() && b[k] == w;
                assert((a + b)[a.len() + k] == w);
            }
        }
    }
}

} // verus!
