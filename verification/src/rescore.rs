//! Turning a first-pass transcript into the hotwords of the second pass.
use vstd::prelude::*;
use vstd::string::*;

use crate::text::{split_ws, views, split_whitespace, same_chars, lemma_views_push};

verus! {

/// The words of at least three characters, each kept once, at its first
/// occurrence.
pub open spec fn new_long_words(ws: Seq<Seq<char>>) -> Seq<Seq<char>>
    decreases ws.len(),
{
    if ws.len() == 0 {
        Seq::empty()
    } else {
        let d = new_long_words(ws.drop_last());
        let w = ws.last();
        if w.len() >= 3 && !d.contains(w) {
            d.push(w)
        } else {
            d
        }
    }
}

/// The hotwords that a recognized transcript yields: its whitespace-separated
/// words of at least three characters, without repeats, in order of first
/// occurrence.
pub fn transcript_hotwords(text: &str) -> (r: Vec<String>)
    ensures
        views(r@) == new_long_words(split_ws(text@)),
{
    let words = split_whitespace(text);
    let ghost ws = views(words@);
    let mut out: Vec<String> = Vec::new();
    let mut i: usize = 0;
    while i < words.len()
        invariant
            i <= words.len(),
            ws == views(words@),
            ws == split_ws(text@),
            views(out@) == new_long_words(ws.take(i as int)),
        decreases words.len() - i,
    {
        let w = words[i].as_str();
        assert(ws.take(i + 1).drop_last() =~= ws.take(i as int));
        assert(ws[i as int] == w@);
        if w.unicode_len() >= 3 {
            let mut seen = false;
            let mut k: usize = 0;
            while k < out.len()
                invariant
                    k <= out.len(),
                    seen == exists|j: int| 0 <= j < k && (#[trigger] views(out@)[j]) == w@,
                decreases out.len() - k,
            {
                assert(views(out@)[k as int] == out@[k as int]@);
                if same_chars(out[k].as_str(), w) {
                    seen = true;
                }
                k = k + 1;
            }
            if !seen {
                let ghost prev = out@;
                out.push(w.to_owned());
                proof {
                    lemma_views_push(prev, out@[prev.len() as int]);
                }
            }
        }
        i = i + 1;
    }
    assert(ws.take(words.len() as int) =~= ws);
    out
}

/// The transcript's hotwords are distinct words of the transcript, each at
/// least three characters long, and every such word is among them.
pub proof fn law_transcript_hotwords(ws: Seq<Seq<char>>)
    ensures
        new_long_words(ws).no_duplicates(),
        forall|k: int|
            0 <= k < new_long_words(ws).len() ==> (#[trigger] new_long_words(ws)[k]).len() >= 3
                && ws.contains(new_long_words(ws)[k]),
        forall|w: Seq<char>| ws.contains(w) && w.len() >= 3 ==> #[trigger] new_long_words(
            ws,
        ).contains(w),
    decreases ws.len(),
{
    if ws.len() > 0 {
        let init = ws.drop_last();
        law_transcript_hotwords(init);
        let d = new_long_words(init);
        let w = ws.last();
        let r = new_long_words(ws);
        if w.len() >= 3 && !d.contains(w) {
            assert(r == d.push(w));
            assert(r[d.len() as int] == w);
        } else {
            assert(r == d);
        }
        assert forall|k: int| 0 <= k < r.len() implies (#[trigger] r[k]).len() >= 3 && ws.contains(
            r[k],
        ) by {
            if k < d.len() {
                assert(r[k] == d[k]);
                let j = choose|j: int| 0 <= j < init.len() && init[j] == d[k];
                assert(ws[j] == init[j]);
            } else {
                assert(ws[ws.len() - 1] == w);
            }
        }
        assert forall|v: Seq<char>| ws.contains(v) && v.len() >= 3 implies #[trigger] r.contains(
            v,
        ) by {
            let j = choose|j: int| 0 <= j < ws.len() && ws[j] == v;
            if j < init.len() {
                assert(init[j] == v);
                assert(d.contains(v));
                let k = choose|k: int| 0 <= k < d.len() && d[k] == v;
                assert(r[k] == v);
            } else if d.contains(v) {
                let k = choose|k: int| 0 <= k < d.len() && d[k] == v;
                assert(r[k] == v);
            } else {
                assert(r[d.len() as int] == v);
            }
        }
        assert forall|a: int, b: int| 0 <= a < r.len() && 0 <= b < r.len() && a != b implies r[a]
            != r[b] by {
            if a < d.len() && b < d.len() {
                assert(r[a] == d[a] && r[b] == d[b]);
            } else if a < d.len() {
                assert(r[a] == d[a]);
            } else if b < d.len() {
                assert(r[b] == d[b]);
            }
        }
    }
}

/// `pos` gives, for each kept word, the strictly increasing positions in
/// `ws` of the first occurrences of those words.
pub open spec fn first_occurrences(ws: Seq<Seq<char>>, r: Seq<Seq<char>>, pos: Seq<int>) -> bool {
    &&& pos.len() == r.len()
    &&& forall|j: int|
        0 <= j < pos.len() ==> 0 <= #[trigger] pos[j] < ws.len() && r[j] == ws[pos[j]] && forall|
            i: int,
        | 0 <= i < pos[j] ==> #[trigger] ws[i] != ws[pos[j]]
    &&& forall|j1: int, j2: int| 0 <= j1 < j2 < pos.len() ==> #[trigger] pos[j1] < #[trigger] pos[j2]
}

/// The transcript's hotwords come in the order of their first occurrences.
pub proof fn law_transcript_hotwords_in_first_occurrence_order(ws: Seq<Seq<char>>)
    ensures
        exists|pos: Seq<int>| first_occurrences(ws, new_long_words(ws), pos),
    decreases ws.len(),
{
    if ws.len() == 0 {
        assert(first_occurrences(ws, new_long_words(ws), Seq::<int>::empty()));
    } else {
        let init = ws.drop_last();
        law_transcript_hotwords_in_first_occurrence_order(init);
        law_transcript_hotwords(init);
        let d = new_long_words(init);
        let pos0 = choose|pos: Seq<int>| first_occurrences(init, d, pos);
        let w = ws.last();
        assert forall|j: int| 0 <= j < pos0.len() implies 0 <= #[trigger] pos0[j] < ws.len() && d[j]
            == ws[pos0[j]] && forall|i: int| 0 <= i < pos0[j] ==> #[trigger] ws[i] != ws[pos0[j]] by {
            assert(ws[pos0[j]] == init[pos0[j]]);
            assert forall|i: int| 0 <= i < pos0[j] implies #[trigger] ws[i] != ws[pos0[j]] by {
                assert(ws[i] == init[i]);
            }
        }
        if w.len() >= 3 && !d.contains(w) {
            let r = d.push(w);
            assert(new_long_words(ws) == r);
            let pos = pos0.push(ws.len() - 1);
            assert forall|j: int| 0 <= j < pos.len() implies 0 <= #[trigger] pos[j] < ws.len() && r[j]
                == ws[pos[j]] && forall|i: int| 0 <= i < pos[j] ==> #[trigger] ws[i] != ws[pos[j]] by {
                if j < pos0.len() {
                    assert(pos[j] == pos0[j]);
                    assert(r[j] == d[j]);
                } else {
                    assert forall|i: int| 0 <= i < pos[j] implies #[trigger] ws[i] != ws[pos[j]] by {
                        assert(ws[i] == init[i]);
                        if ws[i] == w {
                            assert(init.contains(w));
                        }
                    }
                }
            }
            assert forall|j1: int, j2: int| 0 <= j1 < j2 < pos.len() implies #[trigger] pos[j1]
                < #[trigger] pos[j2] by {
                if j2 < pos0.len() {
                    assert(pos0[j1] < pos0[j2]);
                } else {
                    assert(pos0[j1] < init.len());
                }
            }
            assert(first_occurrences(ws, new_long_words(ws), pos));
        } else {
            assert(new_long_words(ws) == d);
            assert(first_occurrences(ws, new_long_words(ws), pos0));
        }
    }
}

} // verus!
