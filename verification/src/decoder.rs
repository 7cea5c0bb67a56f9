//! The discrete side of the CTC prefix beam search: the vocabulary and its
//! blank, how a beam prefix grows by one class (CTC collapse, BPE word
//! boundaries, hotword counting), how the expansions of one frame merge into
//! distinct prefixes, and which classes a frame offers as candidates.
use vstd::prelude::*;
use vstd::string::*;

use crate::hotwords::Hotwords;
use crate::text::{trim_start, trim_end, trim_char, views};

verus! {

/// The BPE word-start marker, U+2581.
pub const BPE: char = '\u{2581}';

/// What a prefix is, as mathematical values.
pub struct PrefixModel {
    pub text: Seq<char>,
    pub word_part: Seq<char>,
    pub last_idx: Option<usize>,
    pub hw_count: nat,
}

/// A beam's prefix, without its score: the completed words (joined by single
/// spaces), the word in progress, the last class emitted (None at the start;
/// the blank's index after a blank), and how many completed words are hotwords.
#[derive(Clone, Debug)]
pub struct Prefix {
    pub text: String,
    pub word_part: String,
    pub last_idx: Option<usize>,
    pub hw_count: u32,
}

impl View for Prefix {
    type V = PrefixModel;

    open spec fn view(&self) -> PrefixModel {
        PrefixModel {
            text: self.text@,
            word_part: self.word_part@,
            last_idx: self.last_idx,
            hw_count: self.hw_count as nat,
        }
    }
}

/// The prefix every search starts from.
pub open spec fn initial_prefix() -> PrefixModel {
    PrefixModel { text: Seq::empty(), word_part: Seq::empty(), last_idx: None, hw_count: 0 }
}

impl Prefix {
    /// The empty prefix that every search starts from.
    pub fn initial() -> (p: Prefix)
        ensures
            p@ == initial_prefix(),
    {
        Prefix { text: String::new(), word_part: String::new(), last_idx: None, hw_count: 0 }
    }
}

/// The views of a vector of prefixes.
pub open spec fn prefix_views(v: Seq<Prefix>) -> Seq<PrefixModel> {
    v.map_values(|p: Prefix| p@)
}

/// What a decoder is, as mathematical values.
pub struct DecoderModel {
    pub labels: Seq<Seq<char>>,
    pub blank_id: nat,
}

/// `b` is the blank's class: the first class whose label is empty, or the last
/// class when no label is empty.
pub open spec fn is_blank_index(labels: Seq<Seq<char>>, b: nat) -> bool {
    if exists|i: int| 0 <= i < labels.len() && (#[trigger] labels[i]).len() == 0 {
        &&& b < labels.len()
        &&& labels[b as int].len() == 0
        &&& forall|j: int| 0 <= j < b ==> (#[trigger] labels[j]).len() != 0
    } else {
        b == labels.len() - 1
    }
}

/// Folds the word in progress into the text: nothing changes for an empty
/// word; otherwise the word is appended after a single space (or becomes the
/// text when the text is empty), and the count grows by one when the word is
/// a hotword.
pub open spec fn spec_fold(
    text: Seq<char>,
    word_part: Seq<char>,
    hw_count: nat,
    words: Seq<Seq<char>>,
) -> (Seq<char>, nat) {
    if word_part.len() == 0 {
        (text, hw_count)
    } else {
        (
            if text.len() == 0 {
                word_part
            } else {
                text + seq![' '] + word_part
            },
            hw_count + if words.contains(word_part) {
                1nat
            } else {
                0nat
            },
        )
    }
}

/// Whether a label begins with the BPE word-start marker.
pub open spec fn starts_word(tok: Seq<char>) -> bool {
    tok.len() > 0 && tok[0] == BPE
}

/// The prefix `p` grown by class `idx`:
/// - the blank, or the class just emitted again, changes only the last class
///   (CTC collapse);
/// - a label that begins with the marker completes the word in progress and
///   starts a new one, the label without its leading and trailing markers;
/// - any other label continues the word in progress.
pub open spec fn spec_extend(
    dec: DecoderModel,
    words: Seq<Seq<char>>,
    p: PrefixModel,
    idx: usize,
) -> PrefixModel {
    let tok = dec.labels[idx as int];
    if idx == dec.blank_id || p.last_idx == Some(idx) {
        PrefixModel { last_idx: Some(idx), ..p }
    } else if starts_word(tok) {
        let folded = spec_fold(p.text, p.word_part, p.hw_count, words);
        PrefixModel {
            text: folded.0,
            word_part: trim_end(trim_start(tok, BPE), BPE),
            last_idx: Some(idx),
            hw_count: folded.1,
        }
    } else {
        PrefixModel { word_part: p.word_part + tok, last_idx: Some(idx), ..p }
    }
}

/// Two prefixes merge when their text, word in progress and last class agree.
pub open spec fn same_key(a: PrefixModel, b: PrefixModel) -> bool {
    a.text == b.text && a.word_part == b.word_part && a.last_idx == b.last_idx
}

/// Merging a sequence of prefixes: each key is kept once, by the first
/// prefix that has it, in the order in which keys first appear.
pub open spec fn merge_all(s: Seq<PrefixModel>) -> Seq<PrefixModel>
    decreases s.len(),
{
    if s.len() == 0 {
        Seq::empty()
    } else {
        let m = merge_all(s.drop_last());
        if exists|j: int| 0 <= j < m.len() && same_key(#[trigger] m[j], s.last()) {
            m
        } else {
            m.push(s.last())
        }
    }
}

/// Every beam grown by class `idx`, in beam order.
pub open spec fn row(
    dec: DecoderModel,
    words: Seq<Seq<char>>,
    beams: Seq<PrefixModel>,
    idx: usize,
) -> Seq<PrefixModel> {
    beams.map_values(|b: PrefixModel| spec_extend(dec, words, b, idx))
}

/// All expansions of one frame: for each candidate class in order, every beam
/// grown by it, in beam order.
pub open spec fn expansions(
    dec: DecoderModel,
    words: Seq<Seq<char>>,
    beams: Seq<PrefixModel>,
    cands: Seq<usize>,
) -> Seq<PrefixModel>
    decreases cands.len(),
{
    if cands.len() == 0 {
        Seq::empty()
    } else {
        expansions(dec, words, beams, cands.drop_last()) + row(dec, words, beams, cands.last())
    }
}

/// The prefixes after growing a sequence of classes from the initial prefix.
pub open spec fn run(dec: DecoderModel, words: Seq<Seq<char>>, path: Seq<usize>) -> PrefixModel
    decreases path.len(),
{
    if path.len() == 0 {
        initial_prefix()
    } else {
        spec_extend(dec, words, run(dec, words, path.drop_last()), path.last())
    }
}

/// The merged prefixes of one frame, and for each expansion (in the order of
/// `expansions`) the index of the merged prefix it went to.
pub struct FrameExpansion {
    pub prefixes: Vec<Prefix>,
    pub targets: Vec<usize>,
}

/// Decoder: the vocabulary (one label per class index) and the blank's class.
pub struct CtcBeamDecoder {
    labels: Vec<String>,
    blank_id: usize,
}

impl View for CtcBeamDecoder {
    type V = DecoderModel;

    closed spec fn view(&self) -> DecoderModel {
        DecoderModel { labels: views(self.labels@), blank_id: self.blank_id as nat }
    }
}

impl CtcBeamDecoder {
    #[verifier::type_invariant]
    spec fn blank_in_range(&self) -> bool {
        self.blank_id < self.labels.len()
    }

    /// `labels[i]` is the token of class i; the first empty label marks the
    /// CTC blank, and without one the last class is the blank.
    pub fn new(labels: Vec<String>) -> (d: Self)
        requires
            labels.len() > 0,
        ensures
            d@.labels == views(labels@),
            is_blank_index(d@.labels, d@.blank_id),
    {
        let ghost ls = views(labels@);
        let n = labels.len();
        let mut i: usize = 0;
        while i < n
            invariant
                n == labels.len(),
                ls == views(labels@),
                i <= n,
                forall|j: int| 0 <= j < i ==> (#[trigger] ls[j]).len() != 0,
            decreases n - i,
        {
            if labels[i].as_str().is_empty() {
                assert(ls[i as int].len() == 0);
                return CtcBeamDecoder { labels, blank_id: i };
            }
            i = i + 1;
        }
        CtcBeamDecoder { labels, blank_id: n - 1 }
    }

    /// The number of classes.
    pub fn num_labels(&self) -> (n: usize)
        ensures
            n == self@.labels.len(),
    {
        self.labels.len()
    }

    /// The blank's class.
    pub fn blank_id(&self) -> (b: usize)
        ensures
            b == self@.blank_id,
            b < self@.labels.len(),
    {
        proof {
            use_type_invariant(self);
        }
        self.blank_id
    }

    /// Folds `word_part` into `text`, counting it when it is a hotword.
    pub fn fold(&self, text: &str, word_part: &str, hw_count: u32, hw: &Hotwords) -> (r: (
        String,
        u32,
    ))
        requires
            spec_fold(text@, word_part@, hw_count as nat, hw@).1 <= u32::MAX,
        ensures
            (r.0@, r.1 as nat) == spec_fold(text@, word_part@, hw_count as nat, hw@),
    {
        if word_part.is_empty() {
            return (text.to_owned(), hw_count);
        }
        let new_text = if text.is_empty() {
            word_part.to_owned()
        } else {
            let mut t = text.to_owned();
            let sep = " ";
            proof {
                reveal_strlit(" ");
            }
            t.append(sep);
            t.append(word_part);
            assert(t@ =~= text@ + seq![' '] + word_part@);
            t
        };
        let new_hw = if hw.is_word(word_part) {
            hw_count + 1
        } else {
            hw_count
        };
        (new_text, new_hw)
    }

    /// The prefix `p` grown by class `idx`.
    pub fn extend(&self, p: &Prefix, idx: usize, hw: &Hotwords) -> (r: Prefix)
        requires
            idx < self@.labels.len(),
            spec_extend(self@, hw@, p@, idx).hw_count <= u32::MAX,
        ensures
            r@ == spec_extend(self@, hw@, p@, idx),
    {
        proof {
            use_type_invariant(self);
        }
        let tok = self.labels[idx].as_str();
        let repeat = match p.last_idx {
            Some(l) => l == idx,
            None => false,
        };
        if idx == self.blank_id || repeat {
            Prefix {
                text: p.text.clone(),
                word_part: p.word_part.clone(),
                last_idx: Some(idx),
                hw_count: p.hw_count,
            }
        } else if tok.unicode_len() > 0 && tok.get_char(0) == BPE {
            let (text, h) = self.fold(p.text.as_str(), p.word_part.as_str(), p.hw_count, hw);
            let clean = trim_char(tok, BPE);
            Prefix { text, word_part: clean, last_idx: Some(idx), hw_count: h }
        } else {
            let mut wp = p.word_part.clone();
            wp.append(tok);
            Prefix { text: p.text.clone(), word_part: wp, last_idx: Some(idx), hw_count: p.hw_count }
        }
    }

    /// Grows every beam by every candidate class (candidates outer, beams
    /// inner) and merges the results by key, the first expansion of each key
    /// standing for it.
    pub fn expand_frame(&self, beams: &Vec<Prefix>, cands: &Vec<usize>, hw: &Hotwords) -> (r:
        FrameExpansion)
        requires
            forall|c: int| 0 <= c < cands.len() ==> cands[c] < self@.labels.len(),
            forall|c: int, b: int|
                0 <= c < cands.len() && 0 <= b < beams.len() ==> #[trigger] spec_extend(
                    self@,
                    hw@,
                    beams[b]@,
                    cands[c],
                ).hw_count <= u32::MAX,
        ensures
            ({
                let ext = expansions(self@, hw@, prefix_views(beams@), cands@);
                &&& prefix_views(r.prefixes@) == merge_all(ext)
                &&& r.targets.len() == ext.len()
                &&& forall|k: int|
                    0 <= k < ext.len() ==> #[trigger] r.targets[k] < r.prefixes.len() && same_key(
                        r.prefixes[r.targets[k] as int]@,
                        ext[k],
                    )
            }),
            r.targets.len() == cands.len() * beams.len(),
            forall|c: int, b: int|
                #![trigger beams[b], cands[c]]
                0 <= c < cands.len() && 0 <= b < beams.len() ==> {
                    let t = r.targets[c * beams.len() + b];
                    let e = spec_extend(self@, hw@, beams[b]@, cands[c]);
                    &&& t < r.prefixes.len()
                    &&& r.prefixes[t as int]@.text == e.text
                    &&& r.prefixes[t as int]@.word_part == e.word_part
                    &&& r.prefixes[t as int]@.last_idx == e.last_idx
                },
    {
        let ghost bv = prefix_views(beams@);
        let mut prefixes: Vec<Prefix> = Vec::new();
        let mut targets: Vec<usize> = Vec::new();
        let mut ci: usize = 0;
        while ci < cands.len()
            invariant
                ci <= cands.len(),
                bv == prefix_views(beams@),
                forall|c: int| 0 <= c < cands.len() ==> cands[c] < self@.labels.len(),
                forall|c: int, b: int|
                    0 <= c < cands.len() && 0 <= b < beams.len() ==> #[trigger] spec_extend(
                        self@,
                        hw@,
                        beams[b]@,
                        cands[c],
                    ).hw_count <= u32::MAX,
                ({
                    let done = expansions(self@, hw@, bv, cands@.take(ci as int));
                    &&& prefix_views(prefixes@) == merge_all(done)
                    &&& targets.len() == done.len()
                    &&& forall|k: int|
                        0 <= k < done.len() ==> #[trigger] targets[k] < prefixes.len()
                            && same_key(prefixes[targets[k] as int]@, done[k])
                }),
            decreases cands.len() - ci,
        {
            let idx = cands[ci];
            let ghost base = expansions(self@, hw@, bv, cands@.take(ci as int));
            let mut bi: usize = 0;
            while bi < beams.len()
                invariant
                    ci < cands.len(),
                    idx == cands[ci as int],
                    idx < self@.labels.len(),
                    bi <= beams.len(),
                    bv == prefix_views(beams@),
                    forall|b: int|
                        0 <= b < beams.len() ==> #[trigger] spec_extend(
                            self@,
                            hw@,
                            beams[b]@,
                            idx,
                        ).hw_count <= u32::MAX,
                    ({
                        let done = base + row(self@, hw@, bv.take(bi as int), idx);
                        &&& prefix_views(prefixes@) == merge_all(done)
                        &&& targets.len() == done.len()
                        &&& forall|k: int|
                            0 <= k < done.len() ==> #[trigger] targets[k] < prefixes.len()
                                && same_key(prefixes[targets[k] as int]@, done[k])
                    }),
                decreases beams.len() - bi,
            {
                let ghost done = base + row(self@, hw@, bv.take(bi as int), idx);
                let e = self.extend(&beams[bi], idx, hw);
                let ghost done2 = base + row(self@, hw@, bv.take(bi + 1), idx);
                assert(done2 =~= done.push(e@));
                assert(done2.drop_last() =~= done);
                let ghost old_prefixes = prefixes@;
                let ghost old_targets = targets@;
                match find_slot(&prefixes, &e) {
                    Some(j) => {
                        targets.push(j);
                        assert(prefix_views(prefixes@)[j as int] == prefixes@[j as int]@);
                    },
                    None => {
                        targets.push(prefixes.len());
                        prefixes.push(e);
                        assert(prefix_views(prefixes@) =~= prefix_views(old_prefixes).push(e@));
                        assert forall|k: int| 0 <= k < done2.len() implies #[trigger] targets[k]
                            < prefixes.len() && same_key(prefixes[targets[k] as int]@, done2[k]) by {
                            if k < done.len() {
                                assert(targets[k] == old_targets[k]);
                                assert(prefixes[targets[k] as int] == old_prefixes[targets[k] as int]);
                            }
                        }
                    },
                }
                bi = bi + 1;
            }
            assert(bv.take(beams.len() as int) =~= bv);
            assert(cands@.take(ci + 1).drop_last() =~= cands@.take(ci as int));
            ci = ci + 1;
        }
        assert(cands@.take(cands.len() as int) =~= cands@);
        proof {
            law_expansion_order(self@, hw@, bv, cands@);
            let ext = expansions(self@, hw@, bv, cands@);
            assert forall|c: int, b: int|
                #![trigger beams[b], cands[c]]
                0 <= c < cands.len() && 0 <= b < beams.len() implies {
                    let t = targets[c * beams.len() + b];
                    let e = spec_extend(self@, hw@, beams[b]@, cands[c]);
                    &&& t < prefixes.len()
                    &&& prefixes[t as int]@.text == e.text
                    &&& prefixes[t as int]@.word_part == e.word_part
                    &&& prefixes[t as int]@.last_idx == e.last_idx
                } by {
                assert(bv[b] == beams[b]@);
                assert(c * beams.len() + b < cands.len() * beams.len()) by (nonlinear_arith)
                    requires
                        0 <= c < cands.len(),
                        0 <= b < beams.len(),
                ;
                assert(0 <= c * beams.len()) by (nonlinear_arith)
                    requires
                        0 <= c,
                ;
                let k = c * beams.len() + b;
                assert(ext[k] == spec_extend(self@, hw@, bv[b], cands@[c]));
                assert(targets[k] < prefixes.len());
            }
        }
        FrameExpansion { prefixes, targets }
    }
}

/// The index of the prefix in `prefixes` with the key of `e`, if any.
fn find_slot(prefixes: &Vec<Prefix>, e: &Prefix) -> (r: Option<usize>)
    ensures
        match r {
            Some(j) => j < prefixes.len() && same_key(prefixes[j as int]@, e@),
            None => forall|j: int| 0 <= j < prefixes.len() ==> !same_key(#[trigger] prefixes[j]@, e@),
        },
{
    let mut j: usize = 0;
    while j < prefixes.len()
        invariant
            j <= prefixes.len(),
            forall|i: int| 0 <= i < j ==> !same_key(#[trigger] prefixes[i]@, e@),
        decreases prefixes.len() - j,
    {
        let q = &prefixes[j];
        let same_last = match (q.last_idx, e.last_idx) {
            (Some(a), Some(b)) => a == b,
            (None, None) => true,
            _ => false,
        };
        if same_last && q.text == e.text && q.word_part == e.word_part {
            return Some(j);
        }
        j = j + 1;
    }
    None
}

/// The classes `i` with `above[i]`, in increasing order.
pub open spec fn indices_where(above: Seq<bool>) -> Seq<usize>
    decreases above.len(),
{
    if above.len() == 0 {
        Seq::empty()
    } else {
        indices_where(above.drop_last()) + if above.last() {
            seq![(above.len() - 1) as usize]
        } else {
            Seq::empty()
        }
    }
}

/// A frame's candidate classes: those whose log-probability reaches the
/// threshold (`above`), in class order, then the best class if it is not
/// among them already.
pub open spec fn spec_candidates(above: Seq<bool>, argmax: usize) -> Seq<usize> {
    let c = indices_where(above);
    if c.contains(argmax) {
        c
    } else {
        c.push(argmax)
    }
}

/// The candidate classes of a frame, given which classes reach the threshold
/// and which class scores best.
pub fn candidate_classes(above: &Vec<bool>, argmax: usize) -> (r: Vec<usize>)
    ensures
        r@ == spec_candidates(above@, argmax),
{
    let mut cands: Vec<usize> = Vec::new();
    let mut i: usize = 0;
    while i < above.len()
        invariant
            i <= above.len(),
            cands@ == indices_where(above@.take(i as int)),
        decreases above.len() - i,
    {
        assert(above@.take(i + 1).drop_last() =~= above@.take(i as int));
        if above[i] {
            cands.push(i);
        }
        assert(cands@ =~= indices_where(above@.take(i + 1)));
        i = i + 1;
    }
    assert(above@.take(above.len() as int) =~= above@);
    let mut found = false;
    let mut k: usize = 0;
    while k < cands.len()
        invariant
            k <= cands.len(),
            found == exists|j: int| 0 <= j < k && cands@[j] == argmax,
        decreases cands.len() - k,
    {
        if cands[k] == argmax {
            found = true;
        }
        k = k + 1;
    }
    if !found {
        cands.push(argmax);
    }
    cands
}

proof fn lemma_indices_where(above: Seq<bool>)
    requires
        above.len() <= usize::MAX,
    ensures
        forall|k: int|
            0 <= k < indices_where(above).len() ==> (#[trigger] indices_where(above)[k]) < above.len()
                && above[indices_where(above)[k] as int],
        forall|k1: int, k2: int|
            0 <= k1 < k2 < indices_where(above).len() ==> (#[trigger] indices_where(above)[k1]) < (
            #[trigger] indices_where(above)[k2]),
        forall|i: int| 0 <= i < above.len() && above[i] ==> indices_where(above).contains(i as usize),
    decreases above.len(),
{
    if above.len() > 0 {
        let init = above.drop_last();
        lemma_indices_where(init);
        let c = indices_where(init);
        let n = above.len() - 1;
        let r = indices_where(above);
        assert(r == c + if above.last() {
            seq![n as usize]
        } else {
            Seq::<usize>::empty()
        });
        assert forall|k: int| 0 <= k < c.len() implies r[k] == c[k] by {}
        if above.last() {
            assert(r[c.len() as int] == n as usize);
            assert(r.len() == c.len() + 1);
        } else {
            assert(r.len() == c.len());
        }
        assert forall|k: int| 0 <= k < r.len() implies (#[trigger] r[k]) < above.len()
            && above[r[k] as int] by {
            if k < c.len() {
                assert(c[k] < init.len() && init[c[k] as int]);
                assert(init[c[k] as int] == above[c[k] as int]);
            }
        }
        assert forall|k1: int, k2: int| 0 <= k1 < k2 < r.len() implies (#[trigger] r[k1]) < (
        #[trigger] r[k2]) by {
            if k2 < c.len() {
                assert(c[k1] < c[k2]);
            } else {
                assert(c[k1] < init.len());
            }
        }
        assert forall|i: int| 0 <= i < above.len() && above[i] implies r.contains(i as usize) by {
            if i < n {
                assert(init[i] == above[i]);
                assert(c.contains(i as usize));
                let k = choose|k: int| 0 <= k < c.len() && c[k] == i as usize;
                assert(r[k] == i as usize);
            } else {
                assert(r[c.len() as int] == i as usize);
            }
        }
    }
}

/// The candidates always include the best class, include every class that
/// reaches the threshold, hold nothing else, and hold no class twice.
pub proof fn law_candidates(above: Seq<bool>, argmax: usize)
    requires
        above.len() <= usize::MAX,
    ensures
        spec_candidates(above, argmax).contains(argmax),
        forall|i: int|
            0 <= i < above.len() && above[i] ==> spec_candidates(above, argmax).contains(i as usize),
        forall|k: int|
            0 <= k < spec_candidates(above, argmax).len() ==> #[trigger] spec_candidates(
                above,
                argmax,
            )[k] == argmax || (spec_candidates(above, argmax)[k] < above.len() && above[spec_candidates(
                above,
                argmax,
            )[k] as int]),
        spec_candidates(above, argmax).no_duplicates(),
        forall|k1: int, k2: int|
            0 <= k1 < k2 < spec_candidates(above, argmax).len() && spec_candidates(above, argmax)[k2]
                < above.len() && above[spec_candidates(above, argmax)[k2] as int] ==> #[trigger] spec_candidates(
                above,
                argmax,
            )[k1] < #[trigger] spec_candidates(above, argmax)[k2],
        !(argmax < above.len() && above[argmax as int]) ==> spec_candidates(above, argmax).last()
            == argmax,
{
    lemma_indices_where(above);
    let c = indices_where(above);
    let r = spec_candidates(above, argmax);
    if !c.contains(argmax) {
        assert(r[c.len() as int] == argmax);
    }
    assert forall|i: int| 0 <= i < above.len() && above[i] implies r.contains(i as usize) by {
        let k = choose|k: int| 0 <= k < c.len() && c[k] == i as usize;
        assert(r[k] == i as usize);
    }
    assert forall|k: int| 0 <= k < r.len() implies #[trigger] r[k] == argmax || (r[k] < above.len()
        && above[r[k] as int]) by {
        if k < c.len() {
            assert(r[k] == c[k]);
        }
    }
    assert forall|k1: int, k2: int|
        0 <= k1 < k2 < r.len() && r[k2] < above.len() && above[r[k2] as int] implies #[trigger] r[k1]
        < #[trigger] r[k2] by {
        if k2 < c.len() {
            assert(r[k1] == c[k1] && r[k2] == c[k2]);
            assert(c[k1] < c[k2]);
        } else {
            assert(r[k2] == argmax);
            assert(c.contains(argmax));
        }
    }
    if !(argmax < above.len() && above[argmax as int]) {
        if c.contains(argmax) {
            let k = choose|k: int| 0 <= k < c.len() && c[k] == argmax;
            assert(above[c[k] as int]);
        }
    }
    assert forall|i: int, j: int| 0 <= i < r.len() && 0 <= j < r.len() && i != j implies r[i]
        != r[j] by {
        if i < c.len() && j < c.len() {
            if i < j {
                assert(c[i] < c[j]);
            } else {
                assert(c[j] < c[i]);
            }
        } else if i < c.len() {
            assert(r[j] == argmax);
            assert(r[i] == c[i]);
        } else if j < c.len() {
            assert(r[i] == argmax);
            assert(r[j] == c[j]);
        }
    }
}

/// CTC collapse: the blank, or the class just emitted, leaves the text, the
/// word in progress and the hotword count as they were.
pub proof fn law_blank_or_repeat_changes_only_last_class(
    dec: DecoderModel,
    words: Seq<Seq<char>>,
    p: PrefixModel,
    idx: usize,
)
    requires
        idx == dec.blank_id || p.last_idx == Some(idx),
    ensures
        spec_extend(dec, words, p, idx) == (PrefixModel { last_idx: Some(idx), ..p }),
{
}

/// A class repeated without a blank between collapses: growing by it twice is
/// growing by it once.
pub proof fn law_repeat_collapses(dec: DecoderModel, words: Seq<Seq<char>>, p: PrefixModel, idx: usize)
    ensures
        spec_extend(dec, words, spec_extend(dec, words, p, idx), idx) == spec_extend(
            dec,
            words,
            p,
            idx,
        ),
{
}

/// A word-start label, on any prefix: the new word in progress is the label
/// without its leading and trailing markers; a non-empty word in progress is
/// completed (appended after a single space, or becoming the text when the
/// text is empty) and counted exactly when it is a hotword; an empty one
/// leaves text and count alone.
pub proof fn law_word_start_completes_word(
    dec: DecoderModel,
    words: Seq<Seq<char>>,
    p: PrefixModel,
    idx: usize,
)
    requires
        idx != dec.blank_id,
        p.last_idx != Some(idx),
        dec.labels[idx as int].len() > 0,
        dec.labels[idx as int][0] == '\u{2581}',
    ensures
        spec_extend(dec, words, p, idx).last_idx == Some(idx),
        spec_extend(dec, words, p, idx).word_part == trim_end(
            trim_start(dec.labels[idx as int], BPE),
            BPE,
        ),
        p.word_part.len() == 0 ==> spec_extend(dec, words, p, idx).text == p.text && spec_extend(
            dec,
            words,
            p,
            idx,
        ).hw_count == p.hw_count,
        p.word_part.len() > 0 && p.text.len() == 0 ==> spec_extend(dec, words, p, idx).text
            == p.word_part,
        p.word_part.len() > 0 && p.text.len() > 0 ==> spec_extend(dec, words, p, idx).text
            == p.text + seq![' '] + p.word_part,
        p.word_part.len() > 0 ==> spec_extend(dec, words, p, idx).hw_count == p.hw_count + if words.contains(
            p.word_part,
        ) {
            1nat
        } else {
            0nat
        },
{
}

/// A continuation label (not the blank, not a repeat, not a word start)
/// appends the whole label to the word in progress and leaves the text and
/// the count alone.
pub proof fn law_continuation_appends_whole_label(
    dec: DecoderModel,
    words: Seq<Seq<char>>,
    p: PrefixModel,
    idx: usize,
)
    requires
        idx != dec.blank_id,
        p.last_idx != Some(idx),
        dec.labels[idx as int].len() == 0 || dec.labels[idx as int][0] != '\u{2581}',
    ensures
        spec_extend(dec, words, p, idx).word_part == p.word_part + dec.labels[idx as int],
        spec_extend(dec, words, p, idx).word_part.len() == p.word_part.len() + dec.labels[idx as int].len(),
        spec_extend(dec, words, p, idx).text == p.text,
        spec_extend(dec, words, p, idx).hw_count == p.hw_count,
        spec_extend(dec, words, p, idx).last_idx == Some(idx),
{
}

/// The expansions of a frame come candidate by candidate, each candidate
/// growing every beam in beam order: expansion `c * |beams| + b` is beam `b`
/// grown by candidate `c`, with the frame's own hotword vocabulary.
pub proof fn law_expansion_order(
    dec: DecoderModel,
    words: Seq<Seq<char>>,
    beams: Seq<PrefixModel>,
    cands: Seq<usize>,
)
    ensures
        expansions(dec, words, beams, cands).len() == cands.len() * beams.len(),
        forall|c: int, b: int|
            #![trigger beams[b], cands[c]]
            0 <= c < cands.len() && 0 <= b < beams.len() ==> expansions(dec, words, beams, cands)[c
                * beams.len() + b] == spec_extend(dec, words, beams[b], cands[c]),
    decreases cands.len(),
{
    if cands.len() > 0 {
        let init = cands.drop_last();
        law_expansion_order(dec, words, beams, init);
        let n = cands.len();
        let nb = beams.len();
        let e0 = expansions(dec, words, beams, init);
        let r = row(dec, words, beams, cands.last());
        let e = expansions(dec, words, beams, cands);
        assert(e == e0 + r);
        assert((n - 1) * nb + nb == n * nb) by (nonlinear_arith);
        assert forall|c: int, b: int|
            #![trigger beams[b], cands[c]]
            0 <= c < n && 0 <= b < nb implies e[c * nb + b] == spec_extend(
                dec,
                words,
                beams[b],
                cands[c],
            ) by {
            if c < n - 1 {
                assert(c * nb + b < (n - 1) * nb) by (nonlinear_arith)
                    requires
                        0 <= c < n - 1,
                        0 <= b < nb,
                ;
                assert(0 <= c * nb) by (nonlinear_arith)
                    requires
                        0 <= c,
                        0 <= nb,
                ;
                assert(init[c] == cands[c]);
                assert(e[c * nb + b] == e0[c * nb + b]);
            } else {
                assert(c * nb == (n - 1) * nb);
                assert(e[c * nb + b] == r[b]);
            }
        }
    }
}

/// The hotword count grows by at most one per frame, so it never exceeds the
/// number of classes grown.
pub proof fn law_hotword_count_at_most_frames(
    dec: DecoderModel,
    words: Seq<Seq<char>>,
    path: Seq<usize>,
)
    ensures
        run(dec, words, path).hw_count <= path.len(),
    decreases path.len(),
{
    if path.len() > 0 {
        law_hotword_count_at_most_frames(dec, words, path.drop_last());
    }
}

/// No two merged prefixes share a key.
pub proof fn law_merged_keys_distinct(s: Seq<PrefixModel>)
    ensures
        forall|i: int, j: int|
            0 <= i < j < merge_all(s).len() ==> !(#[trigger] merge_all(s)[i].text == #[trigger] merge_all(
                s,
            )[j].text && merge_all(s)[i].word_part == merge_all(s)[j].word_part && merge_all(s)[i].last_idx
                == merge_all(s)[j].last_idx),
    decreases s.len(),
{
    if s.len() > 0 {
        let init = s.drop_last();
        law_merged_keys_distinct(init);
        let m = merge_all(init);
        if !exists|j: int| 0 <= j < m.len() && same_key(#[trigger] m[j], s.last()) {
            let r = m.push(s.last());
            assert(merge_all(s) == r);
            assert forall|i: int, j: int| 0 <= i < j < r.len() implies !same_key(
                #[trigger] r[i],
                #[trigger] r[j],
            ) by {
                if j < m.len() {
                    assert(r[i] == m[i] && r[j] == m[j]);
                } else {
                    assert(r[i] == m[i]);
                    assert(!same_key(m[i], s.last()));
                }
            }
        }
    }
}

/// Merging loses no key: every prefix has a merged prefix with its key.
pub proof fn law_merge_loses_no_key(s: Seq<PrefixModel>)
    ensures
        forall|k: int|
            #![trigger s[k]]
            0 <= k < s.len() ==> exists|j: int|
                0 <= j < merge_all(s).len() && #[trigger] merge_all(s)[j].text == s[k].text
                    && merge_all(s)[j].word_part == s[k].word_part && merge_all(s)[j].last_idx
                    == s[k].last_idx,
    decreases s.len(),
{
    if s.len() > 0 {
        let init = s.drop_last();
        law_merge_loses_no_key(init);
        let m = merge_all(init);
        let last = s.last();
        let r = merge_all(s);
        let found = exists|j: int| 0 <= j < m.len() && same_key(#[trigger] m[j], last);
        if found {
            assert(r == m);
        } else {
            assert(r == m.push(last));
        }
        assert forall|k: int| #![trigger s[k]] 0 <= k < s.len() implies exists|j: int|
            0 <= j < r.len() && same_key(#[trigger] r[j], s[k]) by {
            if k < init.len() {
                assert(init[k] == s[k]);
                let j = choose|j: int| 0 <= j < m.len() && same_key(#[trigger] m[j], init[k]);
                assert(r[j] == m[j]);
            } else if found {
                let j = choose|j: int| 0 <= j < m.len() && same_key(#[trigger] m[j], last);
                assert(r[j] == m[j]);
            } else {
                assert(r[m.len() as int] == last);
            }
        }
    }
}

/// No prefix before position `k` of `s` has the key of `s[k]`.
pub open spec fn first_of_key(s: Seq<PrefixModel>, k: int) -> bool {
    forall|i: int|
        0 <= i < k ==> !(#[trigger] s[i].text == s[k].text && s[i].word_part == s[k].word_part
            && s[i].last_idx == s[k].last_idx)
}

proof fn lemma_first_of_key_in_prefix(s: Seq<PrefixModel>, k: int)
    requires
        s.len() > 0,
        0 <= k < s.len() - 1,
        first_of_key(s.drop_last(), k),
    ensures
        first_of_key(s, k),
{
    let init = s.drop_last();
    assert forall|i: int| 0 <= i < k implies !same_key(#[trigger] s[i], s[k]) by {
        assert(s[i] == init[i]);
        assert(!same_key(init[i], init[k]));
    }
}

proof fn lemma_new_key_is_first(s: Seq<PrefixModel>)
    requires
        s.len() > 0,
        !exists|j: int|
            0 <= j < merge_all(s.drop_last()).len() && same_key(
                #[trigger] merge_all(s.drop_last())[j],
                s.last(),
            ),
    ensures
        first_of_key(s, s.len() - 1),
{
    let init = s.drop_last();
    let m = merge_all(init);
    law_merge_loses_no_key(init);
    let k = s.len() - 1;
    assert forall|i: int| 0 <= i < k implies !same_key(#[trigger] s[i], s[k]) by {
        assert(s[i] == init[i]);
        let jj = choose|jj: int| 0 <= jj < m.len() && same_key(#[trigger] m[jj], init[i]);
        if same_key(s[i], s[k]) {
            assert(same_key(m[jj], s.last()));
        }
    }
}

/// Merging invents nothing: every merged prefix is the first prefix with its
/// key, so it keeps that prefix's hotword count.
pub proof fn law_merged_prefix_is_first_of_its_key(s: Seq<PrefixModel>)
    ensures
        forall|j: int|
            0 <= j < merge_all(s).len() ==> exists|k: int|
                0 <= k < s.len() && #[trigger] merge_all(s)[j] == s[k] && first_of_key(s, k),
    decreases s.len(),
{
    if s.len() > 0 {
        let init = s.drop_last();
        law_merged_prefix_is_first_of_its_key(init);
        let m = merge_all(init);
        let last = s.last();
        let r = merge_all(s);
        let found = exists|j: int| 0 <= j < m.len() && same_key(#[trigger] m[j], last);
        if found {
            assert(r == m);
        } else {
            assert(r == m.push(last));
            lemma_new_key_is_first(s);
        }
        assert forall|j: int| 0 <= j < r.len() implies exists|k: int|
            0 <= k < s.len() && #[trigger] r[j] == s[k] && first_of_key(s, k) by {
            if j < m.len() {
                assert(r[j] == m[j]);
                let k = choose|k: int|
                    0 <= k < init.len() && #[trigger] m[j] == init[k] && first_of_key(init, k);
                lemma_first_of_key_in_prefix(s, k);
                assert(s[k] == init[k]);
            } else {
                assert(r[j] == s[s.len() - 1]);
            }
        }
    }
}

/// The words that growing `path` from the initial prefix completes, in order:
/// the word in progress, whenever a word-start label arrives while it is not
/// empty.
pub open spec fn completed_words(
    dec: DecoderModel,
    words: Seq<Seq<char>>,
    path: Seq<usize>,
) -> Seq<Seq<char>>
    decreases path.len(),
{
    if path.len() == 0 {
        Seq::empty()
    } else {
        let prev = run(dec, words, path.drop_last());
        let done = completed_words(dec, words, path.drop_last());
        let idx = path.last();
        if idx != dec.blank_id && prev.last_idx != Some(idx) && starts_word(dec.labels[idx as int])
            && prev.word_part.len() > 0 {
            done.push(prev.word_part)
        } else {
            done
        }
    }
}

/// Words joined by single spaces.
pub open spec fn join_words(ws: Seq<Seq<char>>) -> Seq<char>
    decreases ws.len(),
{
    if ws.len() == 0 {
        Seq::empty()
    } else if ws.len() == 1 {
        ws[0]
    } else {
        join_words(ws.drop_last()) + seq![' '] + ws.last()
    }
}

/// How many of `ws` are hotwords.
pub open spec fn count_hotwords(ws: Seq<Seq<char>>, words: Seq<Seq<char>>) -> nat
    decreases ws.len(),
{
    if ws.len() == 0 {
        0
    } else {
        count_hotwords(ws.drop_last(), words) + if words.contains(ws.last()) {
            1nat
        } else {
            0nat
        }
    }
}

/// A prefix's text is exactly its completed words joined by single spaces,
/// and its hotword count is the number of those words that are hotwords.
pub proof fn law_text_and_count_follow_completed_words(
    dec: DecoderModel,
    words: Seq<Seq<char>>,
    path: Seq<usize>,
)
    ensures
        run(dec, words, path).text == join_words(completed_words(dec, words, path)),
        run(dec, words, path).hw_count == count_hotwords(completed_words(dec, words, path), words),
        forall|k: int|
            0 <= k < completed_words(dec, words, path).len() ==> (#[trigger] completed_words(
                dec,
                words,
                path,
            )[k]).len() > 0,
    decreases path.len(),
{
    if path.len() > 0 {
        let init = path.drop_last();
        law_text_and_count_follow_completed_words(dec, words, init);
        let prev = run(dec, words, init);
        let done = completed_words(dec, words, init);
        let idx = path.last();
        if idx != dec.blank_id && prev.last_idx != Some(idx) && starts_word(dec.labels[idx as int])
            && prev.word_part.len() > 0 {
            let now = done.push(prev.word_part);
            assert(completed_words(dec, words, path) == now);
            assert(now.drop_last() =~= done);
            if done.len() > 0 {
                assert(done[0].len() > 0);
                assert(join_words(done).len() > 0) by {
                    lemma_join_nonempty(done);
                }
            }
            assert forall|k: int| 0 <= k < now.len() implies (#[trigger] now[k]).len() > 0 by {
                if k < done.len() {
                    assert(now[k] == done[k]);
                }
            }
        }
    }
}

proof fn lemma_join_nonempty(ws: Seq<Seq<char>>)
    requires
        ws.len() > 0,
        ws[0].len() > 0,
    ensures
        join_words(ws).len() > 0,
    decreases ws.len(),
{
    if ws.len() > 1 {
        lemma_join_nonempty(ws.drop_last());
    }
}

/// Folding a word: an empty word changes nothing; otherwise the word is
/// appended after one space (or becomes the text when the text is empty),
/// and the count grows by one exactly when the word is a hotword.
pub proof fn law_fold(text: Seq<char>, word_part: Seq<char>, hw_count: nat, words: Seq<Seq<char>>)
    ensures
        word_part.len() == 0 ==> spec_fold(text, word_part, hw_count, words) == (text, hw_count),
        word_part.len() > 0 ==> spec_fold(text, word_part, hw_count, words).1 == hw_count + if words.contains(
            word_part,
        ) {
            1nat
        } else {
            0nat
        },
        word_part.len() > 0 && text.len() == 0 ==> spec_fold(text, word_part, hw_count, words).0
            == word_part,
        word_part.len() > 0 && text.len() > 0 ==> spec_fold(text, word_part, hw_count, words).0
            == text + seq![' '] + word_part,
{
}

/// `pos` gives, for each merged prefix, the strictly increasing positions in
/// `s` of the first prefixes with their keys.
pub open spec fn first_positions(s: Seq<PrefixModel>, m: Seq<PrefixModel>, pos: Seq<int>) -> bool {
    &&& pos.len() == m.len()
    &&& forall|j: int|
        0 <= j < pos.len() ==> 0 <= #[trigger] pos[j] < s.len() && m[j] == s[pos[j]]
            && first_of_key(s, pos[j])
    &&& forall|j1: int, j2: int| 0 <= j1 < j2 < pos.len() ==> #[trigger] pos[j1] < #[trigger] pos[j2]
}

/// Merged prefixes are the first prefixes of their keys, in the order in
/// which those keys first appear.
pub proof fn law_merge_keeps_first_appearance_order(s: Seq<PrefixModel>)
    ensures
        exists|pos: Seq<int>| first_positions(s, merge_all(s), pos),
    decreases s.len(),
{
    if s.len() == 0 {
        assert(first_positions(s, merge_all(s), Seq::<int>::empty()));
    } else {
        let init = s.drop_last();
        law_merge_keeps_first_appearance_order(init);
        let m = merge_all(init);
        let pos0 = choose|pos: Seq<int>| first_positions(init, m, pos);
        let last = s.last();
        let found = exists|j: int| 0 <= j < m.len() && same_key(#[trigger] m[j], last);
        assert forall|j: int| 0 <= j < pos0.len() implies 0 <= #[trigger] pos0[j] < s.len() && m[j]
            == s[pos0[j]] && first_of_key(s, pos0[j]) by {
            lemma_first_of_key_in_prefix(s, pos0[j]);
            assert(s[pos0[j]] == init[pos0[j]]);
        }
        if found {
            assert(merge_all(s) == m);
            assert(first_positions(s, merge_all(s), pos0));
        } else {
            assert(merge_all(s) == m.push(last));
            lemma_new_key_is_first(s);
            let pos = pos0.push(s.len() - 1);
            assert forall|j: int| 0 <= j < pos.len() implies 0 <= #[trigger] pos[j] < s.len()
                && m.push(last)[j] == s[pos[j]] && first_of_key(s, pos[j]) by {
                if j < pos0.len() {
                    assert(pos[j] == pos0[j]);
                }
            }
            assert forall|j1: int, j2: int| 0 <= j1 < j2 < pos.len() implies #[trigger] pos[j1]
                < #[trigger] pos[j2] by {
                if j2 < pos0.len() {
                    assert(pos0[j1] < pos0[j2]);
                } else {
                    assert(pos0[j1] < init.len());
                }
            }
            assert(first_positions(s, merge_all(s), pos));
        }
    }
}

/// The views of a vector of prefixes are its prefixes' views, one for one.
pub proof fn law_prefix_views_elementwise(v: Seq<Prefix>)
    ensures
        prefix_views(v).len() == v.len(),
        forall|i: int| 0 <= i < v.len() ==> #[trigger] prefix_views(v)[i] == v[i]@,
{
}

} // verus!
