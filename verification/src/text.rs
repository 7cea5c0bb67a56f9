//! Character-level text operations on `str`/`String`, specified over their
//! `Seq<char>` views: whitespace splitting, prefix tests and trimming.
use vstd::prelude::*;
use vstd::string::*;

verus! {

/// The Unicode `White_Space` property, which is what `char::is_whitespace` tests.
pub open spec fn is_ws(c: char) -> bool {
    let u = c as u32;
    ||| 0x9 <= u <= 0xD
    ||| u == 0x20
    ||| u == 0x85
    ||| u == 0xA0
    ||| u == 0x1680
    ||| 0x2000 <= u <= 0x200A
    ||| u == 0x2028
    ||| u == 0x2029
    ||| u == 0x202F
    ||| u == 0x205F
    ||| u == 0x3000
}

/// The words of `s`: its maximal runs of non-whitespace characters, in order
/// (what `str::split_whitespace` yields), read left to right.
pub open spec fn split_ws(s: Seq<char>) -> Seq<Seq<char>>
    decreases s.len(),
{
    if s.len() == 0 {
        Seq::empty()
    } else {
        let init = split_ws(s.drop_last());
        let c = s.last();
        if is_ws(c) {
            init
        } else if s.len() >= 2 && !is_ws(s[s.len() - 2]) {
            init.drop_last().push(init.last().push(c))
        } else {
            init.push(seq![c])
        }
    }
}

/// `s` with every leading `c` removed.
pub open spec fn trim_start(s: Seq<char>, c: char) -> Seq<char>
    decreases s.len(),
{
    if s.len() > 0 && s[0] == c {
        trim_start(s.drop_first(), c)
    } else {
        s
    }
}

/// `s` with every trailing `c` removed.
pub open spec fn trim_end(s: Seq<char>, c: char) -> Seq<char>
    decreases s.len(),
{
    if s.len() > 0 && s.last() == c {
        trim_end(s.drop_last(), c)
    } else {
        s
    }
}

/// The views of a vector of strings.
pub open spec fn views(v: Seq<String>) -> Seq<Seq<char>> {
    v.map_values(|s: String| s@)
}

/// Pushing onto a vector of strings pushes the view.
pub proof fn lemma_views_push(v: Seq<String>, x: String)
    ensures
        views(v.push(x)) == views(v).push(x@),
{
    assert(views(v.push(x)) =~= views(v).push(x@));
}

/// Whether `c` is whitespace (the Unicode `White_Space` property).
pub fn is_white_space(c: char) -> (r: bool)
    ensures
        r == is_ws(c),
{
    let u = c as u32;
    (0x9 <= u && u <= 0xD) || u == 0x20 || u == 0x85 || u == 0xA0 || u == 0x1680 || (0x2000 <= u
        && u <= 0x200A) || u == 0x2028 || u == 0x2029 || u == 0x202F || u == 0x205F || u == 0x3000
}

proof fn lemma_split_step(s: Seq<char>, i: int)
    requires
        0 <= i < s.len(),
    ensures
        split_ws(s.take(i + 1)) == ({
            let init = split_ws(s.take(i));
            if is_ws(s[i]) {
                init
            } else if i >= 1 && !is_ws(s[i - 1]) {
                init.drop_last().push(init.last().push(s[i]))
            } else {
                init.push(seq![s[i]])
            }
        }),
{
    assert(s.take(i + 1).drop_last() =~= s.take(i));
}

/// Splits `s` into its whitespace-separated words, as `str::split_whitespace` does.
pub fn split_whitespace(s: &str) -> (words: Vec<String>)
    ensures
        views(words@) == split_ws(s@),
{
    let n = s.unicode_len();
    let mut words: Vec<String> = Vec::new();
    let mut start: usize = 0;
    let mut in_word = false;
    let mut i: usize = 0;
    while i < n
        invariant
            n == s@.len(),
            0 <= start <= i <= n,
            in_word == (i > 0 && !is_ws(s@[i - 1])),
            in_word ==> start < i,
            in_word ==> split_ws(s@.take(i as int)) == views(words@).push(
                s@.subrange(start as int, i as int),
            ),
            !in_word ==> split_ws(s@.take(i as int)) == views(words@),
        decreases n - i,
    {
        let c = s.get_char(i);
        proof {
            lemma_split_step(s@, i as int);
        }
        let ghost prev = views(words@);
        if is_white_space(c) {
            if in_word {
                let w = s.substring_char(start, i);
                words.push(w.to_owned());
                assert(views(words@) =~= prev.push(s@.subrange(start as int, i as int)));
            }
            in_word = false;
        } else {
            if !in_word {
                start = i;
                assert(seq![c] =~= s@.subrange(i as int, i + 1));
            } else {
                assert(s@.subrange(start as int, i as int).push(c) =~= s@.subrange(
                    start as int,
                    i + 1,
                ));
                assert(prev.push(s@.subrange(start as int, i as int)).drop_last() =~= prev);
            }
            in_word = true;
        }
        i = i + 1;
    }
    assert(s@.take(n as int) =~= s@);
    let ghost prev = views(words@);
    if in_word {
        let w = s.substring_char(start, n);
        words.push(w.to_owned());
        assert(views(words@) =~= prev.push(s@.subrange(start as int, n as int)));
    }
    words
}

/// Whether `p` is a prefix of `s`, compared character by character (as `str::starts_with`).
pub fn has_prefix(s: &str, p: &str) -> (r: bool)
    ensures
        r == p@.is_prefix_of(s@),
{
    let n = s.unicode_len();
    let m = p.unicode_len();
    if m > n {
        return false;
    }
    let mut i: usize = 0;
    while i < m
        invariant
            n == s@.len(),
            m == p@.len(),
            m <= n,
            i <= m,
            forall|k: int| 0 <= k < i ==> p@[k] == s@[k],
        decreases m - i,
    {
        if p.get_char(i) != s.get_char(i) {
            return false;
        }
        i = i + 1;
    }
    assert(p@ =~= s@.subrange(0, m as int));
    true
}

/// Whether `a` and `b` hold the same characters.
pub fn same_chars(a: &str, b: &str) -> (r: bool)
    ensures
        r == (a@ == b@),
{
    if a.unicode_len() != b.unicode_len() {
        return false;
    }
    let r = has_prefix(a, b);
    proof {
        if r {
            assert(a@ =~= b@);
        }
    }
    r
}

proof fn lemma_trim_start(s: Seq<char>, c: char, i: int)
    requires
        0 <= i <= s.len(),
        forall|k: int| 0 <= k < i ==> s[k] == c,
        i == s.len() || s[i] != c,
    ensures
        trim_start(s, c) == s.skip(i),
    decreases i,
{
    if i > 0 {
        lemma_trim_start(s.drop_first(), c, i - 1);
        assert(s.drop_first().skip(i - 1) =~= s.skip(i));
    } else {
        assert(s.skip(0) =~= s);
    }
}

proof fn lemma_trim_end(s: Seq<char>, c: char, m: int)
    requires
        0 <= m <= s.len(),
        forall|k: int| m <= k < s.len() ==> s[k] == c,
        m == 0 || s[m - 1] != c,
    ensures
        trim_end(s, c) == s.take(m),
    decreases s.len() - m,
{
    if m < s.len() {
        lemma_trim_end(s.drop_last(), c, m);
        assert(s.drop_last().take(m) =~= s.take(m));
    } else {
        assert(s.take(m) =~= s);
    }
}

/// `s` with every leading and every trailing `c` removed
/// (`s.trim_start_matches(c).trim_end_matches(c)`).
pub fn trim_char(s: &str, c: char) -> (r: String)
    ensures
        r@ == trim_end(trim_start(s@, c), c),
{
    let n = s.unicode_len();
    let mut i: usize = 0;
    while i < n && s.get_char(i) == c
        invariant
            n == s@.len(),
            i <= n,
            forall|k: int| 0 <= k < i ==> s@[k] == c,
        decreases n - i,
    {
        i = i + 1;
    }
    let mut j: usize = n;
    while j > i && s.get_char(j - 1) == c
        invariant
            n == s@.len(),
            i <= j <= n,
            forall|k: int| j <= k < n ==> s@[k] == c,
        decreases j - i,
    {
        j = j - 1;
    }
    proof {
        lemma_trim_start(s@, c, i as int);
        let t = s@.skip(i as int);
        lemma_trim_end(t, c, j - i);
        assert(t.take(j - i) =~= s@.subrange(i as int, j as int));
    }
    s.substring_char(i, j).to_owned()
}

/// Every word that whitespace splitting yields is a non-empty run of
/// non-whitespace characters.
pub proof fn law_words_are_nonempty_runs(s: Seq<char>)
    ensures
        forall|k: int|
            0 <= k < split_ws(s).len() ==> (#[trigger] split_ws(s)[k]).len() > 0 && forall|j: int|
                0 <= j < split_ws(s)[k].len() ==> !is_ws(split_ws(s)[k][j]),
        s.len() > 0 && !is_ws(s.last()) ==> split_ws(s).len() > 0 && split_ws(s).last().len() > 0
            && split_ws(s).last().last() == s.last(),
    decreases s.len(),
{
    if s.len() > 0 {
        let init_s = s.drop_last();
        law_words_are_nonempty_runs(init_s);
        let init = split_ws(init_s);
        let c = s.last();
        if !is_ws(c) {
            if s.len() >= 2 && !is_ws(s[s.len() - 2]) {
                assert(init_s.last() == s[s.len() - 2]);
                let r = init.drop_last().push(init.last().push(c));
                assert(split_ws(s) == r);
                assert forall|k: int| 0 <= k < r.len() implies (#[trigger] r[k]).len() > 0 && forall|
                    j: int,
                | 0 <= j < r[k].len() ==> !is_ws(r[k][j]) by {
                    if k < r.len() - 1 {
                        assert(r[k] == init[k]);
                    } else {
                        assert(r[k] == init.last().push(c));
                        assert(init.last() == init[init.len() - 1]);
                    }
                }
            } else {
                let r = init.push(seq![c]);
                assert(split_ws(s) == r);
                assert forall|k: int| 0 <= k < r.len() implies (#[trigger] r[k]).len() > 0 && forall|
                    j: int,
                | 0 <= j < r[k].len() ==> !is_ws(r[k][j]) by {
                    if k < r.len() - 1 {
                        assert(r[k] == init[k]);
                    }
                }
            }
        }
    }
}

proof fn lemma_trim_start_shape(s: Seq<char>, c: char)
    ensures
        trim_start(s, c).len() <= s.len(),
        trim_start(s, c) == s.skip(s.len() - trim_start(s, c).len()),
        forall|k: int| 0 <= k < s.len() - trim_start(s, c).len() ==> s[k] == c,
        trim_start(s, c).len() > 0 ==> trim_start(s, c)[0] != c,
    decreases s.len(),
{
    if s.len() > 0 && s[0] == c {
        let t = s.drop_first();
        lemma_trim_start_shape(t, c);
        let r = trim_start(t, c);
        assert(t.skip(t.len() - r.len()) =~= s.skip(s.len() - r.len()));
        assert forall|k: int| 0 <= k < s.len() - r.len() implies s[k] == c by {
            if k > 0 {
                assert(s[k] == t[k - 1]);
            }
        }
    } else {
        assert(s.skip(0) =~= s);
    }
}

proof fn lemma_trim_end_shape(s: Seq<char>, c: char)
    ensures
        trim_end(s, c).len() <= s.len(),
        trim_end(s, c) == s.take(trim_end(s, c).len() as int),
        forall|k: int| trim_end(s, c).len() <= k < s.len() ==> s[k] == c,
        trim_end(s, c).len() > 0 ==> trim_end(s, c).last() != c,
    decreases s.len(),
{
    if s.len() > 0 && s.last() == c {
        let t = s.drop_last();
        lemma_trim_end_shape(t, c);
        let r = trim_end(t, c);
        assert(t.take(r.len() as int) =~= s.take(r.len() as int));
        assert forall|k: int| r.len() <= k < s.len() implies s[k] == c by {
            if k < s.len() - 1 {
                assert(s[k] == t[k]);
            }
        }
    } else {
        assert(s.take(s.len() as int) =~= s);
    }
}

/// Trimming `c` from both ends keeps exactly the middle of `s`: what is
/// removed in front and behind is all `c`, and what is kept neither starts
/// nor ends with `c`.
pub proof fn law_trim_removes_exactly_edge_markers(s: Seq<char>, c: char)
    ensures
        exists|i: int, j: int|
            0 <= i <= j <= s.len() && trim_end(trim_start(s, c), c) == s.subrange(i, j) && (forall|
                k: int,
            | 0 <= k < i ==> s[k] == c) && (forall|k: int| j <= k < s.len() ==> s[k] == c) && (i
                < j ==> s[i] != c && s[j - 1] != c),
{
    lemma_trim_start_shape(s, c);
    let t1 = trim_start(s, c);
    lemma_trim_end_shape(t1, c);
    let t2 = trim_end(t1, c);
    let i = s.len() - t1.len();
    let j = i + t2.len();
    assert(t2 =~= s.subrange(i, j));
    assert forall|k: int| j <= k < s.len() implies s[k] == c by {
        assert(s[k] == t1[k - i]);
    }
    if i < j {
        assert(s[i] == t1[0]);
        assert(s[j - 1] == t2.last());
    }
    assert(0 <= i <= j <= s.len() && trim_end(trim_start(s, c), c) == s.subrange(i, j) && (forall|
        k: int,
    | 0 <= k < i ==> s[k] == c) && (forall|k: int| j <= k < s.len() ==> s[k] == c) && (i < j ==> s[i]
        != c && s[j - 1] != c));
}

/// The non-whitespace characters of `s`, in order.
pub open spec fn non_ws_chars(s: Seq<char>) -> Seq<char>
    decreases s.len(),
{
    if s.len() == 0 {
        Seq::empty()
    } else if is_ws(s.last()) {
        non_ws_chars(s.drop_last())
    } else {
        non_ws_chars(s.drop_last()).push(s.last())
    }
}

/// A word of `s` at positions `i..j`: bounded by the ends of `s` or by
/// whitespace on both sides.
pub open spec fn bounded_run(s: Seq<char>, w: Seq<char>, i: int, j: int) -> bool {
    &&& 0 <= i < j <= s.len()
    &&& w == s.subrange(i, j)
    &&& (i == 0 || is_ws(s[i - 1]))
    &&& (j == s.len() || is_ws(s[j]))
}

/// `w` is a whole run of `s`, bounded by whitespace or by the ends of `s`.
pub open spec fn is_bounded_run(s: Seq<char>, w: Seq<char>) -> bool {
    exists|i: int, j: int| bounded_run(s, w, i, j)
}

/// Word `k` of `s` lies at `i..j`, and only the last word can reach the end
/// of `s`, which it does when `s` ends in a non-whitespace character.
pub open spec fn word_at(s: Seq<char>, w: Seq<char>, k: int, n: int, i: int, j: int) -> bool {
    &&& bounded_run(s, w, i, j)
    &&& (j == s.len() ==> k == n - 1)
    &&& (k == n - 1 && s.len() > 0 && !is_ws(s.last()) ==> j == s.len())
}

proof fn lemma_split_flat(s: Seq<char>)
    ensures
        split_ws(s).flatten_alt() == non_ws_chars(s),
    decreases s.len(),
{
    law_words_are_nonempty_runs(s);
    if s.len() > 0 {
        let t = s.drop_last();
        lemma_split_flat(t);
        law_words_are_nonempty_runs(t);
        let init = split_ws(t);
        let c = s.last();
        let n = s.len() as int;
        let r = split_ws(s);
        if is_ws(c) {
            assert(r == init);
        } else if n >= 2 && !is_ws(s[n - 2]) {
            assert(t.last() == s[n - 2]);
            let w = init.last().push(c);
            assert(r == init.drop_last().push(w));
            assert(init.drop_last().push(w).drop_last() =~= init.drop_last());
            assert(init.drop_last().push(w).flatten_alt() == init.drop_last().flatten_alt() + w);
            assert(init.flatten_alt() == init.drop_last().flatten_alt() + init.last());
            assert(r.flatten_alt() =~= non_ws_chars(s));
        } else {
            let w = seq![c];
            assert(r == init.push(w));
            assert(r.drop_last() =~= init);
            assert(r.flatten_alt() == init.flatten_alt() + w);
            assert(r.flatten_alt() =~= non_ws_chars(s));
        }
    }
}

proof fn lemma_word_at(s: Seq<char>, k: int)
    requires
        0 <= k < split_ws(s).len(),
    ensures
        exists|i: int, j: int| word_at(s, split_ws(s)[k], k, split_ws(s).len() as int, i, j),
    decreases s.len(),
{
    law_words_are_nonempty_runs(s);
    let t = s.drop_last();
    law_words_are_nonempty_runs(t);
    let init = split_ws(t);
    let c = s.last();
    let n = s.len() as int;
    let r = split_ws(s);
    assert forall|x: int| 0 <= x < t.len() implies t[x] == s[x] by {}
    if is_ws(c) {
        assert(r == init);
        lemma_word_at(t, k);
        let (i, j) = choose|i: int, j: int| word_at(t, init[k], k, init.len() as int, i, j);
        assert(t.subrange(i, j) =~= s.subrange(i, j));
        assert(word_at(s, r[k], k, r.len() as int, i, j));
    } else if n >= 2 && !is_ws(s[n - 2]) {
        assert(t.last() == s[n - 2]);
        let w = init.last().push(c);
        assert(r == init.drop_last().push(w));
        lemma_word_at(t, k);
        let (i, j) = choose|i: int, j: int| word_at(t, init[k], k, init.len() as int, i, j);
        if k < r.len() - 1 {
            assert(r[k] == init[k]);
            assert(t.subrange(i, j) =~= s.subrange(i, j));
            assert(word_at(s, r[k], k, r.len() as int, i, j));
        } else {
            assert(j == t.len());
            assert(w =~= s.subrange(i, n));
            assert(word_at(s, r[k], k, r.len() as int, i, n));
        }
    } else {
        let w = seq![c];
        assert(r == init.push(w));
        if k < init.len() {
            assert(r[k] == init[k]);
            lemma_word_at(t, k);
            let (i, j) = choose|i: int, j: int| word_at(t, init[k], k, init.len() as int, i, j);
            if j == t.len() {
                assert(init[k].len() > 0);
                assert(init[k][j - i - 1] == t[j - 1]);
                assert(!is_ws(init[k][j - i - 1]));
                assert(is_ws(s[n - 2]));
            }
            assert(t.subrange(i, j) =~= s.subrange(i, j));
            assert(word_at(s, r[k], k, r.len() as int, i, j));
        } else {
            assert(w =~= s.subrange(n - 1, n));
            assert(word_at(s, r[k], k, r.len() as int, n - 1, n));
        }
    }
}

/// Whitespace splitting is exact: its words, concatenated, are the
/// non-whitespace characters of `s` in order, and each word is a whole run
/// of `s` bounded by whitespace or by the ends of `s`.
pub proof fn law_split_is_exact(s: Seq<char>)
    ensures
        split_ws(s).flatten() == non_ws_chars(s),
        forall|k: int|
            #![trigger split_ws(s)[k]]
            0 <= k < split_ws(s).len() ==> is_bounded_run(s, split_ws(s)[k]),
{
    lemma_split_flat(s);
    split_ws(s).lemma_flatten_and_flatten_alt_are_equivalent();
    assert forall|k: int|
        #![trigger split_ws(s)[k]]
        0 <= k < split_ws(s).len() implies is_bounded_run(s, split_ws(s)[k]) by {
        lemma_word_at(s, k);
        let (i, j) = choose|i: int, j: int| word_at(s, split_ws(s)[k], k, split_ws(s).len() as int, i, j);
        assert(bounded_run(s, split_ws(s)[k], i, j));
    }
}

/// The views of a vector of strings are its strings' views, one for one.
pub proof fn law_views_elementwise(v: Seq<String>)
    ensures
        views(v).len() == v.len(),
        forall|i: int| 0 <= i < v.len() ==> #[trigger] views(v)[i] == v[i]@,
{
}

} // verus!
