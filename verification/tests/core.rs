use shenava_ctc_beam::decoder::{candidate_classes, Prefix};
use shenava_ctc_beam::rescore::transcript_hotwords;
use shenava_ctc_beam::text::{has_prefix, is_white_space, same_chars, split_whitespace, trim_char};
use shenava_ctc_beam::{default_beam, CtcBeamDecoder, Hotwords};

fn strings(v: &[&str]) -> Vec<String> {
    v.iter().map(|s| s.to_string()).collect()
}

fn no_hotwords() -> Hotwords {
    Hotwords::new(Vec::new())
}

#[test]
fn default_beam_is_one_hundred() {
    assert_eq!(default_beam(), 100);
}

#[test]
fn blank_is_first_empty_label() {
    let dec = CtcBeamDecoder::new(strings(&["\u{2581}cat", "", "\u{2581}cap", ""]));
    assert_eq!(dec.blank_id(), 1);
    assert_eq!(dec.num_labels(), 4);
}

#[test]
fn blank_defaults_to_last_class() {
    let dec = CtcBeamDecoder::new(strings(&["a", "b", "c"]));
    assert_eq!(dec.blank_id(), 2);
}

#[test]
fn repeat_without_blank_collapses() {
    let dec = CtcBeamDecoder::new(strings(&["\u{2581}hi", ""]));
    let hw = no_hotwords();
    let p1 = dec.extend(&Prefix::initial(), 0, &hw);
    assert_eq!(p1.text, "");
    assert_eq!(p1.word_part, "hi");
    assert_eq!(p1.last_idx, Some(0));
    let p2 = dec.extend(&p1, 0, &hw);
    assert_eq!(p2.text, "");
    assert_eq!(p2.word_part, "hi");
    let (text, count) = dec.fold(&p2.text, &p2.word_part, p2.hw_count, &hw);
    assert_eq!(text, "hi");
    assert_eq!(count, 0);
}

#[test]
fn blank_then_word_starts_new_word() {
    let dec = CtcBeamDecoder::new(strings(&["\u{2581}one", "\u{2581}two", ""]));
    let hw = no_hotwords();
    let mut p = Prefix::initial();
    for idx in [0usize, 2, 1, 2] {
        p = dec.extend(&p, idx, &hw);
    }
    assert_eq!(p.text, "one");
    assert_eq!(p.word_part, "two");
    assert_eq!(p.last_idx, Some(2));
    let (text, _) = dec.fold(&p.text, &p.word_part, p.hw_count, &hw);
    assert_eq!(text, "one two");
}

#[test]
fn blank_between_repeats_emits_twice() {
    let dec = CtcBeamDecoder::new(strings(&["\u{2581}go", "ne", ""]));
    let hw = no_hotwords();
    let mut p = Prefix::initial();
    for idx in [0usize, 1, 2, 1] {
        p = dec.extend(&p, idx, &hw);
    }
    assert_eq!(p.word_part, "gonene");
}

#[test]
fn continuation_appends_to_word() {
    let dec = CtcBeamDecoder::new(strings(&["\u{2581}he", "llo", ""]));
    let hw = no_hotwords();
    let p = dec.extend(&dec.extend(&Prefix::initial(), 0, &hw), 1, &hw);
    assert_eq!(p.text, "");
    assert_eq!(p.word_part, "hello");
}

#[test]
fn word_start_strips_all_markers() {
    let dec = CtcBeamDecoder::new(strings(&["\u{2581}\u{2581}x\u{2581}", "\u{2581}", ""]));
    let hw = no_hotwords();
    let p = dec.extend(&Prefix::initial(), 0, &hw);
    assert_eq!(p.word_part, "x");
    let q = dec.extend(&p, 1, &hw);
    assert_eq!(q.text, "x");
    assert_eq!(q.word_part, "");
}

#[test]
fn completed_hotword_is_counted() {
    let dec = CtcBeamDecoder::new(strings(&["\u{2581}cat", "\u{2581}cap", ""]));
    let hw = Hotwords::new(strings(&["cap"]));
    let mut p = Prefix::initial();
    for idx in [1usize, 0, 1] {
        p = dec.extend(&p, idx, &hw);
    }
    assert_eq!(p.text, "cap cat");
    assert_eq!(p.word_part, "cap");
    assert_eq!(p.hw_count, 1);
    let (text, count) = dec.fold(&p.text, &p.word_part, p.hw_count, &hw);
    assert_eq!(text, "cap cat cap");
    assert_eq!(count, 2);
}

#[test]
fn fold_of_empty_word_changes_nothing() {
    let dec = CtcBeamDecoder::new(strings(&["a", ""]));
    let hw = Hotwords::new(strings(&["x"]));
    assert_eq!(dec.fold("some text", "", 4, &hw), ("some text".to_string(), 4));
    assert_eq!(dec.fold("", "x", 0, &hw), ("x".to_string(), 1));
}

#[test]
fn frame_expansion_merges_equal_keys() {
    let dec = CtcBeamDecoder::new(strings(&["\u{2581}a", "b", ""]));
    let hw = no_hotwords();
    let p_a = dec.extend(&Prefix::initial(), 0, &hw);
    let p_blank = dec.extend(&p_a, 2, &hw);
    let beams = vec![p_a.clone(), p_blank.clone()];
    let cands = vec![2usize, 0, 1];
    let exp = dec.expand_frame(&beams, &cands, &hw);
    assert_eq!(exp.targets.len(), 6);
    // blank: both beams become ("", "a", Some(2)) and merge.
    assert_eq!(exp.targets[0], exp.targets[1]);
    // class 0 on p_a repeats; on p_blank it starts a new word.
    assert_ne!(exp.targets[2], exp.targets[3]);
    // class 1 continues "a" on both, with the same key.
    assert_eq!(exp.targets[4], exp.targets[5]);
    assert_eq!(exp.prefixes.len(), 4);
    let first = &exp.prefixes[exp.targets[0]];
    assert_eq!(first.word_part, "a");
    assert_eq!(first.last_idx, Some(2));
    let restarted = &exp.prefixes[exp.targets[3]];
    assert_eq!(restarted.text, "a");
    assert_eq!(restarted.word_part, "a");
    let cont = &exp.prefixes[exp.targets[4]];
    assert_eq!(cont.word_part, "ab");
    for i in 0..exp.prefixes.len() {
        for j in 0..i {
            let (a, b) = (&exp.prefixes[i], &exp.prefixes[j]);
            assert!(a.text != b.text || a.word_part != b.word_part || a.last_idx != b.last_idx);
        }
    }
}

#[test]
fn merged_prefix_keeps_first_hotword_count() {
    let dec = CtcBeamDecoder::new(strings(&["\u{2581}cap", "\u{2581}x", ""]));
    let hw = Hotwords::new(strings(&["cap"]));
    // Two beams with the same key but different counts: the first one stands.
    let a = Prefix { text: "cap".to_string(), word_part: "".to_string(), last_idx: Some(2), hw_count: 1 };
    let b = Prefix { text: "cap".to_string(), word_part: "".to_string(), last_idx: Some(2), hw_count: 0 };
    let exp = dec.expand_frame(&vec![a, b], &vec![1], &hw);
    assert_eq!(exp.prefixes.len(), 1);
    assert_eq!(exp.targets, vec![0, 0]);
    assert_eq!(exp.prefixes[0].hw_count, 1);
    assert_eq!(exp.prefixes[0].word_part, "x");
}

#[test]
fn candidates_add_best_class_once() {
    assert_eq!(candidate_classes(&vec![true, false, true], 1), vec![0, 2, 1]);
    assert_eq!(candidate_classes(&vec![true, false, true], 2), vec![0, 2]);
    assert_eq!(candidate_classes(&vec![false, false], 0), vec![0]);
    assert_eq!(candidate_classes(&vec![], 0), vec![0]);
}

#[test]
fn hotwords_split_phrases() {
    let hw = Hotwords::new(strings(&["foo bar", " baz\tqux ", "a\u{3000}b"]));
    assert!(hw.is_word("foo"));
    assert!(hw.is_word("bar"));
    assert!(hw.is_word("qux"));
    assert!(hw.is_word("b"));
    assert!(!hw.is_word("foo bar"));
    assert!(!hw.is_word(""));
    assert!(!hw.is_word("fo"));
}

#[test]
fn partial_lengths_use_shortest_match() {
    let hw = Hotwords::new(strings(&["capital", "cap", "dog"]));
    assert_eq!(hw.partial_lengths("ca"), Some((2, 3)));
    assert_eq!(hw.partial_lengths("capi"), Some((4, 7)));
    assert_eq!(hw.partial_lengths("cap"), Some((3, 3)));
    assert_eq!(hw.partial_lengths("x"), None);
    assert_eq!(hw.partial_lengths(""), None);
    assert_eq!(no_hotwords().partial_lengths("ca"), None);
}

#[test]
fn partial_lengths_count_characters() {
    let hw = Hotwords::new(strings(&["\u{0633}\u{0644}\u{0627}\u{0645}"]));
    assert_eq!(hw.partial_lengths("\u{0633}\u{0644}"), Some((2, 4)));
}

#[test]
fn transcript_keeps_distinct_long_words() {
    let words = transcript_hotwords("the cat  sat on the mat at\tcat");
    assert_eq!(words, strings(&["the", "cat", "sat", "mat"]));
    assert!(transcript_hotwords("").is_empty());
    assert!(transcript_hotwords("a bb").is_empty());
}

#[test]
fn split_whitespace_matches_std() {
    for s in ["", "  ", "a", " a  b\tc\n", "x\u{2003}y\u{85}z", "\u{a0}q\u{205f}"] {
        let expected: Vec<String> = s.split_whitespace().map(|w| w.to_string()).collect();
        assert_eq!(split_whitespace(s), expected);
    }
}

#[test]
fn white_space_matches_std() {
    for u in 0u32..0x3100 {
        if let Some(c) = char::from_u32(u) {
            assert_eq!(is_white_space(c), c.is_whitespace(), "{:x}", u);
        }
    }
}

#[test]
fn text_helpers() {
    assert!(has_prefix("capital", "cap"));
    assert!(has_prefix("cap", ""));
    assert!(!has_prefix("ca", "cap"));
    assert!(same_chars("ab", "ab"));
    assert!(!same_chars("ab", "abc"));
    assert_eq!(trim_char("\u{2581}\u{2581}ab\u{2581}c\u{2581}", '\u{2581}'), "ab\u{2581}c");
    assert_eq!(trim_char("\u{2581}", '\u{2581}'), "");
}
