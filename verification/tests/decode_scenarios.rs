//! End-to-end scenarios: the library's discrete steps driven by the same
//! floating-point scoring that the decoder applies around them.
use shenava_ctc_beam::decoder::{candidate_classes, Prefix};
use shenava_ctc_beam::{CtcBeamDecoder, Hotwords};

fn log_sum_exp(a: f32, b: f32) -> f32 {
    if a >= b {
        a + (1.0 + (b - a).exp()).ln()
    } else {
        b + (1.0 + (a - b).exp()).ln()
    }
}

fn partial(hw: &Hotwords, weight: f32, word_part: &str) -> f32 {
    match hw.partial_lengths(word_part) {
        Some((wp, min_len)) => weight * (wp as f32) / (min_len as f32),
        None => 0.0,
    }
}

fn decode(
    dec: &CtcBeamDecoder,
    log_probs: &[Vec<f32>],
    hw: &Hotwords,
    weight: f32,
    beam_width: usize,
    token_min_logp: f32,
    beam_prune_logp: f32,
) -> String {
    let mut beams: Vec<(Prefix, f32)> = vec![(Prefix::initial(), 0.0)];
    for col in log_probs {
        let mut argmax = 0usize;
        let mut argmax_v = f32::NEG_INFINITY;
        let mut above = Vec::new();
        for (i, &v) in col.iter().enumerate() {
            if v > argmax_v {
                argmax_v = v;
                argmax = i;
            }
            above.push(v >= token_min_logp);
        }
        let cands = candidate_classes(&above, argmax);
        let prefixes: Vec<Prefix> = beams.iter().map(|b| b.0.clone()).collect();
        let exp = dec.expand_frame(&prefixes, &cands, hw);
        let mut logits: Vec<Option<f32>> = vec![None; exp.prefixes.len()];
        let mut k = 0;
        for &idx in &cands {
            let p = col[idx];
            for b in &beams {
                let l = b.1 + p;
                let t = exp.targets[k];
                logits[t] = Some(match logits[t] {
                    None => l,
                    Some(e) => log_sum_exp(e, l),
                });
                k += 1;
            }
        }
        let mut scored: Vec<(f32, Prefix, f32)> = exp
            .prefixes
            .into_iter()
            .zip(logits)
            .map(|(pfx, l)| {
                let l = l.unwrap();
                let s = l + weight * pfx.hw_count as f32 + partial(hw, weight, &pfx.word_part);
                (s, pfx, l)
            })
            .collect();
        let max_s = scored.iter().map(|x| x.0).fold(f32::NEG_INFINITY, f32::max);
        scored.retain(|x| x.0 >= max_s + beam_prune_logp);
        scored.sort_by(|a, b| b.0.partial_cmp(&a.0).unwrap_or(std::cmp::Ordering::Equal));
        scored.truncate(beam_width);
        beams = scored.into_iter().map(|(_, p, l)| (p, l)).collect();
    }
    let mut best_text = String::new();
    let mut best_s = f32::NEG_INFINITY;
    for (p, logit) in &beams {
        let (text, n) = dec.fold(&p.text, &p.word_part, p.hw_count, hw);
        let s = logit + weight * n as f32;
        if s > best_s {
            best_s = s;
            best_text = text;
        }
    }
    best_text
}

#[test]
fn hotword_flips_close_call() {
    let labels = vec!["\u{2581}cat".to_string(), "\u{2581}cap".to_string(), "".to_string()];
    let dec = CtcBeamDecoder::new(labels);
    let lp = vec![vec![-0.7f32, -0.8, -5.0]];
    let none = Hotwords::new(Vec::<String>::new());
    assert_eq!(decode(&dec, &lp, &none, 10.0, 10, -5.0, -10.0), "cat");
    let hw = Hotwords::new(vec!["cap".to_string()]);
    assert_eq!(decode(&dec, &lp, &hw, 10.0, 10, -5.0, -10.0), "cap");
}

#[test]
fn greedy_two_words_with_blank_reset() {
    let labels = vec!["\u{2581}one".to_string(), "\u{2581}two".to_string(), "".to_string()];
    let dec = CtcBeamDecoder::new(labels);
    let none = Hotwords::new(Vec::<String>::new());
    let lp = vec![
        vec![-0.1f32, -5.0, -5.0],
        vec![-5.0, -5.0, -0.1],
        vec![-5.0, -0.1, -5.0],
        vec![-5.0, -5.0, -0.1],
    ];
    assert_eq!(decode(&dec, &lp, &none, 10.0, 10, -5.0, -10.0), "one two");
}

#[test]
fn repeat_collapses_to_single_word() {
    let labels = vec!["\u{2581}hi".to_string(), "".to_string()];
    let dec = CtcBeamDecoder::new(labels);
    let none = Hotwords::new(Vec::<String>::new());
    let lp = vec![vec![-0.1f32, -5.0], vec![-0.1, -5.0]];
    assert_eq!(decode(&dec, &lp, &none, 10.0, 10, -5.0, -10.0), "hi");
}
