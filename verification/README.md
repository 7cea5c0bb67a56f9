# shenava_ctc_beam (verified core)

A hotword-boosted CTC prefix beam decoder. The library under `src/` holds the
discrete part of the search, verified with Verus:

- `text`: whitespace splitting, prefix tests and marker trimming over `Seq<char>` views;
- `hotwords`: the per-utterance unigram vocabulary, whole-word membership and the
  lengths behind the partial-word credit;
- `decoder`: the vocabulary and its blank, how a beam prefix grows by one class
  (CTC collapse, BPE word boundaries, hotword counting), how one frame's
  expansions merge, and a frame's candidate classes;
- `rescore`: the hotwords that a first-pass transcript yields.

The floating-point scoring (log-sum-exp merging, the hotword bonus, pruning,
ranking and the final pick) and the I/O live in `app/`, which also holds the
command-line tool and the Vosk second-pass glue.
