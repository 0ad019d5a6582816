# xberg-candle-ocr

The decoding step of the OCR backends that run on candle, verified with Verus.

A row of scores comes out of a language model. The score of a token that was already generated is
lowered, once (presence) or once per occurrence (frequency), within a window of the most recent
tokens. Then the highest score is taken, or a token is drawn from the nucleus. GLM-OCR repeats this
until an end-of-sequence token or a token limit.

## Layout

- `src/models/decode.rs`: configuration, repetition penalties, `TokenSelector`.
- `src/models/glm_ocr/`: GLM-OCR's knobs, the model that its loop drives, and the two loops.
- `src/models/laws.rs`, `src/models/pressure.rs`: what holds of all selections and all runs.
- `src/models/agreement.rs`: what holds of two selections, or two runs, that are given the same.
- `src/float/`: binary32 and binary64 numbers as bit patterns; division, multiplication and widening
  are proved to round as IEEE 754 asks.
- `src/tensor.rs`, `src/sampler.rs`: the boundary to candle. Their functions state what is believed
  of candle.
- `src/error.rs`: errors and their texts.
- `app/`: the configurations as serde reads and writes them.

## What is believed and what is proved

Candle's tensors are described by their sizes, their elements with their type, and where they lie.
What candle computes from them (flattening, the presence penalty, sampling) is stated in
`src/tensor.rs` and `src/sampler.rs` and believed. A sampler carries a record of the rows it was
handed and what it answered, and a model carries a record of the requests that reached it; that a
call enters the record is believed too.

Everything built on it is proved: the row that a step hands to the sampler, once, after the
repetition penalty; that the answer of the sampler is what the step returns; which token a greedy
step returns from scores in main memory; which error comes when, with the text of its cause. Of a
decoding run it is proved which requests it makes, in which order and with which tensors, and that
its tokens are the answers of the selector that it was given, to one row per pass
(`generate_with`, `generate_mrope_with`). `generate` and `generate_mrope` hand such a run a selector
that they have just seeded. Which token of a nucleus is drawn is left to chance.
