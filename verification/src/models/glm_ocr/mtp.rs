//! Token decoding loop for GLM-OCR.
//!
//! Feeds the assembled vision prefix to the decoder, then takes one token per forward pass from
//! the shared token selector until an end-of-sequence token or the token limit. [`generate_mrope`]
//! threads explicit M-RoPE position ids through prefill and each decode step; [`generate`] uses
//! plain sequence-length offsets.
//!
//! Despite the [`MtpConfig`] name, no multi-token prediction happens: see
//! [`MtpConfig::num_tokens_per_step`].

use vstd::prelude::*;

use candle_core::{Device, Tensor};

use crate::error::CandleOcrError;
use crate::float::{F32, F64};
use crate::models::decode::{DecodeConfig, Logits, RepeatPenaltyPolicy, Selection, TokenSelector};
use crate::models::glm_ocr::decoder::{DecoderCall, Glm4Decoder};
use crate::sampler::Draw;
use crate::tensor::{dim, make_id, make_positions, squeeze_first, unsqueeze_first, Place};

verus! {

/// Decoding knobs of GLM-OCR.
#[derive(Debug)]
pub struct MtpConfig {
    /// Intended number of tokens predicted per decoder forward pass. Currently inert: neither
    /// [`generate`] nor [`generate_mrope`] reads it, and decoding is always one token per pass.
    pub num_tokens_per_step: usize,
    /// Greedy when `false`; nucleus sampling when `true`, unless the temperature is at or below
    /// zero, which is greedy too.
    pub sample: bool,
    pub top_p: F32,
    pub temperature: F32,
    pub repetition_penalty: F32,
}

impl Clone for MtpConfig {
    fn clone(&self) -> (r: MtpConfig)
        ensures
            r == *self,
    {
        MtpConfig {
            num_tokens_per_step: self.num_tokens_per_step,
            sample: self.sample,
            top_p: self.top_p,
            temperature: self.temperature,
            repetition_penalty: self.repetition_penalty,
        }
    }
}

impl Default for MtpConfig {
    /// Four tokens per step, greedy, nucleus mass 0.9, temperature 0.1 and penalty 1.1.
    fn default() -> (r: MtpConfig)
        ensures
            r == (MtpConfig {
                num_tokens_per_step: 4,
                sample: false,
                top_p: F32 { bits: 0x3f66_6666 },
                temperature: F32 { bits: 0x3dcc_cccd },
                repetition_penalty: F32 { bits: 0x3f8c_cccd },
            }),
    {
        MtpConfig {
            num_tokens_per_step: 4,
            sample: false,
            top_p: F32 { bits: 0x3f66_6666 },
            temperature: F32 { bits: 0x3dcc_cccd },
            repetition_penalty: F32 { bits: 0x3f8c_cccd },
        }
    }
}

impl MtpConfig {
    /// The shared decode configuration with these knobs.
    pub open spec fn shared(self, max_new_tokens: usize) -> DecodeConfig {
        DecodeConfig {
            max_new_tokens,
            repeat_penalty: self.repetition_penalty,
            repeat_last_n: 0,
            repeat_penalty_policy: RepeatPenaltyPolicy::Frequency,
            temperature: if self.sample {
                self.temperature.widened()
            } else {
                F64 { bits: 0 }
            },
            top_p: self.top_p.widened(),
            seed: DecodeConfig::standard().seed,
        }
    }

    /// Express GLM-OCR's decoding knobs as the crate's shared decode configuration.
    ///
    /// `repeat_last_n` is 0, so the penalty reads the whole output, and the policy is the
    /// frequency form, so a token is penalised once for every time it has appeared. On a dense
    /// page the presence form leaves GLM-OCR repeating one phrase, because the pressure on the
    /// repeated token stops growing.
    pub fn decode_config(&self, max_new_tokens: usize) -> (r: DecodeConfig)
        ensures
            r == self.shared(max_new_tokens),
            r.max_new_tokens == max_new_tokens,
            r.repeat_penalty == self.repetition_penalty,
            r.repeat_last_n == 0,
            r.repeat_penalty_policy == RepeatPenaltyPolicy::Frequency,
            r.temperature == if self.sample {
                self.temperature.widened()
            } else {
                F64 { bits: 0 }
            },
            r.top_p == self.top_p.widened(),
            r.seed == 1337,
    {
        let standard = DecodeConfig::default();
        DecodeConfig {
            max_new_tokens,
            repeat_penalty: self.repetition_penalty,
            repeat_last_n: 0,
            repeat_penalty_policy: RepeatPenaltyPolicy::Frequency,
            temperature: if self.sample {
                self.temperature.widen()
            } else {
                F64 { bits: 0 }
            },
            top_p: self.top_p.widen(),
            seed: standard.seed,
        }
    }
}

/// Where the tokens of a run are placed: at M-RoPE positions that the caller gives for the prefix
/// and that count on from `start`, or behind a prefix of known length.
pub enum Placement {
    Positions { prefill: Tensor, start: u32 },
    Offset { prefix_len: usize },
}

/// What a decoding run is given.
pub struct Run {
    pub input_embeds: Tensor,
    pub placement: Placement,
    pub selection: Selection,
    pub max_new_tokens: usize,
    pub eos_token_ids: Seq<u32>,
}

/// The sizes that are left when a first size of one is dropped.
pub open spec fn unbatched(dims: Seq<usize>) -> Seq<usize> {
    if dims[0] == 1 {
        dims.drop_first()
    } else {
        dims
    }
}

/// The position `i` steps behind `start`. Positions wrap around at the limit of `u32`.
pub open spec fn position_at(start: u32, i: int) -> int {
    (start + i) % 0x1_0000_0000
}

/// The sequence offset of pass `i` behind a prefix. Offsets wrap around at the limit of `usize`.
pub open spec fn offset_at(prefix_len: usize, i: int) -> int {
    if prefix_len + i <= usize::MAX {
        prefix_len + i
    } else {
        prefix_len + i - usize::MAX - 1
    }
}

/// The tensor holds one unsigned position for each of the three M-RoPE axes, all three the same,
/// and lies in this place.
pub open spec fn is_text_position(t: Tensor, position: int, place: Place) -> bool {
    &&& crate::tensor::tensor_dims(t) == seq![3usize, 1usize, 1usize]
    &&& crate::tensor::tensor_integers(t) == seq![
        position as i64,
        position as i64,
        position as i64,
    ]
    &&& crate::tensor::tensor_element_type(t) is U32
    &&& crate::tensor::tensor_place(t) == place
}

/// The tensor feeds this one token, as a batch of 64-bit ids, and lies in this place.
pub open spec fn is_token_batch(t: Tensor, token: u32, place: Place) -> bool {
    &&& crate::tensor::tensor_dims(t) == seq![1usize, 1usize]
    &&& crate::tensor::tensor_integers(t) == seq![token as i64]
    &&& crate::tensor::tensor_element_type(t) is I64
    &&& crate::tensor::tensor_place(t) == place
}

/// What the model answered to a request for a tensor.
pub open spec fn answer_to(call: DecoderCall) -> Option<Result<Tensor, candle_core::Error>> {
    match call {
        DecoderCall::ClearCache => None,
        DecoderCall::Embed { answer, .. } => Some(answer),
        DecoderCall::Forward { answer, .. } => Some(answer),
        DecoderCall::ForwardAt { answer, .. } => Some(answer),
    }
}

/// The tensor that the model answered a request with, if it did.
pub open spec fn answered(call: DecoderCall) -> Option<Tensor> {
    match answer_to(call) {
        Some(Ok(t)) => Some(t),
        _ => None,
    }
}

/// The error that the model refused a request with, if it did.
pub open spec fn refused(call: DecoderCall) -> Option<candle_core::Error> {
    match answer_to(call) {
        Some(Err(cause)) => Some(cause),
        _ => None,
    }
}

/// Build a `(3, 1, 1)` M-RoPE position tensor where all three axes share the same value `pos`.
pub fn make_text_step_positions(pos: u32, dev: &Device) -> (r: Result<Tensor, CandleOcrError>)
    ensures
        match r {
            Ok(t) => {
                &&& is_text_position(t, pos as int, crate::tensor::device_place(*dev))
                &&& crate::tensor::tensor_dims(t) == seq![3usize, 1usize, 1usize]
                &&& crate::tensor::tensor_integers(t).len() == 3
                &&& forall|axis: int|
                    0 <= axis < 3 ==> #[trigger] crate::tensor::tensor_integers(t)[axis] == pos
                &&& crate::tensor::tensor_element_type(t) is U32
                &&& crate::tensor::tensor_place(t) == crate::tensor::device_place(*dev)
            },
            Err(e) => e.failed_at("Step position tensor: "@) && crate::tensor::device_place(
                *dev,
            ) !is Memory,
        },
{
    let buf: Vec<u32> = vec![pos, pos, pos];
    let ghost values = buf@;
    let shape: (usize, usize, usize) = (3, 1, 1);
    assert(shape.0 * shape.1 == 3 && shape.1 * shape.2 == 1 && shape.0 * shape.1 * shape.2 == 3) by (nonlinear_arith)
        requires
            shape == (3usize, 1usize, 1usize),
    ;
    match make_positions(buf, shape, dev) {
        Ok(t) => {
            assert(values.map_values(|v: u32| v as i64) =~= seq![pos as i64, pos as i64, pos as i64]);
            Ok(t)
        },
        Err(e) => Err(CandleOcrError::inference("Step position tensor: ", e)),
    }
}

/// Build the `(1, 1)` tensor of token ids that feeds one token.
pub fn make_token_tensor(token: u32, dev: &Device) -> (r: Result<Tensor, CandleOcrError>)
    ensures
        match r {
            Ok(t) => {
                &&& is_token_batch(t, token, crate::tensor::device_place(*dev))
                &&& crate::tensor::tensor_dims(t) == seq![1usize, 1usize]
                &&& crate::tensor::tensor_integers(t).len() == 1
                &&& crate::tensor::tensor_integers(t)[0] == token
                &&& crate::tensor::tensor_element_type(t) is I64
                &&& crate::tensor::tensor_place(t) == crate::tensor::device_place(*dev)
            },
            Err(e) => e.failed_at("Token tensor: "@) && crate::tensor::device_place(
                *dev,
            ) !is Memory,
        },
{
    let flat = match make_id(token as i64, dev) {
        Ok(flat) => flat,
        Err(e) => return Err(CandleOcrError::inference("Token tensor: ", e)),
    };
    match unsqueeze_first(&flat) {
        Ok(t) => {
            assert(seq![1usize] + seq![1usize] =~= seq![1usize, 1usize]);
            Ok(t)
        },
        Err(e) => Err(CandleOcrError::inference("Add batch: ", e)),
    }
}

/// Whether the token is one of those listed.
pub fn is_listed(token: u32, ids: &[u32]) -> (r: bool)
    ensures
        r == ids@.contains(token),
{
    let mut i: usize = 0;
    while i < ids.len()
        invariant
            i <= ids@.len(),
            forall|j: int| 0 <= j < i ==> ids@[j] != token,
        decreases ids@.len() - i,
    {
        if ids[i] == token {
            return true;
        }
        i = i + 1;
    }
    false
}

/// The outcome of choosing a token from the batched logits of one pass, and the rows that were
/// handed to the sampler for it.
pub open spec fn chooses(
    selection: Selection,
    logits: Tensor,
    history: Seq<u32>,
    drawn: Seq<Draw>,
    outcome: Result<u32, CandleOcrError>,
) -> bool {
    let dims = crate::tensor::tensor_dims(logits);
    if dims.len() == 0 {
        drawn.len() == 0 && outcome is Err && outcome->Err_0.failed_at("Squeeze batch: "@)
    } else {
        crate::models::decode::steps(
            selection,
            Logits { dims: unbatched(dims), ..Logits::of(logits) },
            history,
            drawn,
            outcome,
        )
    }
}

/// Chooses a token from the batched logits of one pass.
pub fn choose_token(selector: &mut TokenSelector, logits: &Tensor, history: &[u32]) -> (r: Result<
    u32,
    CandleOcrError,
>)
    ensures
        final(selector)@ == old(selector)@,
        old(selector).draws().is_prefix_of(final(selector).draws()),
        chooses(
            old(selector)@,
            *logits,
            history@,
            final(selector).draws().skip(old(selector).draws().len() as int),
            r,
        ),
        final(selector).draws() == old(selector).draws() ==> *final(selector) == *old(selector),
{
    match squeeze_first(logits) {
        Ok(last_logits) => selector.try_next_token(&last_logits, history),
        Err(e) => Err(CandleOcrError::inference("Squeeze batch: ", e)),
    }
}

impl Run {
    /// The request feeds the whole prefix.
    pub open spec fn is_prefill(self, call: DecoderCall) -> bool {
        match self.placement {
            Placement::Positions { prefill, .. } => call matches DecoderCall::Forward {
                embeds,
                positions,
                ..
            } && embeds == self.input_embeds && positions == prefill,
            Placement::Offset { .. } => call matches DecoderCall::ForwardAt { embeds, offset, .. }
                && embeds == self.input_embeds && offset == 0,
        }
    }

    /// Where the tensors are made that feed the token chosen from `logits`.
    pub open spec fn place(self, logits: Tensor) -> Place {
        match self.placement {
            Placement::Positions { .. } => crate::tensor::tensor_place(self.input_embeds),
            Placement::Offset { .. } => crate::tensor::tensor_place(logits),
        }
    }

    /// The request asks for the embedding of the token that was chosen from `logits`.
    pub open spec fn is_embed(self, call: DecoderCall, logits: Tensor, token: u32) -> bool {
        call matches DecoderCall::Embed { tokens, .. } && is_token_batch(
            tokens,
            token,
            self.place(logits),
        )
    }

    /// The request feeds generated token number `i` at the place where it belongs.
    pub open spec fn is_pass(self, call: DecoderCall, embedding: Tensor, i: int) -> bool {
        match self.placement {
            Placement::Positions { start, .. } => call matches DecoderCall::Forward {
                embeds,
                positions,
                ..
            } && embeds == embedding && is_text_position(
                positions,
                position_at(start, i),
                crate::tensor::tensor_place(self.input_embeds),
            ),
            Placement::Offset { prefix_len } => call matches DecoderCall::ForwardAt {
                embeds,
                offset,
                ..
            } && embeds == embedding && offset == offset_at(prefix_len, i),
        }
    }

    /// Token `i` of the output is what the sampler answered to row `i`, which was made from the
    /// logits of the pass before it. The token ends nothing, and was fed.
    pub open spec fn took_step(
        self,
        calls: Seq<DecoderCall>,
        draws: Seq<Draw>,
        output: Seq<u32>,
        i: int,
    ) -> bool {
        &&& answered(calls[1 + 2 * i]) matches Some(logits) && chooses(
            self.selection,
            logits,
            output.take(i),
            seq![draws[i]],
            Ok(output[i]),
        ) && self.is_embed(calls[2 + 2 * i], logits, output[i])
        &&& !self.eos_token_ids.contains(output[i])
        &&& answered(calls[2 + 2 * i]) matches Some(embedding) && self.is_pass(
            calls[3 + 2 * i],
            embedding,
            i,
        )
        &&& answered(calls[3 + 2 * i]) is Some
    }

    /// The requests clear the cache, feed the prefix, and then feed every token of the output. The
    /// sampler was asked once for every token.
    pub open spec fn fed(
        self,
        calls: Seq<DecoderCall>,
        draws: Seq<Draw>,
        output: Seq<u32>,
    ) -> bool {
        &&& output.len() <= self.max_new_tokens
        &&& calls.len() == 2 + 2 * output.len()
        &&& draws.len() == output.len()
        &&& calls[0] is ClearCache
        &&& self.is_prefill(calls[1])
        &&& answered(calls[1]) is Some
        &&& forall|i: int|
            0 <= i < output.len() ==> #[trigger] self.took_step(calls, draws, output, i)
    }

    /// The run ended with this output: the limit was reached, or the last token, which is not
    /// fed, ends the sequence.
    pub open spec fn completes(
        self,
        calls: Seq<DecoderCall>,
        draws: Seq<Draw>,
        output: Seq<u32>,
    ) -> bool {
        ||| output.len() == self.max_new_tokens && self.fed(calls, draws, output)
        ||| {
            &&& 0 < output.len() <= self.max_new_tokens
            &&& draws.len() == output.len()
            &&& self.fed(calls, draws.drop_last(), output.drop_last())
            &&& answered(calls.last()) matches Some(logits) && chooses(
                self.selection,
                logits,
                output.drop_last(),
                seq![draws.last()],
                Ok(output.last()),
            )
            &&& self.eos_token_ids.contains(output.last())
        }
    }

    /// Feeding `token`, which was chosen behind `output`, failed. A refusal of the model is
    /// reported with the model's error.
    pub open spec fn fails_to_feed(
        self,
        calls: Seq<DecoderCall>,
        drawn: Seq<Draw>,
        output: Seq<u32>,
        logits: Tensor,
        token: u32,
        e: CandleOcrError,
    ) -> bool {
        let n = output.len() as int;
        &&& chooses(self.selection, logits, output, drawn, Ok(token))
        &&& !self.eos_token_ids.contains(token)
        &&& {
            ||| {
                &&& calls.len() == 2 + 2 * n
                &&& e.failed_at("Token tensor: "@)
                &&& self.place(logits) !is Memory
            }
            ||| {
                &&& calls.len() == 3 + 2 * n
                &&& self.is_embed(calls[2 + 2 * n], logits, token)
                &&& refused(calls[2 + 2 * n]) matches Some(cause) && e.reports(
                    "Embed tokens: "@,
                    cause,
                )
            }
            ||| {
                &&& calls.len() == 3 + 2 * n
                &&& self.is_embed(calls[2 + 2 * n], logits, token)
                &&& answered(calls[2 + 2 * n]) is Some
                &&& self.placement is Positions
                &&& e.failed_at("Step position tensor: "@)
                &&& self.place(logits) !is Memory
            }
            ||| {
                &&& calls.len() == 4 + 2 * n
                &&& self.is_embed(calls[2 + 2 * n], logits, token)
                &&& answered(calls[2 + 2 * n]) matches Some(embedding) && self.is_pass(
                    calls[3 + 2 * n],
                    embedding,
                    n,
                )
                &&& refused(calls[3 + 2 * n]) matches Some(cause) && e.reports(
                    "Decode forward: "@,
                    cause,
                )
            }
        }
    }

    /// No token could be chosen from `logits`, or the one that was chosen could not be fed.
    pub open spec fn cannot_continue(
        self,
        calls: Seq<DecoderCall>,
        drawn: Seq<Draw>,
        output: Seq<u32>,
        logits: Tensor,
        e: CandleOcrError,
    ) -> bool {
        ||| calls.len() == 2 + 2 * output.len() && chooses(
            self.selection,
            logits,
            output,
            drawn,
            Err(e),
        )
        ||| exists|token: u32|
            #[trigger] self.fails_to_feed(calls, drawn, output, logits, token, e)
    }

    /// The run fed `output` and could not continue from there.
    pub open spec fn stops_behind(
        self,
        calls: Seq<DecoderCall>,
        draws: Seq<Draw>,
        output: Seq<u32>,
        e: CandleOcrError,
    ) -> bool {
        let n = output.len() as int;
        &&& n < self.max_new_tokens
        &&& 2 + 2 * n <= calls.len()
        &&& n <= draws.len()
        &&& self.fed(calls.take(2 + 2 * n), draws.take(n), output)
        &&& answered(calls[1 + 2 * n]) is Some
        &&& self.cannot_continue(calls, draws.skip(n), output, answered(calls[1 + 2 * n])->0, e)
    }

    /// What a run returns whose prefix was answered, given the requests that it made and the rows
    /// that it handed to its sampler.
    pub open spec fn ends(
        self,
        calls: Seq<DecoderCall>,
        draws: Seq<Draw>,
        outcome: Result<Vec<u32>, CandleOcrError>,
    ) -> bool {
        match outcome {
            Ok(output) => self.completes(calls, draws, output@),
            Err(e) => exists|output: Seq<u32>|
                #[trigger] self.stops_behind(calls, draws, output, e),
        }
    }

    /// The model refused the prefix, and nothing more was asked of it, nor anything of the sampler.
    pub open spec fn prefix_refused(
        self,
        calls: Seq<DecoderCall>,
        draws: Seq<Draw>,
        e: CandleOcrError,
    ) -> bool {
        &&& draws.len() == 0
        &&& calls.len() == 2
        &&& calls[0] is ClearCache
        &&& self.is_prefill(calls[1])
        &&& refused(calls[1]) matches Some(cause) && e.reports("Prefill forward: "@, cause)
    }

    /// What a run returns, given the requests that it made and the rows that it handed to its
    /// sampler.
    pub open spec fn concludes(
        self,
        calls: Seq<DecoderCall>,
        draws: Seq<Draw>,
        outcome: Result<Vec<u32>, CandleOcrError>,
    ) -> bool {
        ||| outcome matches Err(e) && self.prefix_refused(calls, draws, e)
        ||| self.ends(calls, draws, outcome)
    }

    /// This selector has the settings of the run, and all that its sampler drew since it was
    /// seeded is what the run asked of it.
    pub open spec fn selected_by(
        self,
        selector: TokenSelector,
        calls: Seq<DecoderCall>,
        outcome: Result<Vec<u32>, CandleOcrError>,
    ) -> bool {
        &&& selector@ == self.selection
        &&& self.concludes(calls, selector.draws(), outcome)
    }

    /// What a run returns that makes its own selector, given the requests that it made.
    pub open spec fn concludes_alone(
        self,
        calls: Seq<DecoderCall>,
        outcome: Result<Vec<u32>, CandleOcrError>,
    ) -> bool {
        exists|selector: TokenSelector| #[trigger] self.selected_by(selector, calls, outcome)
    }

    /// One more token that was chosen and fed.
    proof fn lemma_fed_one_more(
        self,
        calls: Seq<DecoderCall>,
        draws: Seq<Draw>,
        output: Seq<u32>,
        draw: Draw,
        token: u32,
        embed: DecoderCall,
        pass: DecoderCall,
    )
        requires
            self.fed(calls, draws, output),
            output.len() < self.max_new_tokens,
            answered(calls.last()) matches Some(logits) && chooses(
                self.selection,
                logits,
                output,
                seq![draw],
                Ok(token),
            ) && self.is_embed(embed, logits, token),
            !self.eos_token_ids.contains(token),
            answered(embed) matches Some(embedding) && self.is_pass(
                pass,
                embedding,
                output.len() as int,
            ),
            answered(pass) is Some,
        ensures
            self.fed(calls.push(embed).push(pass), draws.push(draw), output.push(token)),
    {
        let more = calls.push(embed).push(pass);
        let drawn = draws.push(draw);
        let longer = output.push(token);
        assert forall|i: int| 0 <= i < longer.len() implies #[trigger] self.took_step(
            more,
            drawn,
            longer,
            i,
        ) by {
            if i < output.len() {
                assert(self.took_step(calls, draws, output, i));
                assert(longer.take(i) =~= output.take(i));
            } else {
                assert(longer.take(i) =~= output);
            }
        }
    }

    /// A run that cannot feed a token it chose has ended.
    proof fn lemma_fails_to_feed(
        self,
        calls: Seq<DecoderCall>,
        more: Seq<DecoderCall>,
        draws: Seq<Draw>,
        draw: Draw,
        output: Seq<u32>,
        logits: Tensor,
        token: u32,
        e: CandleOcrError,
    )
        requires
            self.fed(calls, draws, output),
            output.len() < self.max_new_tokens,
            answered(calls.last()) == Some(logits),
            self.fails_to_feed(calls + more, seq![draw], output, logits, token, e),
        ensures
            self.ends(calls + more, draws.push(draw), Err(e)),
    {
        let n = output.len() as int;
        let all = calls + more;
        assert(all.take(2 + 2 * n) =~= calls);
        assert(all[1 + 2 * n] == calls.last());
        assert(draws.push(draw).take(n) =~= draws);
        assert(draws.push(draw).skip(n) =~= seq![draw]);
        assert(self.cannot_continue(all, seq![draw], output, logits, e));
        assert(self.stops_behind(all, draws.push(draw), output, e));
    }

    /// A run that cannot choose a token has ended.
    proof fn lemma_fails_to_choose(
        self,
        calls: Seq<DecoderCall>,
        draws: Seq<Draw>,
        drawn: Seq<Draw>,
        output: Seq<u32>,
        logits: Tensor,
        e: CandleOcrError,
    )
        requires
            self.fed(calls, draws, output),
            output.len() < self.max_new_tokens,
            answered(calls.last()) == Some(logits),
            chooses(self.selection, logits, output, drawn, Err(e)),
        ensures
            self.ends(calls, draws + drawn, Err(e)),
    {
        let n = output.len() as int;
        assert(calls.take(2 + 2 * n) =~= calls);
        assert(calls[1 + 2 * n] == calls.last());
        assert((draws + drawn).take(n) =~= draws);
        assert((draws + drawn).skip(n) =~= drawn);
        assert(self.stops_behind(calls, draws + drawn, output, e));
    }
}

/// Feed one token that was chosen from `logits` behind `output`, and return the logits of the
/// pass. The requests of the run start behind `before`.
fn feed_token<D: Glm4Decoder>(
    decoder: &mut D,
    device: &Device,
    logits: &Tensor,
    token: u32,
    position: Option<u32>,
    offset: usize,
    Ghost(run): Ghost<Run>,
    Ghost(before): Ghost<Seq<DecoderCall>>,
    Ghost(calls): Ghost<Seq<DecoderCall>>,
    Ghost(draws): Ghost<Seq<Draw>>,
    Ghost(draw): Ghost<Draw>,
    Ghost(output): Ghost<Seq<u32>>,
) -> (r: Result<Tensor, CandleOcrError>)
    requires
        old(decoder).calls() == before + calls,
        run.fed(calls, draws, output),
        output.len() < run.max_new_tokens,
        answered(calls.last()) == Some(*logits),
        chooses(run.selection, *logits, output, seq![draw], Ok(token)),
        !run.eos_token_ids.contains(token),
        crate::tensor::device_place(*device) == run.place(*logits),
        match run.placement {
            Placement::Positions { start, .. } => position is Some && position->0 == position_at(
                start,
                output.len() as int,
            ),
            Placement::Offset { prefix_len } => position is None && offset == offset_at(
                prefix_len,
                output.len() as int,
            ),
        },
    ensures
        before.is_prefix_of(final(decoder).calls()),
        match r {
            Ok(next) => {
                let now = final(decoder).calls().skip(before.len() as int);
                run.fed(now, draws.push(draw), output.push(token)) && answered(now.last()) == Some(
                    next,
                )
            },
            Err(e) => run.ends(
                final(decoder).calls().skip(before.len() as int),
                draws.push(draw),
                Err(e),
            ),
        },
{
    let ghost n = output.len() as int;
    let tokens = match make_token_tensor(token, device) {
        Ok(tokens) => tokens,
        Err(e) => {
            proof {
                let more = Seq::<DecoderCall>::empty();
                assert((before + calls).skip(before.len() as int) =~= calls + more);
                run.lemma_fails_to_feed(calls, more, draws, draw, output, *logits, token, e);
            }
            return Err(e);
        },
    };
    let answer = decoder.embed_tokens(&tokens);
    let ghost embed = DecoderCall::Embed { tokens, answer };
    proof {
        assert(before.is_prefix_of(decoder.calls()));
        assert(decoder.calls().skip(before.len() as int) =~= calls + seq![embed]);
    }
    let token_embeds = match answer {
        Ok(token_embeds) => token_embeds,
        Err(cause) => {
            let e = CandleOcrError::inference("Embed tokens: ", cause);
            proof {
                run.lemma_fails_to_feed(
                    calls,
                    seq![embed],
                    draws,
                    draw,
                    output,
                    *logits,
                    token,
                    e,
                );
            }
            return Err(e);
        },
    };
    let ghost asked = decoder.calls();
    let ghost pass: DecoderCall;
    let answer = match position {
        Some(position) => {
            let step_positions = match make_text_step_positions(position, device) {
                Ok(step_positions) => step_positions,
                Err(e) => {
                    proof {
                        run.lemma_fails_to_feed(
                            calls,
                            seq![embed],
                            draws,
                            draw,
                            output,
                            *logits,
                            token,
                            e,
                        );
                    }
                    return Err(e);
                },
            };
            let answer = decoder.forward_embeds(&token_embeds, &step_positions);
            proof {
                pass = DecoderCall::Forward { embeds: token_embeds, positions: step_positions, answer };
            }
            answer
        },
        None => {
            let answer = decoder.forward_embeds_with_offset(&token_embeds, offset);
            proof {
                pass = DecoderCall::ForwardAt { embeds: token_embeds, offset, answer };
            }
            answer
        },
    };
    proof {
        assert(decoder.calls() == asked.push(pass));
        assert(before.is_prefix_of(decoder.calls()));
        assert(decoder.calls().skip(before.len() as int) =~= calls + seq![embed, pass]);
        assert(run.is_pass(pass, token_embeds, n));
    }
    match answer {
        Ok(next) => {
            proof {
                run.lemma_fed_one_more(calls, draws, output, draw, token, embed, pass);
                assert(calls.push(embed).push(pass) =~= calls + seq![embed, pass]);
            }
            Ok(next)
        },
        Err(cause) => {
            let e = CandleOcrError::inference("Decode forward: ", cause);
            proof {
                run.lemma_fails_to_feed(
                    calls,
                    seq![embed, pass],
                    draws,
                    draw,
                    output,
                    *logits,
                    token,
                    e,
                );
            }
            Err(e)
        },
    }
}

/// Choose and feed one token per pass until the output is complete. The prefix has been fed and
/// answered with `logits`. The requests of the run start behind `before`, and its draws behind those
/// that the selector has made already.
fn decode_steps<D: Glm4Decoder>(
    decoder: &mut D,
    selector: &mut TokenSelector,
    input_embeds: &Tensor,
    logits: Tensor,
    first_position: Option<u32>,
    prefix_len: usize,
    max_new_tokens: usize,
    eos_token_ids: &[u32],
    Ghost(run): Ghost<Run>,
    Ghost(before): Ghost<Seq<DecoderCall>>,
) -> (r: Result<Vec<u32>, CandleOcrError>)
    requires
        before.is_prefix_of(old(decoder).calls()),
        run.fed(old(decoder).calls().skip(before.len() as int), Seq::empty(), Seq::empty()),
        answered(old(decoder).calls().last()) == Some(logits),
        run.input_embeds == *input_embeds,
        run.selection == old(selector)@,
        run.max_new_tokens == max_new_tokens,
        run.eos_token_ids == eos_token_ids@,
        match run.placement {
            Placement::Positions { start, .. } => first_position == Some(start),
            Placement::Offset { prefix_len: len } => first_position is None && prefix_len == len,
        },
    ensures
        before.is_prefix_of(final(decoder).calls()),
        old(selector).draws().is_prefix_of(final(selector).draws()),
        final(selector)@ == old(selector)@,
        final(selector).draws() == old(selector).draws() ==> *final(selector) == *old(selector),
        run.ends(
            final(decoder).calls().skip(before.len() as int),
            final(selector).draws().skip(old(selector).draws().len() as int),
            r,
        ),
{
    let mut logits = logits;
    let mut output: Vec<u32> = Vec::new();
    let mut position: Option<u32> = first_position;
    let mut offset: usize = prefix_len;
    let ghost earlier = selector.draws();
    assert(selector.draws().skip(earlier.len() as int) =~= Seq::<Draw>::empty());
    while output.len() < max_new_tokens
        invariant
            before.is_prefix_of(decoder.calls()),
            earlier == old(selector).draws(),
            earlier.is_prefix_of(selector.draws()),
            run.fed(
                decoder.calls().skip(before.len() as int),
                selector.draws().skip(earlier.len() as int),
                output@,
            ),
            answered(decoder.calls().skip(before.len() as int).last()) == Some(logits),
            selector@ == run.selection,
            run.selection == old(selector)@,
            selector.draws() == earlier ==> *selector == *old(selector),
            run.input_embeds == *input_embeds,
            run.max_new_tokens == max_new_tokens,
            run.eos_token_ids == eos_token_ids@,
            match run.placement {
                Placement::Positions { start, .. } => position is Some && position->0
                    == position_at(start, output@.len() as int),
                Placement::Offset { prefix_len: len } => position is None && offset == offset_at(
                    len,
                    output@.len() as int,
                ),
            },
        decreases max_new_tokens - output@.len(),
    {
        let ghost calls = decoder.calls().skip(before.len() as int);
        let ghost recorded = selector.draws();
        let ghost draws = recorded.skip(earlier.len() as int);
        let chosen = choose_token(selector, &logits, output.as_slice());
        let ghost drawn = selector.draws().skip(recorded.len() as int);
        proof {
            assert(selector.draws() =~= recorded + drawn);
            assert(earlier.is_prefix_of(selector.draws()));
            assert(selector.draws().skip(earlier.len() as int) =~= draws + drawn);
        }
        let token = match chosen {
            Ok(token) => token,
            Err(e) => {
                proof {
                    run.lemma_fails_to_choose(calls, draws, drawn, output@, logits, e);
                }
                return Err(e);
            },
        };
        let ghost fed = output@;
        proof {
            assert(drawn =~= seq![drawn[0]]);
            assert(draws + drawn =~= draws.push(drawn[0]));
        }
        output.push(token);
        if is_listed(token, eos_token_ids) {
            proof {
                assert(output@.drop_last() =~= fed);
                assert(draws.push(drawn[0]).drop_last() =~= draws);
            }
            return Ok(output);
        }
        proof {
            assert(decoder.calls() =~= before + calls);
        }
        let device = match position {
            Some(_) => input_embeds.device(),
            None => logits.device(),
        };
        let next = feed_token(
            decoder,
            device,
            &logits,
            token,
            position,
            offset,
            Ghost(run),
            Ghost(before),
            Ghost(calls),
            Ghost(draws),
            Ghost(drawn[0]),
            Ghost(fed),
        );
        logits = match next {
            Ok(next) => next,
            Err(e) => return Err(e),
        };
        position = match position {
            Some(p) => Some(p.wrapping_add(1)),
            None => None,
        };
        offset = offset.wrapping_add(1);
    }
    Ok(output)
}

/// Run the decoding loop with explicit M-RoPE position ids, as [`generate_mrope`] does, and choose
/// every token with the given selector.
pub fn generate_mrope_with<D: Glm4Decoder>(
    decoder: &mut D,
    selector: &mut TokenSelector,
    input_embeds: &Tensor,
    prefill_position_ids: &Tensor,
    next_text_pos_start: u32,
    max_new_tokens: usize,
    eos_token_ids: &[u32],
) -> (r: Result<Vec<u32>, CandleOcrError>)
    ensures
        old(decoder).calls().is_prefix_of(final(decoder).calls()),
        old(selector).draws().is_prefix_of(final(selector).draws()),
        final(selector)@ == old(selector)@,
        final(selector).draws() == old(selector).draws() ==> *final(selector) == *old(selector),
        (Run {
            input_embeds: *input_embeds,
            placement: Placement::Positions {
                prefill: *prefill_position_ids,
                start: next_text_pos_start,
            },
            selection: old(selector)@,
            max_new_tokens,
            eos_token_ids: eos_token_ids@,
        }).concludes(
            final(decoder).calls().skip(old(decoder).calls().len() as int),
            final(selector).draws().skip(old(selector).draws().len() as int),
            r,
        ),
{
    let ghost before = decoder.calls();
    let ghost run = Run {
        input_embeds: *input_embeds,
        placement: Placement::Positions {
            prefill: *prefill_position_ids,
            start: next_text_pos_start,
        },
        selection: selector@,
        max_new_tokens,
        eos_token_ids: eos_token_ids@,
    };
    decoder.clear_kv_cache();
    let answer = decoder.forward_embeds(input_embeds, prefill_position_ids);
    let ghost calls = seq![
        DecoderCall::ClearCache,
        DecoderCall::Forward { embeds: *input_embeds, positions: *prefill_position_ids, answer },
    ];
    proof {
        assert(decoder.calls().skip(before.len() as int) =~= calls);
        assert(before.is_prefix_of(decoder.calls()));
    }
    match answer {
        Ok(logits) => decode_steps(
            decoder,
            selector,
            input_embeds,
            logits,
            Some(next_text_pos_start),
            0,
            max_new_tokens,
            eos_token_ids,
            Ghost(run),
            Ghost(before),
        ),
        Err(e) => Err(CandleOcrError::inference("Prefill forward: ", e)),
    }
}

/// Run the decoding loop with sequence offsets, as [`generate`] does, and choose every token with
/// the given selector.
pub fn generate_with<D: Glm4Decoder>(
    decoder: &mut D,
    selector: &mut TokenSelector,
    input_embeds: &Tensor,
    max_new_tokens: usize,
    eos_token_ids: &[u32],
) -> (r: Result<Vec<u32>, CandleOcrError>)
    ensures
        old(decoder).calls().is_prefix_of(final(decoder).calls()),
        old(selector).draws().is_prefix_of(final(selector).draws()),
        final(selector)@ == old(selector)@,
        final(selector).draws() == old(selector).draws() ==> *final(selector) == *old(selector),
        crate::tensor::tensor_dims(*input_embeds).len() < 2 ==> {
            &&& final(decoder).calls() == old(decoder).calls().push(DecoderCall::ClearCache)
            &&& final(selector).draws() == old(selector).draws()
            &&& r is Err && r->Err_0 is Candle
        },
        crate::tensor::tensor_dims(*input_embeds).len() >= 2 ==> (Run {
            input_embeds: *input_embeds,
            placement: Placement::Offset {
                prefix_len: crate::tensor::tensor_dims(*input_embeds)[1],
            },
            selection: old(selector)@,
            max_new_tokens,
            eos_token_ids: eos_token_ids@,
        }).concludes(
            final(decoder).calls().skip(old(decoder).calls().len() as int),
            final(selector).draws().skip(old(selector).draws().len() as int),
            r,
        ),
{
    let ghost before = decoder.calls();
    decoder.clear_kv_cache();
    let prefix_len: usize = match dim(input_embeds, 1) {
        Ok(prefix_len) => prefix_len,
        Err(e) => return Err(CandleOcrError::from(e)),
    };
    let ghost run = Run {
        input_embeds: *input_embeds,
        placement: Placement::Offset { prefix_len },
        selection: selector@,
        max_new_tokens,
        eos_token_ids: eos_token_ids@,
    };
    let answer = decoder.forward_embeds_with_offset(input_embeds, 0);
    let ghost calls = seq![
        DecoderCall::ClearCache,
        DecoderCall::ForwardAt { embeds: *input_embeds, offset: 0, answer },
    ];
    proof {
        assert(decoder.calls().skip(before.len() as int) =~= calls);
        assert(before.is_prefix_of(decoder.calls()));
    }
    match answer {
        Ok(logits) => decode_steps(
            decoder,
            selector,
            input_embeds,
            logits,
            None,
            prefix_len,
            max_new_tokens,
            eos_token_ids,
            Ghost(run),
            Ghost(before),
        ),
        Err(e) => Err(CandleOcrError::inference("Prefill forward: ", e)),
    }
}

/// Run the decoding loop with explicit M-RoPE position ids for the prefill pass and an
/// incrementing `(t, h, w) = (next, next, next)` triple for each generated text token.
///
/// `prefill_position_ids` must be shape `(3, 1, prefix_len)`. `next_text_pos_start` is the position
/// assigned to the first decoded token. The output holds the end-of-sequence token when one was
/// chosen. A selector of its own, seeded here, chooses every token: see [`generate_mrope_with`].
pub fn generate_mrope<D: Glm4Decoder>(
    decoder: &mut D,
    input_embeds: &Tensor,
    prefill_position_ids: &Tensor,
    next_text_pos_start: u32,
    config: &MtpConfig,
    max_new_tokens: usize,
    eos_token_ids: &[u32],
) -> (r: Result<Vec<u32>, CandleOcrError>)
    ensures
        old(decoder).calls().is_prefix_of(final(decoder).calls()),
        (Run {
            input_embeds: *input_embeds,
            placement: Placement::Positions {
                prefill: *prefill_position_ids,
                start: next_text_pos_start,
            },
            selection: Selection::of(config.shared(max_new_tokens)),
            max_new_tokens,
            eos_token_ids: eos_token_ids@,
        }).concludes_alone(final(decoder).calls().skip(old(decoder).calls().len() as int), r),
{
    let ghost before = decoder.calls();
    let mut selector = TokenSelector::new(&config.decode_config(max_new_tokens));
    let r = generate_mrope_with(
        decoder,
        &mut selector,
        input_embeds,
        prefill_position_ids,
        next_text_pos_start,
        max_new_tokens,
        eos_token_ids,
    );
    proof {
        let run = Run {
            input_embeds: *input_embeds,
            placement: Placement::Positions {
                prefill: *prefill_position_ids,
                start: next_text_pos_start,
            },
            selection: Selection::of(config.shared(max_new_tokens)),
            max_new_tokens,
            eos_token_ids: eos_token_ids@,
        };
        assert(selector.draws().skip(0) =~= selector.draws());
        assert(run.selected_by(selector, decoder.calls().skip(before.len() as int), r));
    }
    r
}

/// Run the decoding loop and return the generated token ids, without the prefix.
///
/// 1. Prefill: forward `input_embeds` at offset 0 to seed the cache.
/// 2. Per token: choose it greedily or from the nucleus.
/// 3. For each token: embed it and forward it at the current offset.
/// 4. Stop on an end-of-sequence token, which is part of the output, or at `max_new_tokens`.
///
/// `config.num_tokens_per_step` is never read: every forward pass emits exactly one token. A
/// selector of its own, seeded here, chooses every token: see [`generate_with`].
pub fn generate<D: Glm4Decoder>(
    decoder: &mut D,
    input_embeds: &Tensor,
    config: &MtpConfig,
    max_new_tokens: usize,
    eos_token_ids: &[u32],
) -> (r: Result<Vec<u32>, CandleOcrError>)
    ensures
        old(decoder).calls().is_prefix_of(final(decoder).calls()),
        crate::tensor::tensor_dims(*input_embeds).len() < 2 ==> {
            &&& final(decoder).calls() == old(decoder).calls().push(DecoderCall::ClearCache)
            &&& r is Err && r->Err_0 is Candle
        },
        crate::tensor::tensor_dims(*input_embeds).len() >= 2 ==> (Run {
            input_embeds: *input_embeds,
            placement: Placement::Offset {
                prefix_len: crate::tensor::tensor_dims(*input_embeds)[1],
            },
            selection: Selection::of(config.shared(max_new_tokens)),
            max_new_tokens,
            eos_token_ids: eos_token_ids@,
        }).concludes_alone(final(decoder).calls().skip(old(decoder).calls().len() as int), r),
{
    let ghost before = decoder.calls();
    let mut selector = TokenSelector::new(&config.decode_config(max_new_tokens));
    let r = generate_with(decoder, &mut selector, input_embeds, max_new_tokens, eos_token_ids);
    proof {
        if crate::tensor::tensor_dims(*input_embeds).len() >= 2 {
            let run = Run {
                input_embeds: *input_embeds,
                placement: Placement::Offset {
                    prefix_len: crate::tensor::tensor_dims(*input_embeds)[1],
                },
                selection: Selection::of(config.shared(max_new_tokens)),
                max_new_tokens,
                eos_token_ids: eos_token_ids@,
            };
            assert(selector.draws().skip(0) =~= selector.draws());
            assert(run.selected_by(selector, decoder.calls().skip(before.len() as int), r));
        }
    }
    r
}

}
