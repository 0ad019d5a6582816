//! One token-selection step, shared by the decode loops of the OCR backends.
//!
//! Each backend keeps its own cache, positions, forward pass and stop condition. Choosing the next
//! token from a row of scores is the same problem in all of them: lower the score of a token that
//! has already appeared, then take the highest score or draw from the nucleus. Candle samples the
//! row and applies the presence form of the penalty; the frequency form is implemented here.

use vstd::prelude::*;

use candle_core::Tensor;

use crate::error::{bracketed_text, CandleOcrError};
use crate::float::binary32::ONE;
use crate::float::{F32, F64};
use crate::sampler::{greedy_sampler, nucleus_sampler, sample_row, Draw, Sampler};
use crate::tensor::{make_row, penalise_present, read_row, ElementType, Place};

verus! {

/// The default for [`DecodeConfig::max_new_tokens`].
pub fn default_max_new_tokens() -> (r: usize)
    ensures
        r == 4096,
{
    4096
}

/// The default for [`DecodeConfig::repeat_penalty`], the number 1.1.
pub fn default_repeat_penalty() -> (r: F32)
    ensures
        r.bits == 0x3f8c_cccd,
{
    F32 { bits: 0x3f8c_cccd }
}

/// The default for [`DecodeConfig::repeat_last_n`].
pub fn default_repeat_last_n() -> (r: usize)
    ensures
        r == 64,
{
    64
}

/// The default for [`DecodeConfig::seed`].
pub fn default_seed() -> (r: u64)
    ensures
        r == 1337,
{
    1337
}

/// The default for [`DecodeConfig::top_p`], the number 0.9.
pub fn default_top_p() -> (r: F64)
    ensures
        r.bits == 0x3fec_cccc_cccc_cccd,
{
    F64 { bits: 0x3fec_cccc_cccc_cccd }
}

/// How the repetition penalty counts a token the decoder has already produced.
///
/// The two forms are the distinction that an LLM API draws between a presence penalty and a
/// frequency penalty.
#[derive(Debug, Clone, Copy, PartialEq, Eq, Structural)]
pub enum RepeatPenaltyPolicy {
    /// Penalise a repeated token once, however many times it has appeared.
    ///
    /// The pressure on a token is the same at its first repeat and at its fiftieth. A decoder
    /// that has settled on a token which leads the runner-up by more than the penalty therefore
    /// stays on it forever.
    Presence,
    /// Penalise a repeated token once for each time it has appeared.
    ///
    /// The pressure grows with every repeat, so a token the decoder keeps choosing eventually
    /// falls behind the runner-up and the loop ends. The penalty has to be above 1.0 and the score
    /// finite. Division takes a score towards zero and never below, so the runner-up of a score that
    /// is not negative has to be positive. Next to zero, where numbers have fewer digits, a score can
    /// stop moving before it falls behind.
    Frequency,
}

impl Default for RepeatPenaltyPolicy {
    fn default() -> (r: RepeatPenaltyPolicy)
        ensures
            r == RepeatPenaltyPolicy::Presence,
    {
        RepeatPenaltyPolicy::Presence
    }
}

/// Decoding limits and sampling controls for one OCR backend.
#[derive(Debug)]
pub struct DecodeConfig {
    /// Upper bound on the tokens generated for one image.
    pub max_new_tokens: usize,
    /// Divides the score of a token already seen in the window. 1.0 disables the penalty.
    pub repeat_penalty: F32,
    /// How many of the most recent tokens the penalty reads. 0 means the whole output.
    pub repeat_last_n: usize,
    /// Whether the penalty counts a repeated token once or once per occurrence.
    pub repeat_penalty_policy: RepeatPenaltyPolicy,
    /// Greedy when 0.0, nucleus sampling above it.
    pub temperature: F64,
    /// Nucleus mass. Read only when `temperature` is above 0.0.
    pub top_p: F64,
    /// Seed for the sampling RNG. Read only when `temperature` is above 0.0.
    pub seed: u64,
}

impl DecodeConfig {
    /// The values that a configuration has when nothing names any.
    pub open spec fn standard() -> DecodeConfig {
        DecodeConfig {
            max_new_tokens: 4096,
            repeat_penalty: F32 { bits: 0x3f8c_cccd },
            repeat_last_n: 64,
            repeat_penalty_policy: RepeatPenaltyPolicy::Presence,
            temperature: F64 { bits: 0 },
            top_p: F64 { bits: 0x3fec_cccc_cccc_cccd },
            seed: 1337,
        }
    }
}

impl Default for DecodeConfig {
    fn default() -> (r: DecodeConfig)
        ensures
            r == DecodeConfig::standard(),
            r.max_new_tokens == 4096,
            r.repeat_penalty.bits == 0x3f8c_cccd,
            r.repeat_last_n == 64,
            r.repeat_penalty_policy == RepeatPenaltyPolicy::Presence,
            r.temperature.bits == 0,
            r.top_p.bits == 0x3fec_cccc_cccc_cccd,
            r.seed == 1337,
    {
        DecodeConfig {
            max_new_tokens: default_max_new_tokens(),
            repeat_penalty: default_repeat_penalty(),
            repeat_last_n: default_repeat_last_n(),
            repeat_penalty_policy: RepeatPenaltyPolicy::Presence,
            temperature: F64 { bits: 0 },
            top_p: default_top_p(),
            seed: default_seed(),
        }
    }
}

impl Clone for DecodeConfig {
    fn clone(&self) -> (r: DecodeConfig)
        ensures
            r == *self,
    {
        DecodeConfig {
            max_new_tokens: self.max_new_tokens,
            repeat_penalty: self.repeat_penalty,
            repeat_last_n: self.repeat_last_n,
            repeat_penalty_policy: self.repeat_penalty_policy,
            temperature: self.temperature,
            top_p: self.top_p,
            seed: self.seed,
        }
    }
}

impl PartialEq for DecodeConfig {
    fn eq(&self, other: &DecodeConfig) -> (r: bool) {
        self.max_new_tokens == other.max_new_tokens && self.repeat_penalty.is_same(
            other.repeat_penalty,
        ) && self.repeat_last_n == other.repeat_last_n && self.repeat_penalty_policy
            == other.repeat_penalty_policy && self.temperature.is_same(other.temperature)
            && self.top_p.is_same(other.top_p) && self.seed == other.seed
    }
}

impl vstd::std_specs::cmp::PartialEqSpecImpl for DecodeConfig {
    open spec fn obeys_eq_spec() -> bool {
        true
    }

    open spec fn eq_spec(&self, other: &DecodeConfig) -> bool {
        &&& self.max_new_tokens == other.max_new_tokens
        &&& self.repeat_penalty.same(other.repeat_penalty)
        &&& self.repeat_last_n == other.repeat_last_n
        &&& self.repeat_penalty_policy == other.repeat_penalty_policy
        &&& self.temperature.same(other.temperature)
        &&& self.top_p.same(other.top_p)
        &&& self.seed == other.seed
    }
}

/// The score of a token after one application of the penalty: divided when it is at least zero,
/// multiplied otherwise, which moves it down by the same factor.
pub open spec fn penalised(score: F32, penalty: F32) -> F32 {
    if score.at_least_zero() {
        score.quotient(penalty)
    } else {
        score.product(penalty)
    }
}

/// The score of a token after `n` applications of the penalty.
pub open spec fn penalised_times(score: F32, penalty: F32, n: nat) -> F32
    decreases n,
{
    if n == 0 {
        score
    } else {
        penalised(penalised_times(score, penalty, (n - 1) as nat), penalty)
    }
}

/// The token with index `i` occurs in the context.
pub open spec fn mentions(context: Seq<u32>, i: int) -> bool {
    exists|k: int| 0 <= k < context.len() && context[k] == i
}

/// How often the token with index `i` occurs in the context.
pub open spec fn occurrences(context: Seq<u32>, i: int) -> nat
    decreases context.len(),
{
    if context.len() == 0 {
        0
    } else if context.last() == i {
        occurrences(context.drop_last(), i) + 1
    } else {
        occurrences(context.drop_last(), i)
    }
}

/// The scores with the penalty applied once to every token that occurs in the context.
pub open spec fn presence_penalised(scores: Seq<F32>, penalty: F32, context: Seq<u32>) -> Seq<F32> {
    Seq::new(
        scores.len(),
        |i: int|
            if mentions(context, i) {
                penalised(scores[i], penalty)
            } else {
                scores[i]
            },
    )
}

/// The scores with the penalty applied to every token once per occurrence in the context.
pub open spec fn frequency_penalised(
    scores: Seq<F32>,
    penalty: F32,
    context: Seq<u32>,
) -> Seq<F32> {
    Seq::new(scores.len(), |i: int| penalised_times(scores[i], penalty, occurrences(context, i)))
}

/// The most recent `last_n` tokens of the history, or all of it when `last_n` is zero.
pub open spec fn window(history: Seq<u32>, last_n: usize) -> Seq<u32> {
    if last_n == 0 || history.len() <= last_n {
        history
    } else {
        history.skip(history.len() - last_n)
    }
}

/// The token `t` has the highest score: no score is above its own and every number before it is
/// below. NaN is passed over, unless the row starts with NaN: then its first token leads.
pub open spec fn leads(scores: Seq<F32>, t: int) -> bool {
    &&& 0 <= t < scores.len()
    &&& if scores[0].nan() {
        t == 0
    } else {
        &&& !scores[t].nan()
        &&& forall|j: int| 0 <= j < scores.len() ==> !scores[t].less(#[trigger] scores[j])
        &&& forall|j: int| 0 <= j < t && !(#[trigger] scores[j]).nan() ==> scores[j].less(scores[t])
    }
}

/// The sizes describe the scores of one position: every size before the last is one.
pub open spec fn one_position(dims: Seq<usize>) -> bool {
    &&& dims.len() > 0
    &&& forall|i: int| 0 <= i < dims.len() - 1 ==> dims[i] == 1
}

/// What a [`TokenSelector`] was made with.
pub struct Selection {
    pub seed: u64,
    /// Nucleus mass and temperature, or nothing when the highest score is taken.
    pub nucleus: Option<(F64, F64)>,
    pub repeat_penalty: F32,
    pub repeat_last_n: usize,
    pub repeat_penalty_policy: RepeatPenaltyPolicy,
}

/// The scores that a model hands over.
pub struct Logits {
    pub dims: Seq<usize>,
    pub scores: Seq<F32>,
    pub element_type: ElementType,
    pub place: Place,
}

impl Logits {
    /// What a tensor of logits holds.
    pub open spec fn of(t: Tensor) -> Logits {
        Logits {
            dims: crate::tensor::tensor_dims(t),
            scores: crate::tensor::tensor_scores(t),
            element_type: crate::tensor::tensor_element_type(t),
            place: crate::tensor::tensor_place(t),
        }
    }

    /// The scores lie in main memory, in an element type that candle reads.
    pub open spec fn in_memory(self) -> bool {
        self.place is Memory && self.element_type !is Packed
    }

    /// The scores lie in main memory, in a packed format that candle does not read.
    pub open spec fn only_stored(self) -> bool {
        self.place is Memory && self.element_type is Packed
    }
}

impl Selection {
    /// The selection that a configuration asks for.
    pub open spec fn of(config: DecodeConfig) -> Selection {
        Selection {
            seed: config.seed,
            nucleus: if config.temperature.at_most_zero() {
                None
            } else {
                Some((config.top_p, config.temperature))
            },
            repeat_penalty: config.repeat_penalty,
            repeat_last_n: config.repeat_last_n,
            repeat_penalty_policy: config.repeat_penalty_policy,
        }
    }

    /// A penalty applies: it is not 1.0, and something was generated.
    pub open spec fn penalises(self, history: Seq<u32>) -> bool {
        !self.repeat_penalty.same(F32 { bits: ONE }) && history.len() > 0
    }

    /// The scores that the choice is made from, given those of the model and the tokens generated
    /// so far.
    pub open spec fn penalised_scores(self, scores: Seq<F32>, history: Seq<u32>) -> Seq<F32> {
        let context = window(history, self.repeat_last_n);
        if !self.penalises(history) {
            scores
        } else {
            match self.repeat_penalty_policy {
                RepeatPenaltyPolicy::Presence => presence_penalised(
                    scores,
                    self.repeat_penalty,
                    context,
                ),
                RepeatPenaltyPolicy::Frequency => frequency_penalised(
                    scores,
                    self.repeat_penalty,
                    context,
                ),
            }
        }
    }
}

/// Chooses the next token from a row of logits, applying the repetition penalty first.
pub struct TokenSelector {
    sampler: Sampler,
    repeat_penalty: F32,
    repeat_last_n: usize,
    repeat_penalty_policy: RepeatPenaltyPolicy,
}

impl View for TokenSelector {
    type V = Selection;

    closed spec fn view(&self) -> Selection {
        Selection {
            seed: self.sampler.seed(),
            nucleus: self.sampler.nucleus(),
            repeat_penalty: self.repeat_penalty,
            repeat_last_n: self.repeat_last_n,
            repeat_penalty_policy: self.repeat_penalty_policy,
        }
    }
}

impl TokenSelector {
    /// The record and the settings of a selector are those of its sampler and its own fields.
    proof fn the_record_is_that_of_the_sampler(self)
        ensures
            self.draws() == self.sampler.draws(),
            self@.seed == self.sampler.seed(),
            self@.nucleus == self.sampler.nucleus(),
            self@.repeat_penalty == self.repeat_penalty,
            self@.repeat_last_n == self.repeat_last_n,
            self@.repeat_penalty_policy == self.repeat_penalty_policy,
    {
    }
}

/// Lowers one score by one application of the penalty.
pub fn penalise(score: F32, penalty: F32) -> (r: F32)
    ensures
        r == penalised(score, penalty),
{
    if score.is_at_least_zero() {
        score.divide(penalty)
    } else {
        score.multiply(penalty)
    }
}

/// Lowers the score of each token of the context once for every time it appears there. A token
/// beyond the row is skipped.
pub fn penalise_occurrences(scores: &mut Vec<F32>, penalty: F32, context: &[u32])
    ensures
        final(scores)@ == frequency_penalised(old(scores)@, penalty, context@),
{
    let ghost before = scores@;
    let mut k: usize = 0;
    assert(context@.take(0) == Seq::<u32>::empty());
    assert(scores@ =~= frequency_penalised(before, penalty, context@.take(0)));
    while k < context.len()
        invariant
            k <= context@.len(),
            scores@.len() == before.len(),
            scores@ == frequency_penalised(before, penalty, context@.take(k as int)),
        decreases context@.len() - k,
    {
        let token: usize = context[k] as usize;
        proof {
            assert(context@.take(k + 1).drop_last() == context@.take(k as int));
            assert(context@.take(k + 1).last() == context@[k as int]);
        }
        if token < scores.len() {
            let lowered = penalise(scores[token], penalty);
            scores.set(token, lowered);
        }
        assert(scores@ =~= frequency_penalised(before, penalty, context@.take(k + 1)));
        k = k + 1;
    }
    assert(context@.take(k as int) == context@);
}

impl TokenSelector {
    /// Build a selector for one image. Keep it for the whole decode loop: the sampling RNG is
    /// seeded once, here.
    #[must_use]
    pub fn new(config: &DecodeConfig) -> (r: TokenSelector)
        ensures
            r@ == Selection::of(*config),
            r@.seed == config.seed,
            r@.repeat_penalty == config.repeat_penalty,
            r@.repeat_last_n == config.repeat_last_n,
            r@.repeat_penalty_policy == config.repeat_penalty_policy,
            r@.nucleus == if config.temperature.at_most_zero() {
                None
            } else {
                Some((config.top_p, config.temperature))
            },
            r.draws() == Seq::<Draw>::empty(),
    {
        let sampler = if config.temperature.is_at_most_zero() {
            greedy_sampler(config.seed)
        } else {
            nucleus_sampler(config.seed, config.top_p, config.temperature).unwrap()
        };
        TokenSelector {
            sampler,
            repeat_penalty: config.repeat_penalty,
            repeat_last_n: config.repeat_last_n,
            repeat_penalty_policy: config.repeat_penalty_policy,
        }
    }

    /// Flatten the scores for one position to the row that the samplers read.
    pub fn single_row(logits: &Tensor) -> (r: Result<Tensor, CandleOcrError>)
        ensures
            !one_position(crate::tensor::tensor_dims(*logits)) ==> r is Err
                && r->Err_0.rejects_shape(
                "scores for one position, such as (vocab) or (1, 1, vocab)"@,
                crate::error::bracketed(crate::tensor::tensor_dims(*logits)),
            ),
            one_position(crate::tensor::tensor_dims(*logits)) ==> crate::tensor::tensor_scores(
                *logits,
            ).len() == crate::tensor::tensor_dims(*logits).last(),
            one_position(crate::tensor::tensor_dims(*logits)) ==> match r {
                Ok(row) => {
                    &&& crate::tensor::same_elements(row, *logits)
                    &&& crate::tensor::tensor_dims(row) == seq![
                        crate::tensor::tensor_dims(*logits).last(),
                    ]
                    &&& crate::tensor::tensor_scores(row) == crate::tensor::tensor_scores(*logits)
                    &&& crate::tensor::tensor_integers(row) == crate::tensor::tensor_integers(
                        *logits,
                    )
                    &&& crate::tensor::tensor_element_type(row)
                        == crate::tensor::tensor_element_type(*logits)
                    &&& crate::tensor::tensor_place(row) == crate::tensor::tensor_place(*logits)
                },
                Err(e) => e.failed_at("Flatten logits: "@) && !crate::tensor::tensor_in_memory(
                    *logits,
                ) && crate::tensor::tensor_dims(*logits).len() > 1,
            },
    {
        let dims = logits.dims();
        proof {
            if one_position(dims@) {
                lemma_one_position(dims@);
            }
        }
        let mut single = dims.len() > 0;
        let leading: usize = if single {
            dims.len() - 1
        } else {
            0
        };
        let mut i: usize = 0;
        while i < leading
            invariant
                i <= leading <= dims@.len(),
                single <==> dims@.len() > 0 && forall|j: int| 0 <= j < i ==> dims@[j] == 1,
            decreases leading - i,
        {
            if dims[i] != 1 {
                single = false;
            }
            i = i + 1;
        }
        if !single {
            return Err(
                CandleOcrError::InvalidTensorShape {
                    expected: "scores for one position, such as (vocab) or (1, 1, vocab)".to_owned(),
                    got: bracketed_text(dims),
                },
            );
        }
        match logits.flatten_all() {
            Ok(row) => Ok(row),
            Err(e) => Err(CandleOcrError::inference("Flatten logits: ", e)),
        }
    }

    /// The rows handed to the sampler since its generator was seeded, oldest first.
    pub closed spec fn draws(&self) -> Seq<Draw> {
        self.sampler.draws()
    }

    /// Divide the score of each token in `context` by the penalty once for every time it
    /// appears, so the pressure on a token grows as the decoder repeats it.
    ///
    /// A negative score is multiplied rather than divided, which moves it further down by the
    /// same factor. Scores are read in single precision, whatever the type of the row, and the
    /// result is a row of the same size in single precision, on the device of the row. A row in
    /// main memory is refused only in a packed format, which candle does not read.
    pub fn apply_frequency_penalty(row: &Tensor, penalty: F32, context: &[u32]) -> (r: Result<
        Tensor,
        CandleOcrError,
    >)
        ensures
            match r {
                Ok(lowered) => {
                    &&& crate::tensor::tensor_dims(*row).len() == 1
                    &&& !crate::tensor::only_stored(*row)
                    &&& crate::tensor::tensor_dims(lowered) == crate::tensor::tensor_dims(*row)
                    &&& crate::tensor::tensor_scores(lowered) == frequency_penalised(
                        crate::tensor::tensor_scores(*row),
                        penalty,
                        context@,
                    )
                    &&& crate::tensor::tensor_element_type(lowered) is F32
                    &&& crate::tensor::tensor_place(lowered) == crate::tensor::tensor_place(*row)
                },
                Err(e) => e.failed_at("Repetition penalty: "@) && !(
                crate::tensor::tensor_dims(*row).len() == 1 && crate::tensor::tensor_in_memory(
                    *row,
                )),
            },
    {
        let mut scores = match read_row(row) {
            Ok(scores) => scores,
            Err(e) => return Err(CandleOcrError::inference("Repetition penalty: ", e)),
        };
        let ghost read = scores@;
        penalise_occurrences(&mut scores, penalty, context);
        proof {
            let folded = read.map_values(|s: F32| s.canonical());
            assert(folded.len() == read.len());
            assert forall|i: int| 0 <= i < read.len() implies scores@[i].canonical()
                == frequency_penalised(folded, penalty, context@)[i] by {
                crate::models::pressure::lemma_folding_commutes(
                    read[i],
                    penalty,
                    occurrences(context@, i),
                );
            }
            assert(scores@.map_values(|s: F32| s.canonical()) =~= frequency_penalised(
                folded,
                penalty,
                context@,
            ));
            assert(seq![scores@.len() as usize] =~= crate::tensor::tensor_dims(*row));
        }
        match make_row(&scores, row.device()) {
            Ok(lowered) => Ok(lowered),
            Err(e) => Err(CandleOcrError::inference("Repetition penalty: ", e)),
        }
    }
}

impl Selection {
    /// What a greedy step returns, for scores that lie in main memory: the token that leads the
    /// penalised scores, or a sampling error on an empty row.
    pub open spec fn greedy_outcome(
        self,
        scores: Seq<F32>,
        history: Seq<u32>,
        outcome: Result<u32, CandleOcrError>,
    ) -> bool {
        match outcome {
            Ok(t) => leads(self.penalised_scores(scores, history), t as int),
            Err(e) => scores.len() == 0 && e.failed_at("Sampling: "@),
        }
    }

    /// What the sampler can answer. In main memory a greedy one refuses an empty row and otherwise
    /// takes the leader. A nucleus is never asked for an empty row, and holds nothing but tokens of
    /// the row.
    pub open spec fn answers(self, draw: Draw, in_memory: bool) -> bool {
        let n = draw.scores.len();
        if self.nucleus is Some {
            &&& n > 0
            &&& draw.answer matches Ok(token) ==> token < n
        } else {
            in_memory ==> {
                &&& n == 0 ==> draw.answer is Err
                &&& 0 < n <= 0x1_0000_0000 ==> draw.answer is Ok && leads(
                    draw.scores,
                    draw.answer->Ok_0 as int,
                )
            }
        }
    }
}

/// What a step returns, and the rows that it hands to the sampler: none, when it fails before, or
/// the penalised scores, once. Then it returns what the sampler answers.
pub open spec fn steps(
    selection: Selection,
    logits: Logits,
    history: Seq<u32>,
    drawn: Seq<Draw>,
    outcome: Result<u32, CandleOcrError>,
) -> bool {
    if !one_position(logits.dims) {
        &&& drawn.len() == 0
        &&& outcome matches Err(e) && e.rejects_shape(
            "scores for one position, such as (vocab) or (1, 1, vocab)"@,
            crate::error::bracketed(logits.dims),
        )
    } else if drawn.len() == 0 {
        &&& outcome matches Err(e) && {
            ||| !logits.in_memory() && e.failed_at("Flatten logits: "@)
            ||| !logits.in_memory() && selection.penalises(history) && e.failed_at(
                "Repetition penalty: "@,
            )
            ||| selection.nucleus is Some && logits.dims.last() == 0 && logits.scores.len() == 0
                && e.says("Sampling: no scores to choose from"@)
        }
    } else {
        &&& drawn.len() == 1
        &&& drawn[0].scores == selection.penalised_scores(logits.scores, history)
        &&& selection.answers(drawn[0], logits.in_memory())
        &&& logits.only_stored() ==> !selection.penalises(history) && drawn[0].answer is Err
        &&& match drawn[0].answer {
            Ok(token) => outcome == Ok::<u32, CandleOcrError>(token),
            Err(cause) => outcome matches Err(e) && e.reports("Sampling: "@, cause),
        }
    }
}

impl TokenSelector {
    /// The row that the choice is made from: the scores for one position with the repetition
    /// penalty applied. Nothing is applied when the penalty is 1.0 or nothing was generated yet.
    pub fn penalised_row(&self, logits: &Tensor, history: &[u32]) -> (r: Result<
        Tensor,
        CandleOcrError,
    >)
        ensures
            !one_position(crate::tensor::tensor_dims(*logits)) ==> r is Err
                && r->Err_0.rejects_shape(
                "scores for one position, such as (vocab) or (1, 1, vocab)"@,
                crate::error::bracketed(crate::tensor::tensor_dims(*logits)),
            ),
            one_position(crate::tensor::tensor_dims(*logits)) ==> crate::tensor::tensor_scores(
                *logits,
            ).len() == crate::tensor::tensor_dims(*logits).last(),
            one_position(crate::tensor::tensor_dims(*logits)) ==> match r {
                Ok(row) => {
                    &&& crate::tensor::tensor_dims(row) == seq![
                        crate::tensor::tensor_dims(*logits).last(),
                    ]
                    &&& crate::tensor::tensor_scores(row) == self@.penalised_scores(
                        crate::tensor::tensor_scores(*logits),
                        history@,
                    )
                    &&& crate::tensor::tensor_place(row) == crate::tensor::tensor_place(*logits)
                    &&& crate::tensor::only_stored(*logits) ==> !self@.penalises(history@)
                    &&& if self@.penalises(history@) {
                        crate::tensor::tensor_element_type(row) is F32
                    } else {
                        crate::tensor::tensor_element_type(row)
                            == crate::tensor::tensor_element_type(*logits)
                    }
                },
                Err(e) => {
                    &&& e.failed_at("Flatten logits: "@) || (self@.penalises(history@)
                        && e.failed_at("Repetition penalty: "@))
                    &&& !crate::tensor::tensor_in_memory(*logits)
                },
            },
    {
        let row = match TokenSelector::single_row(logits) {
            Ok(row) => row,
            Err(e) => return Err(e),
        };
        if self.repeat_penalty.is_same(F32 { bits: ONE }) || history.len() == 0 {
            return Ok(row);
        }
        let start: usize = if self.repeat_last_n == 0 {
            0
        } else {
            history.len().saturating_sub(self.repeat_last_n)
        };
        let context = vstd::slice::slice_subrange(history, start, history.len());
        assert(context@ == window(history@, self.repeat_last_n));
        match self.repeat_penalty_policy {
            RepeatPenaltyPolicy::Presence => match penalise_present(
                &row,
                self.repeat_penalty,
                context,
            ) {
                Ok(lowered) => Ok(lowered),
                Err(e) => Err(CandleOcrError::inference("Repetition penalty: ", e)),
            },
            RepeatPenaltyPolicy::Frequency => TokenSelector::apply_frequency_penalty(
                &row,
                self.repeat_penalty,
                context,
            ),
        }
    }

    /// Choose the next token.
    ///
    /// `logits` holds the scores for one position: the last dimension is the vocabulary and
    /// every dimension before it must be 1, so `(vocab)`, `(1, vocab)` and `(1, 1, vocab)` all
    /// work. `history` is the tokens generated so far, most recent last.
    ///
    /// Which token of the nucleus is drawn, and what is chosen from scores that lie outside main
    /// memory, is left to the sampler: the step hands it one row and returns its answer.
    ///
    /// # Errors
    ///
    /// Returns [`CandleOcrError::InvalidTensorShape`] if `logits` covers more than one position,
    /// and [`CandleOcrError::InferenceFailed`] if candle cannot apply the penalty or sample.
    pub fn next_token(&mut self, logits: &Tensor, history: &[u32]) -> (r: Result<
        u32,
        CandleOcrError,
    >)
        requires
            old(self)@.nucleus is Some && one_position(crate::tensor::tensor_dims(*logits))
                ==> crate::tensor::tensor_dims(*logits).last() > 0,
        ensures
            final(self)@ == old(self)@,
            old(self).draws().is_prefix_of(final(self).draws()),
            steps(
                old(self)@,
                Logits::of(*logits),
                history@,
                final(self).draws().skip(old(self).draws().len() as int),
                r,
            ),
            final(self).draws() == old(self).draws() ==> *final(self) == *old(self),
            r matches Err(e) ==> {
                &&& e is InvalidTensorShape <==> !one_position(crate::tensor::tensor_dims(*logits))
                &&& e !is InvalidTensorShape ==> e is InferenceFailed
                &&& e is InvalidTensorShape ==> *final(self) == *old(self)
            },
            one_position(crate::tensor::tensor_dims(*logits)) && old(self)@.nucleus is None
                && crate::tensor::tensor_in_memory(*logits) && crate::tensor::tensor_scores(
                *logits,
            ).len() <= 0x1_0000_0000 ==> old(self)@.greedy_outcome(
                crate::tensor::tensor_scores(*logits),
                history@,
                r,
            ),
    {
        let row = match self.penalised_row(logits, history) {
            Ok(row) => row,
            Err(e) => {
                assert(self.draws().skip(self.draws().len() as int) =~= seq![]);
                return Err(e);
            },
        };
        assert(crate::tensor::tensor_scores(row).len() == crate::tensor::tensor_scores(
            *logits,
        ).len());
        let answer = sample_row(&mut self.sampler, &row);
        assert(self.draws().skip(old(self).draws().len() as int) =~= seq![
            Draw { scores: crate::tensor::tensor_scores(row), answer },
        ]);
        match answer {
            Ok(token) => Ok(token),
            Err(e) => Err(CandleOcrError::inference("Sampling: ", e)),
        }
    }

    /// Choose the next token, as [`next_token`](TokenSelector::next_token) does, from logits that
    /// may hold no score at all. There is no nucleus in an empty row, and the step says so.
    pub fn try_next_token(&mut self, logits: &Tensor, history: &[u32]) -> (r: Result<
        u32,
        CandleOcrError,
    >)
        ensures
            final(self)@ == old(self)@,
            old(self).draws().is_prefix_of(final(self).draws()),
            steps(
                old(self)@,
                Logits::of(*logits),
                history@,
                final(self).draws().skip(old(self).draws().len() as int),
                r,
            ),
            final(self).draws() == old(self).draws() ==> *final(self) == *old(self),
    {
        if self.sampler.has_nucleus() {
            let row = match TokenSelector::single_row(logits) {
                Ok(row) => row,
                Err(e) => {
                    assert(self.draws().skip(self.draws().len() as int) =~= seq![]);
                    return Err(e);
                },
            };
            if row.dims()[0] == 0 {
                assert(self.draws().skip(self.draws().len() as int) =~= seq![]);
                return Err(
                    CandleOcrError::InferenceFailed("Sampling: no scores to choose from".to_owned()),
                );
            }
        }
        self.next_token(logits, history)
    }
}

/// Sizes that are one before the last multiply to the last, and to nothing larger on the way.
proof fn lemma_one_position(dims: Seq<usize>)
    requires
        one_position(dims),
    ensures
        crate::tensor::product(dims) == dims.last(),
        crate::tensor::fits(dims),
{
    lemma_ends_in(dims);
    assert forall|i: int, j: int| 0 <= i <= j <= dims.len() implies crate::tensor::product(
        #[trigger] dims.subrange(i, j),
    ) <= usize::MAX by {
        let part = dims.subrange(i, j);
        if i < j && j == dims.len() {
            lemma_ends_in(part);
        } else {
            lemma_all_ones(part);
        }
    }
}

proof fn lemma_ends_in(dims: Seq<usize>)
    requires
        one_position(dims),
    ensures
        crate::tensor::product(dims) == dims.last(),
{
    lemma_all_ones(dims.drop_last());
    assert(1 * dims.last() as nat == dims.last());
}

proof fn lemma_all_ones(dims: Seq<usize>)
    requires
        forall|i: int| 0 <= i < dims.len() ==> dims[i] == 1,
    ensures
        crate::tensor::product(dims) == 1,
    decreases dims.len(),
{
    if dims.len() > 0 {
        lemma_all_ones(dims.drop_last());
    }
}

}
