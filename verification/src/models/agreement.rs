//! What holds of two selections, or of two decoding runs, that are given the same.
//!
//! Whether two samplers answer alike is not for this crate to say: a greedy sampler takes the
//! leader, and a nucleus is drawn from by a generator of candle. The laws here take it as a premise,
//! for samplers of either kind, and [`greedy_samplers_answer_alike`] proves it of greedy ones.

use vstd::prelude::*;

use candle_core::Tensor;

use crate::error::CandleOcrError;
use crate::float::F32;
use crate::models::decode::{Logits, RepeatPenaltyPolicy, Selection};
use crate::models::glm_ocr::decoder::DecoderCall;
use crate::models::glm_ocr::mtp::{Placement, Run};
use crate::sampler::Draw;

verus! {

/// Two answers of a sampler, or outcomes of a step, name the same token, or both are errors.
pub open spec fn same<E, F>(one: Result<u32, E>, other: Result<u32, F>) -> bool {
    match (one, other) {
        (Ok(a), Ok(b)) => a == b,
        (Err(_), Err(_)) => true,
        _ => false,
    }
}

/// The two samplers were handed the same rows up to row `n`.
pub open spec fn same_rows(one: Seq<Draw>, other: Seq<Draw>, n: int) -> bool {
    &&& n <= one.len()
    &&& n <= other.len()
    &&& forall|j: int| 0 <= j < n ==> (#[trigger] one[j]).scores == other[j].scores
}

/// As long as the two samplers are handed the same rows, they give the same answers.
pub open spec fn samplers_answer_alike(one: Seq<Draw>, other: Seq<Draw>) -> bool {
    forall|i: int|
        0 <= i && #[trigger] same_rows(one, other, i + 1) ==> same(one[i].answer, other[i].answer)
}

/// The two samplers were handed the same rows and gave the same answers.
pub open spec fn in_step(one: Seq<Draw>, other: Seq<Draw>) -> bool {
    &&& one.len() == other.len()
    &&& forall|j: int|
        0 <= j < one.len() ==> (#[trigger] one[j]).scores == other[j].scores && same(
            one[j].answer,
            other[j].answer,
        )
}

/// One step of a selector, with the record of its sampler before and after.
pub struct Step {
    pub selection: Selection,
    pub logits: Logits,
    pub history: Seq<u32>,
    pub before: Seq<Draw>,
    pub after: Seq<Draw>,
    pub outcome: Result<u32, CandleOcrError>,
}

impl Step {
    /// The step was taken as [`TokenSelector::try_next_token`] takes it.
    ///
    /// [`TokenSelector::try_next_token`]: crate::models::decode::TokenSelector::try_next_token
    pub open spec fn taken(self) -> bool {
        &&& self.before.is_prefix_of(self.after)
        &&& crate::models::decode::steps(
            self.selection,
            self.logits,
            self.history,
            self.after.skip(self.before.len() as int),
            self.outcome,
        )
    }

    /// The scores that the step chooses from.
    pub open spec fn row(self) -> Seq<F32> {
        self.selection.penalised_scores(self.logits.scores, self.history)
    }

    /// The logits are for one position and lie in main memory.
    pub open spec fn readable(self) -> bool {
        crate::models::decode::one_position(self.logits.dims) && self.logits.in_memory()
    }
}

/// Two selectors whose samplers are in step stay in step over logits in main memory, as long as
/// both choose from the same scores: they return the same token, or both fail.
pub proof fn selectors_stay_in_step(one: Step, other: Step)
    requires
        one.taken(),
        other.taken(),
        one.readable(),
        other.readable(),
        one.logits.dims.last() == other.logits.dims.last(),
        one.logits.scores.len() == other.logits.scores.len(),
        one.selection.nucleus is Some <==> other.selection.nucleus is Some,
        one.row() == other.row(),
        in_step(one.before, other.before),
        samplers_answer_alike(one.after, other.after),
    ensures
        in_step(one.after, other.after),
        same(one.outcome, other.outcome),
{
    let n = one.before.len() as int;
    let a = one.after.skip(n);
    let b = other.after.skip(n);
    crate::models::laws::the_row_keeps_its_length(one.selection, one.logits.scores, one.history);
    crate::models::laws::the_row_keeps_its_length(
        other.selection,
        other.logits.scores,
        other.history,
    );
    assert(one.after =~= one.before + a);
    assert(other.after =~= other.before + b);
    if a.len() == 1 && b.len() == 1 {
        assert(one.after[n] == a[0]);
        assert(other.after[n] == b[0]);
        assert(same_rows(one.after, other.after, n + 1));
    }
}

/// Only the window counts, over any number of calls: two selectors with the same settings that are
/// given the same logits and histories with the same window stay in step.
pub proof fn equal_windows_stay_in_step(one: Step, other: Step)
    requires
        one.taken(),
        other.taken(),
        one.readable(),
        one.selection == other.selection,
        one.logits == other.logits,
        crate::models::decode::window(one.history, one.selection.repeat_last_n)
            == crate::models::decode::window(other.history, one.selection.repeat_last_n),
        in_step(one.before, other.before),
        samplers_answer_alike(one.after, other.after),
    ensures
        in_step(one.after, other.after),
        same(one.outcome, other.outcome),
{
    crate::models::laws::only_the_window_counts(
        one.selection,
        one.logits,
        one.history,
        other.history,
        seq![],
        one.outcome,
    );
    selectors_stay_in_step(one, other);
}

/// A batched row and a flat one keep two selectors in step, whatever sizes of one stand before the
/// vocabulary.
pub proof fn batched_and_flat_stay_in_step(one: Step, other: Step)
    requires
        one.taken(),
        other.taken(),
        one.readable(),
        other.readable(),
        one.selection == other.selection,
        one.history == other.history,
        one.logits.dims.last() == other.logits.dims.last(),
        one.logits.scores == other.logits.scores,
        in_step(one.before, other.before),
        samplers_answer_alike(one.after, other.after),
    ensures
        in_step(one.after, other.after),
        same(one.outcome, other.outcome),
{
    selectors_stay_in_step(one, other);
}

/// The two policies keep two selectors in step as long as no token of the vocabulary has repeated
/// in the window.
pub proof fn policies_stay_in_step_without_repeats(presence: Step, frequency: Step)
    requires
        presence.taken(),
        frequency.taken(),
        presence.readable(),
        presence.logits == frequency.logits,
        presence.history == frequency.history,
        presence.selection.repeat_penalty_policy == RepeatPenaltyPolicy::Presence,
        frequency.selection == (Selection {
            repeat_penalty_policy: RepeatPenaltyPolicy::Frequency,
            ..presence.selection
        }),
        forall|i: int|
            0 <= i < presence.logits.scores.len() ==> #[trigger] crate::models::decode::occurrences(
                crate::models::decode::window(
                    presence.history,
                    presence.selection.repeat_last_n,
                ),
                i,
            ) <= 1,
        in_step(presence.before, frequency.before),
        samplers_answer_alike(presence.after, frequency.after),
    ensures
        in_step(presence.after, frequency.after),
        same(presence.outcome, frequency.outcome),
{
    crate::models::laws::the_policies_agree_without_repeats(
        presence.selection,
        frequency.selection,
        presence.logits,
        presence.history,
        seq![],
        presence.outcome,
    );
    selectors_stay_in_step(presence, frequency);
}

/// A decoding run that has come to its end.
pub struct Ended {
    pub run: Run,
    pub calls: Seq<DecoderCall>,
    pub draws: Seq<Draw>,
    pub outcome: Result<Vec<u32>, CandleOcrError>,
}

impl Ended {
    /// The run ended as the loops end.
    pub open spec fn happened(self) -> bool {
        self.run.concludes(self.calls, self.draws, self.outcome)
    }

    /// What the run returned, if it completed.
    pub open spec fn output(self) -> Seq<u32> {
        self.outcome->Ok_0@
    }

    /// The first `n` tokens that the sampler answered.
    pub open spec fn chosen(self, n: int) -> Seq<u32> {
        Seq::new(n as nat, |j: int| self.draws[j].answer->Ok_0)
    }

    /// The logits that pass `i` was answered with.
    pub open spec fn logits(self, i: int) -> Tensor {
        crate::models::glm_ocr::mtp::answered(self.calls[1 + 2 * i])->0
    }

    /// The model answered every pass in main memory, and tokens are fed from there.
    pub open spec fn in_memory(self) -> bool {
        &&& self.run.placement is Positions ==> crate::tensor::tensor_place(
            self.run.input_embeds,
        ) is Memory
        &&& forall|i: int|
            #![trigger self.logits(i)]
            0 <= i && 1 + 2 * i < self.calls.len() && crate::models::glm_ocr::mtp::answered(
                self.calls[1 + 2 * i],
            ) is Some ==> crate::tensor::tensor_in_memory(self.logits(i))
    }
}

/// The two runs choose tokens in the same way and stop at the same tokens. Their seeds, their
/// placement and their limits may differ.
pub open spec fn same_settings(one: Run, other: Run) -> bool {
    &&& one.selection.repeat_penalty == other.selection.repeat_penalty
    &&& one.selection.repeat_last_n == other.selection.repeat_last_n
    &&& one.selection.repeat_penalty_policy == other.selection.repeat_penalty_policy
    &&& one.selection.nucleus is Some <==> other.selection.nucleus is Some
    &&& forall|t: u32| #[trigger] one.eos_token_ids.contains(t) == other.eos_token_ids.contains(t)
}

/// The first `n` tokens of both runs are the same.
pub open spec fn same_tokens(one: Ended, other: Ended, n: int) -> bool {
    &&& n <= one.draws.len()
    &&& n <= other.draws.len()
    &&& forall|j: int|
        0 <= j < n ==> (#[trigger] one.draws[j]).answer is Ok && one.draws[j].answer
            == other.draws[j].answer
}

/// The model gave both answers, or refused both. What it gave holds the same numbers.
pub open spec fn same_answer(one: DecoderCall, other: DecoderCall) -> bool {
    match (
        crate::models::glm_ocr::mtp::answered(one),
        crate::models::glm_ocr::mtp::answered(other),
    ) {
        (Some(a), Some(b)) => Logits::of(a) == Logits::of(b),
        (None, None) => true,
        _ => false,
    }
}

/// As long as both runs feed the same tokens, the model answers them alike. So it is when its
/// answers depend on nothing but its weights, its cache and what it is asked: a run clears the cache
/// first, and feeds the prefix and then its tokens.
pub open spec fn models_answer_alike(one: Ended, other: Ended) -> bool {
    forall|i: int, k: int|
        #![trigger same_tokens(one, other, i), same_answer(one.calls[k], other.calls[k])]
        0 <= i && same_tokens(one, other, i) && (k == 2 * i || k == 2 * i + 1) && k
            < one.calls.len() && k < other.calls.len() ==> same_answer(one.calls[k], other.calls[k])
}

/// Row `i` of a run holds the penalised scores of pass `i`, and everything before it was answered.
proof fn lemma_draw(ended: Ended, i: int)
    requires
        ended.happened(),
        0 <= i < ended.draws.len(),
    ensures
        1 + 2 * i < ended.calls.len(),
        crate::models::glm_ocr::mtp::answered(ended.calls[1 + 2 * i]) is Some,
        forall|j: int| 0 <= j < i ==> (#[trigger] ended.draws[j]).answer is Ok,
        ended.draws[i].scores == ended.run.selection.penalised_scores(
            crate::tensor::tensor_scores(ended.logits(i)),
            ended.chosen(i),
        ),
        ended.run.selection.answers(
            ended.draws[i],
            crate::tensor::tensor_in_memory(ended.logits(i)),
        ),
        i < ended.draws.len() - 1 ==> !ended.run.eos_token_ids.contains(
            ended.draws[i].answer->Ok_0,
        ),
{
    let run = ended.run;
    let calls = ended.calls;
    let draws = ended.draws;
    match ended.outcome {
        Ok(output) => {
            let output = output@;
            assert forall|j: int| 0 <= j <= i implies (#[trigger] draws[j]).answer == Ok::<
                u32,
                candle_core::Error,
            >(output[j]) by {
                crate::models::laws::lemma_chosen(run, calls, draws, output, j);
                assert(seq![draws[j]][0] == draws[j]);
            }
            crate::models::laws::lemma_chosen(run, calls, draws, output, i);
            assert(seq![draws[i]][0] == draws[i]);
            assert(ended.chosen(i) =~= output.take(i));
        },
        Err(e) => {
            let output = choose|output: Seq<u32>|
                #[trigger] run.stops_behind(calls, draws, output, e);
            let n = output.len() as int;
            let drawn = draws.skip(n);
            let logits = crate::models::glm_ocr::mtp::answered(calls[1 + 2 * n])->0;
            assert(run.cannot_continue(calls, drawn, output, logits, e));
            assert(drawn.len() <= 1);
            assert forall|j: int| 0 <= j < n implies (#[trigger] draws[j]).answer == Ok::<
                u32,
                candle_core::Error,
            >(output[j]) by {
                assert(run.took_step(calls.take(2 + 2 * n), draws.take(n), output, j));
                assert(seq![draws.take(n)[j]][0] == draws[j]);
            }
            if i < n {
                assert(run.took_step(calls.take(2 + 2 * n), draws.take(n), output, i));
                assert(seq![draws.take(n)[i]][0] == draws[i]);
                assert(calls.take(2 + 2 * n)[1 + 2 * i] == calls[1 + 2 * i]);
                assert(ended.chosen(i) =~= output.take(i));
            } else {
                assert(drawn[0] == draws[i]);
                assert(ended.chosen(i) =~= output);
            }
        },
    }
}

/// Runs that have chosen the same tokens choose from the same scores, and so choose alike.
proof fn lemma_next_alike(one: Ended, other: Ended, n: int)
    requires
        one.happened(),
        other.happened(),
        same_settings(one.run, other.run),
        models_answer_alike(one, other),
        samplers_answer_alike(one.draws, other.draws),
        same_tokens(one, other, n),
        0 <= n < one.draws.len(),
        n < other.draws.len(),
    ensures
        same_rows(one.draws, other.draws, n + 1),
        same(one.draws[n].answer, other.draws[n].answer),
{
    assert forall|j: int| 0 <= j <= n implies (#[trigger] one.draws[j]).scores
        == other.draws[j].scores by {
        lemma_draw(one, j);
        lemma_draw(other, j);
        assert(same_tokens(one, other, j));
        assert(same_answer(one.calls[2 * j + 1], other.calls[2 * j + 1]));
        assert(one.chosen(j) =~= other.chosen(j));
        assert(Logits::of(one.logits(j)).scores == Logits::of(other.logits(j)).scores);
    }
    assert(same_rows(one.draws, other.draws, n + 1));
}

/// A run agrees with one whose sampler answered every row, as far as both go.
proof fn lemma_agrees_with_completed(one: Ended, other: Ended, n: int)
    requires
        one.happened(),
        other.happened(),
        other.outcome is Ok,
        same_settings(one.run, other.run),
        models_answer_alike(one, other),
        samplers_answer_alike(one.draws, other.draws),
        0 <= n <= one.draws.len(),
        n <= other.draws.len(),
    ensures
        same_tokens(one, other, n),
    decreases n,
{
    if n > 0 {
        lemma_agrees_with_completed(one, other, n - 1);
        lemma_next_alike(one, other, n - 1);
        crate::models::laws::a_run_returns_what_its_sampler_drew(
            other.run,
            other.calls,
            other.draws,
            other.output(),
        );
        assert(other.draws[n - 1].answer is Ok);
    }
}

/// Two completed runs that are given the same generate the same tokens, as far as both go: one
/// output is a prefix of the other. This holds of greedy runs and of sampling runs, whatever their
/// limits and however they place their tokens.
pub proof fn completed_runs_agree(one: Ended, other: Ended)
    requires
        one.happened(),
        other.happened(),
        one.outcome is Ok,
        other.outcome is Ok,
        same_settings(one.run, other.run),
        models_answer_alike(one, other),
        samplers_answer_alike(one.draws, other.draws),
    ensures
        one.output().len() <= other.output().len() ==> one.output().is_prefix_of(other.output()),
        other.output().len() <= one.output().len() ==> other.output().is_prefix_of(one.output()),
{
    let n = if one.draws.len() <= other.draws.len() {
        one.draws.len() as int
    } else {
        other.draws.len() as int
    };
    lemma_agrees_with_completed(one, other, n);
    crate::models::laws::a_run_returns_what_its_sampler_drew(
        one.run,
        one.calls,
        one.draws,
        one.output(),
    );
    crate::models::laws::a_run_returns_what_its_sampler_drew(
        other.run,
        other.calls,
        other.draws,
        other.output(),
    );
    assert forall|j: int| 0 <= j < n implies one.output()[j] == other.output()[j] by {
        assert(one.draws[j].answer == other.draws[j].answer);
    }
}

/// A run that is given what a completed run was given, and no larger limit, completes too.
proof fn lemma_completes_too(one: Ended, other: Ended)
    requires
        one.happened(),
        other.happened(),
        other.outcome is Ok,
        same_settings(one.run, other.run),
        models_answer_alike(one, other),
        samplers_answer_alike(one.draws, other.draws),
        one.in_memory(),
        one.run.max_new_tokens <= other.run.max_new_tokens,
    ensures
        one.outcome is Ok,
{
    if one.outcome is Err {
        let e = one.outcome->Err_0;
        let run = one.run;
        let calls = one.calls;
        let draws = one.draws;
        let longer = other.output();
        assert(same_tokens(one, other, 0));
        assert(other.calls.len() >= 2);
        assert(crate::models::glm_ocr::mtp::answered(other.calls[1]) is Some);
        if run.prefix_refused(calls, draws, e) {
            assert(same_answer(calls[1], other.calls[1]));
            assert(false);
        }
        let output = choose|output: Seq<u32>| #[trigger] run.stops_behind(calls, draws, output, e);
        let n = output.len() as int;
        crate::models::laws::a_run_returns_what_its_sampler_drew(
            other.run,
            other.calls,
            other.draws,
            longer,
        );
        crate::models::laws::a_run_stops_at_the_first_end_token(
            other.run,
            other.calls,
            other.draws,
            longer,
        );
        assert forall|j: int| 0 <= j < n implies (#[trigger] draws[j]).answer == Ok::<
            u32,
            candle_core::Error,
        >(output[j]) by {
            assert(run.took_step(calls.take(2 + 2 * n), draws.take(n), output, j));
            assert(seq![draws.take(n)[j]][0] == draws[j]);
        }
        if longer.len() <= n {
            // The completed run ended at a token that this one would have ended at.
            let last = longer.len() - 1;
            lemma_agrees_with_completed(one, other, longer.len() as int);
            assert(draws[last].answer == other.draws[last].answer);
            assert(run.took_step(calls.take(2 + 2 * n), draws.take(n), output, last));
            assert(run.eos_token_ids.contains(output[last])
                == other.run.eos_token_ids.contains(output[last]));
            assert(false);
        }
        lemma_agrees_with_completed(one, other, n);
        lemma_cannot_fail_behind(one, other, output);
    }
}

/// Where a completed run went on, a run that is given the same goes on.
proof fn lemma_cannot_fail_behind(one: Ended, other: Ended, output: Seq<u32>)
    requires
        one.happened(),
        one.outcome is Err,
        other.happened(),
        other.outcome is Ok,
        same_settings(one.run, other.run),
        models_answer_alike(one, other),
        samplers_answer_alike(one.draws, other.draws),
        one.in_memory(),
        output.len() < other.output().len(),
        other.draws.len() == other.output().len(),
        output.len() <= one.draws.len() ==> same_tokens(one, other, output.len() as int),
    ensures
        !one.run.stops_behind(one.calls, one.draws, output, one.outcome->Err_0),
{
    let e = one.outcome->Err_0;
    if one.run.stops_behind(one.calls, one.draws, output, e) {
        let run = one.run;
        let calls = one.calls;
        let draws = one.draws;
        let n = output.len() as int;
        let longer = other.output();
        let drawn = draws.skip(n);
        let logits = one.logits(n);
        crate::models::laws::lemma_chosen(other.run, other.calls, other.draws, longer, n);
        assert(same_answer(calls[2 * n + 1], other.calls[2 * n + 1]));
        assert(Logits::of(logits) == Logits::of(other.logits(n)));
        assert(crate::tensor::tensor_in_memory(logits));
        assert(run.place(logits) is Memory);
        crate::models::laws::the_row_keeps_its_length(
            other.run.selection,
            crate::tensor::tensor_scores(logits),
            longer.take(n),
        );
        assert(seq![other.draws[n]][0] == other.draws[n]);
        assert(run.cannot_continue(calls, drawn, output, logits, e));
        assert(drawn.len() == 1);
        assert(draws[n] == drawn[0]);
        lemma_agrees_with_completed(one, other, n + 1);
        assert(draws[n].answer is Ok && draws[n].answer == other.draws[n].answer);
        let token = choose|token: u32|
            #[trigger] run.fails_to_feed(calls, drawn, output, logits, token, e);
        assert(run.fails_to_feed(calls, drawn, output, logits, token, e));
        assert(token == longer[n]);
        assert(run.eos_token_ids.contains(token) == other.run.eos_token_ids.contains(token));
        if longer.len() == other.run.max_new_tokens && other.run.fed(
            other.calls,
            other.draws,
            longer,
        ) {
            assert(other.run.took_step(other.calls, other.draws, longer, n));
        } else {
            assert(n < longer.len() - 1);
            assert(other.run.took_step(other.calls, other.draws.drop_last(), longer.drop_last(), n));
        }
        if calls.len() > 2 + 2 * n {
            assert(same_answer(calls[2 * (n + 1)], other.calls[2 * (n + 1)]));
        }
        if calls.len() > 3 + 2 * n {
            assert(same_answer(calls[2 * (n + 1) + 1], other.calls[2 * (n + 1) + 1]));
        }
    }
}

/// The limit of a run only cuts its output. A run that is given what a completed run was given, but
/// a smaller limit, completes too, and returns the first tokens of what the other returned.
pub proof fn the_limit_only_cuts(one: Ended, other: Ended)
    requires
        one.happened(),
        other.happened(),
        other.outcome is Ok,
        same_settings(one.run, other.run),
        models_answer_alike(one, other),
        samplers_answer_alike(one.draws, other.draws),
        one.in_memory(),
        one.run.max_new_tokens <= other.run.max_new_tokens,
    ensures
        one.outcome is Ok,
        one.output() == if other.output().len() <= one.run.max_new_tokens {
            other.output()
        } else {
            other.output().take(one.run.max_new_tokens as int)
        },
{
    lemma_completes_too(one, other);
    completed_runs_agree(one, other);
    let output = one.output();
    let longer = other.output();
    crate::models::laws::a_run_stops_at_the_first_end_token(
        one.run,
        one.calls,
        one.draws,
        output,
    );
    crate::models::laws::a_run_stops_at_the_first_end_token(
        other.run,
        other.calls,
        other.draws,
        longer,
    );
    if output.len() < longer.len() {
        let last = output.len() - 1;
        if output.len() < one.run.max_new_tokens {
            assert(output[last] == longer[last]);
            assert(one.run.eos_token_ids.contains(output.last()));
            assert(!other.run.eos_token_ids.contains(longer[last]));
        }
        assert(output =~= longer.take(output.len() as int));
    } else if longer.len() < output.len() {
        let last = longer.len() - 1;
        assert(longer[last] == output[last]);
        assert(other.run.eos_token_ids.contains(longer.last()));
        assert(!one.run.eos_token_ids.contains(output[last]));
    } else {
        assert(output =~= longer);
    }
}

/// Two runs that are given the same, with the same limit, end alike: both complete, with the same
/// output and the same number of requests, or neither does. So a decoder can be used again after any
/// earlier run, how many tokens a step was meant to predict makes no difference, and a run that
/// places tokens at positions agrees with one that counts offsets.
pub proof fn equal_runs_end_alike(one: Ended, other: Ended)
    requires
        one.happened(),
        other.happened(),
        same_settings(one.run, other.run),
        models_answer_alike(one, other),
        samplers_answer_alike(one.draws, other.draws),
        one.in_memory(),
        other.in_memory(),
        one.run.max_new_tokens == other.run.max_new_tokens,
    ensures
        one.outcome is Ok <==> other.outcome is Ok,
        one.outcome is Ok ==> one.output() == other.output(),
        one.outcome is Ok ==> one.calls.len() == other.calls.len(),
{
    if other.outcome is Ok {
        the_limit_only_cuts(one, other);
    }
    if one.outcome is Ok {
        lemma_alike_both_ways(one, other);
        the_limit_only_cuts(other, one);
        crate::models::laws::a_run_makes_one_pass_per_token(
            one.run,
            one.calls,
            one.draws,
            one.output(),
        );
        crate::models::laws::a_run_makes_one_pass_per_token(
            other.run,
            other.calls,
            other.draws,
            other.output(),
        );
        assert(one.output() == other.output());
    }
}

proof fn lemma_alike_both_ways(one: Ended, other: Ended)
    requires
        same_settings(one.run, other.run),
        models_answer_alike(one, other),
        samplers_answer_alike(one.draws, other.draws),
    ensures
        same_settings(other.run, one.run),
        models_answer_alike(other, one),
        samplers_answer_alike(other.draws, one.draws),
{
    assert forall|t: u32|
        #[trigger] other.run.eos_token_ids.contains(t) == one.run.eos_token_ids.contains(t) by {
        assert(one.run.eos_token_ids.contains(t) == other.run.eos_token_ids.contains(t));
    }
    assert forall|i: int, k: int|
        #![trigger same_tokens(other, one, i), same_answer(other.calls[k], one.calls[k])]
        0 <= i && same_tokens(other, one, i) && (k == 2 * i || k == 2 * i + 1) && k
            < other.calls.len() && k < one.calls.len() implies same_answer(
        other.calls[k],
        one.calls[k],
    ) by {
        assert forall|j: int| 0 <= j < i implies (#[trigger] one.draws[j]).answer is Ok
            && one.draws[j].answer == other.draws[j].answer by {
            assert(other.draws[j].answer == one.draws[j].answer);
        }
        assert(same_tokens(one, other, i));
        assert(same_answer(one.calls[k], other.calls[k]));
    }
    assert forall|i: int|
        0 <= i && #[trigger] same_rows(other.draws, one.draws, i + 1) implies same(
        other.draws[i].answer,
        one.draws[i].answer,
    ) by {
        assert forall|j: int| 0 <= j < i + 1 implies (#[trigger] one.draws[j]).scores
            == other.draws[j].scores by {
            assert(other.draws[j].scores == one.draws[j].scores);
        }
        assert(same_rows(one.draws, other.draws, i + 1));
    }
}

/// Greedy samplers answer alike: of two greedy runs in main memory this need not be assumed, whatever
/// their seeds, as long as no row has more scores than a token id can number.
pub proof fn greedy_samplers_answer_alike(one: Ended, other: Ended)
    requires
        one.happened(),
        other.happened(),
        one.run.selection.nucleus is None,
        other.run.selection.nucleus is None,
        one.in_memory(),
        other.in_memory(),
        forall|i: int|
            0 <= i < one.draws.len() ==> (#[trigger] one.draws[i]).scores.len() <= 0x1_0000_0000,
    ensures
        samplers_answer_alike(one.draws, other.draws),
{
    assert forall|i: int|
        0 <= i && #[trigger] same_rows(one.draws, other.draws, i + 1) implies same(
        one.draws[i].answer,
        other.draws[i].answer,
    ) by {
        lemma_draw(one, i);
        lemma_draw(other, i);
        let scores = one.draws[i].scores;
        assert(scores == other.draws[i].scores);
        assert(crate::tensor::tensor_in_memory(one.logits(i)));
        assert(crate::tensor::tensor_in_memory(other.logits(i)));
        if scores.len() > 0 {
            crate::models::laws::one_token_leads(
                scores,
                one.draws[i].answer->Ok_0 as int,
                other.draws[i].answer->Ok_0 as int,
            );
        }
    }
}

}
