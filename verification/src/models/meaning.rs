//! What a selection and a decoding run amount to, told of their inputs and results alone.
//!
//! The statements here name the scores, tokens, tensors and requests themselves. Of the notions that
//! other modules build, a statement uses only those that it says something about.

use vstd::prelude::*;

use candle_core::Tensor;

use crate::error::CandleOcrError;
use crate::float::{F32, F64};
use crate::models::decode::{DecodeConfig, Logits, RepeatPenaltyPolicy, Selection, TokenSelector};
use crate::models::glm_ocr::decoder::DecoderCall;
use crate::models::glm_ocr::mtp::{MtpConfig, Placement, Run};
use crate::sampler::Draw;
use crate::tensor::{ElementType, Place};

verus! {

/// A selector does what its configuration says, field by field. It draws from a nucleus unless the
/// temperature is zero or a negative number.
pub proof fn a_selection_has_the_settings_of_its_configuration(config: DecodeConfig)
    ensures
        ({
            let selection = Selection::of(config);
            let t = config.temperature.bits;
            &&& selection.seed == config.seed
            &&& selection.repeat_penalty == config.repeat_penalty
            &&& selection.repeat_last_n == config.repeat_last_n
            &&& selection.repeat_penalty_policy == config.repeat_penalty_policy
            &&& if t == 0 || 0x8000_0000_0000_0000 <= t <= 0xfff0_0000_0000_0000 {
                selection.nucleus is None
            } else {
                selection.nucleus == Some((config.top_p, config.temperature))
            }
        }),
{
}

/// GLM-OCR's knobs become a shared configuration, field by field.
pub proof fn the_knobs_become_a_configuration(config: MtpConfig, max_new_tokens: usize)
    ensures
        ({
            let shared = config.shared(max_new_tokens);
            &&& shared.max_new_tokens == max_new_tokens
            &&& shared.repeat_penalty == config.repetition_penalty
            &&& shared.repeat_last_n == 0
            &&& shared.repeat_penalty_policy == RepeatPenaltyPolicy::Frequency
            &&& config.sample ==> shared.temperature == config.temperature.widened()
            &&& !config.sample ==> shared.temperature.bits == 0
            &&& shared.top_p == config.top_p.widened()
            &&& shared.seed == 1337
        }),
{
}

/// Two configurations are equal exactly when each of their fields is, as numbers compare.
pub proof fn configurations_are_equal_field_by_field(a: DecodeConfig, b: DecodeConfig)
    ensures
        vstd::std_specs::cmp::PartialEqSpec::eq_spec(&a, &b) <==> {
            &&& a.max_new_tokens == b.max_new_tokens
            &&& a.repeat_penalty.same(b.repeat_penalty)
            &&& a.repeat_last_n == b.repeat_last_n
            &&& a.repeat_penalty_policy == b.repeat_penalty_policy
            &&& a.temperature.same(b.temperature)
            &&& a.top_p.same(b.top_p)
            &&& a.seed == b.seed
        },
{
}

/// Numbers are equal in code exactly when they compare as the same.
pub proof fn equality_is_that_of_the_numbers(a: F32, b: F32, c: F64, d: F64)
    ensures
        vstd::std_specs::cmp::PartialEqSpec::eq_spec(&a, &b) <==> a.same(b),
        vstd::std_specs::cmp::PartialEqSpec::eq_spec(&c, &d) <==> c.same(d),
{
}

/// The window holds exactly the most recent tokens, as many as it is wide or as there are. A window
/// of zero is as wide as the history. So a history that fits is its own window.
pub proof fn the_window_holds_the_most_recent_tokens(history: Seq<u32>, last_n: usize)
    ensures
        ({
            let kept = if last_n == 0 || history.len() < last_n {
                history.len() as int
            } else {
                last_n as int
            };
            crate::models::decode::window(history, last_n) == history.subrange(
                history.len() - kept,
                history.len() as int,
            )
        }),
        last_n == 0 || history.len() <= last_n ==> crate::models::decode::window(history, last_n)
            == history,
{
    assert(history.subrange(0, history.len() as int) =~= history);
}

/// A token is mentioned where the context holds it, and occurs as often as the context holds it.
pub proof fn occurrences_are_counted(context: Seq<u32>, token: u32)
    ensures
        crate::models::decode::mentions(context, token as int) <==> context.contains(token),
        crate::models::decode::occurrences(context, token as int) == context.to_multiset().count(
            token,
        ),
        crate::models::decode::occurrences(context, token as int) > 0 <==> context.contains(token),
{
    crate::models::laws::lemma_occurrences_in_multiset(context, token);
    if context.contains(token) {
        let k = choose|k: int| 0 <= k < context.len() && context[k] == token;
        assert(context[k] == token as int);
        assert(crate::models::decode::mentions(context, token as int));
        crate::models::laws::lemma_mentioned(context, token as int);
    } else {
        assert forall|k: int| 0 <= k < context.len() implies context[k] != token as int by {
            assert(context.contains(context[k]));
        }
        crate::models::laws::lemma_not_mentioned(context, token as int);
    }
}

/// One application of the penalty divides a score that is at least zero and multiplies any other,
/// NaN among them.
pub proof fn one_application_divides_or_multiplies(score: F32, penalty: F32)
    ensures
        crate::models::decode::penalised(score, penalty) == if score.bits <= 0x7f80_0000
            || score.bits == 0x8000_0000 {
            score.quotient(penalty)
        } else {
            score.product(penalty)
        },
{
}

/// No application leaves a score alone, and one more application is one application to what the
/// earlier ones left.
pub proof fn applications_follow_each_other(score: F32, penalty: F32, n: nat)
    ensures
        crate::models::decode::penalised_times(score, penalty, 0) == score,
        ({
            let before = crate::models::decode::penalised_times(score, penalty, n);
            crate::models::decode::penalised_times(score, penalty, n + 1) == if before.bits
                <= 0x7f80_0000 || before.bits == 0x8000_0000 {
                before.quotient(penalty)
            } else {
                before.product(penalty)
            }
        }),
{
}

/// Each policy on its own: the presence form applies the penalty once to every token that the
/// context holds, the frequency form once for each time that the context holds it. Neither touches
/// another score, and neither adds or drops one.
pub proof fn the_policies_lower_what_the_context_holds(
    scores: Seq<F32>,
    penalty: F32,
    context: Seq<u32>,
    token: u32,
)
    ensures
        crate::models::decode::presence_penalised(scores, penalty, context).len() == scores.len(),
        crate::models::decode::frequency_penalised(scores, penalty, context).len() == scores.len(),
        token < scores.len() ==> {
            let score = scores[token as int];
            &&& crate::models::decode::presence_penalised(scores, penalty, context)[token as int]
                == if context.contains(token) {
                crate::models::decode::penalised_times(score, penalty, 1)
            } else {
                score
            }
            &&& crate::models::decode::frequency_penalised(scores, penalty, context)[token as int]
                == crate::models::decode::penalised_times(
                score,
                penalty,
                context.to_multiset().count(token),
            )
        },
{
    occurrences_are_counted(context, token);
    if token < scores.len() {
        let score = scores[token as int];
        assert(crate::models::decode::penalised_times(score, penalty, 0) == score);
        assert(crate::models::decode::penalised_times(score, penalty, 1)
            == crate::models::decode::penalised(score, penalty));
    }
}

/// The scores that a choice is made from. A penalty of one, and an empty history, leave all of them
/// alone. Otherwise the configured penalty is applied to the score of a token that is among the most
/// recent ones: once under the presence policy, and once for every time it is there under the
/// frequency policy. This does not depend on how many scores there are.
pub proof fn a_choice_is_made_from_penalised_scores(
    selection: Selection,
    scores: Seq<F32>,
    history: Seq<u32>,
    token: u32,
)
    ensures
        ({
            let row = selection.penalised_scores(scores, history);
            let penalty = selection.repeat_penalty;
            let kept = if selection.repeat_last_n == 0 || history.len() < selection.repeat_last_n {
                history.len() as int
            } else {
                selection.repeat_last_n as int
            };
            let recent = history.subrange(history.len() - kept, history.len() as int);
            &&& row.len() == scores.len()
            &&& penalty.bits == 0x3f80_0000 || history.len() == 0 ==> row == scores
            &&& penalty.bits != 0x3f80_0000 && history.len() > 0 && token < scores.len() ==> {
                let score = scores[token as int];
                row[token as int] == match selection.repeat_penalty_policy {
                    RepeatPenaltyPolicy::Presence => if recent.contains(token) {
                        crate::models::decode::penalised_times(score, penalty, 1)
                    } else {
                        score
                    },
                    RepeatPenaltyPolicy::Frequency => crate::models::decode::penalised_times(
                        score,
                        penalty,
                        recent.to_multiset().count(token),
                    ),
                }
            }
        }),
{
    the_window_holds_the_most_recent_tokens(history, selection.repeat_last_n);
    the_policies_lower_what_the_context_holds(
        scores,
        selection.repeat_penalty,
        crate::models::decode::window(history, selection.repeat_last_n),
        token,
    );
}

/// Scores beyond every token id are never penalised.
pub proof fn a_score_beyond_every_token_id_is_left_alone(
    selection: Selection,
    scores: Seq<F32>,
    history: Seq<u32>,
    i: int,
)
    requires
        u32::MAX < i < scores.len(),
    ensures
        selection.penalised_scores(scores, history)[i] == scores[i],
{
    let context = crate::models::decode::window(history, selection.repeat_last_n);
    crate::models::laws::lemma_beyond_every_token(context, i);
}

/// A selector made from a presence configuration asks only which tokens are among the most recent
/// ones: two histories that agree on that are penalised alike, however often a token repeats.
pub proof fn a_presence_configuration_asks_only_which_tokens(
    config: DecodeConfig,
    scores: Seq<F32>,
    history: Seq<u32>,
    other: Seq<u32>,
    recent: Seq<u32>,
    other_recent: Seq<u32>,
)
    requires
        config.repeat_penalty_policy == RepeatPenaltyPolicy::Presence,
        recent.is_suffix_of(history),
        recent.len() == if config.repeat_last_n == 0 || history.len() < config.repeat_last_n {
            history.len()
        } else {
            config.repeat_last_n as nat
        },
        other_recent.is_suffix_of(other),
        other_recent.len() == if config.repeat_last_n == 0 || other.len() < config.repeat_last_n {
            other.len()
        } else {
            config.repeat_last_n as nat
        },
        forall|t: u32| #[trigger] recent.contains(t) == other_recent.contains(t),
    ensures
        Selection::of(config).penalised_scores(scores, history) == Selection::of(
            config,
        ).penalised_scores(scores, other),
{
    let selection = Selection::of(config);
    let a = crate::models::decode::window(history, selection.repeat_last_n);
    let b = crate::models::decode::window(other, selection.repeat_last_n);
    the_window_holds_the_most_recent_tokens(history, config.repeat_last_n);
    the_window_holds_the_most_recent_tokens(other, config.repeat_last_n);
    assert(a =~= recent);
    assert(b =~= other_recent);
    let left = selection.penalised_scores(scores, history);
    let right = selection.penalised_scores(scores, other);
    assert forall|i: int| 0 <= i < scores.len() implies left[i] == right[i] by {
        if i <= u32::MAX {
            assert(a.contains(i as u32) == b.contains(i as u32));
            occurrences_are_counted(a, i as u32);
            occurrences_are_counted(b, i as u32);
            a_choice_is_made_from_penalised_scores(selection, scores, history, i as u32);
            a_choice_is_made_from_penalised_scores(selection, scores, other, i as u32);
            if history.len() == 0 && other.len() > 0 {
                assert(b.len() > 0);
                assert(b.contains(b[0]));
                assert(a.contains(b[0]));
            }
            if other.len() == 0 && history.len() > 0 {
                assert(a.len() > 0);
                assert(a.contains(a[0]));
            }
        } else {
            a_score_beyond_every_token_id_is_left_alone(selection, scores, history, i);
            a_score_beyond_every_token_id_is_left_alone(selection, scores, other, i);
        }
    }
    assert(left =~= right);
}

/// The token that leads has the highest value of all that are numbers, and is the first that has
/// it. Only where the row starts with NaN is the first token taken whatever it holds.
pub proof fn the_leader_has_the_highest_value(scores: Seq<F32>, t: int)
    ensures
        crate::models::decode::leads(scores, t) <==> {
            &&& 0 <= t < scores.len()
            &&& scores[0].bits as int % 0x8000_0000 > 0x7f80_0000 ==> t == 0
            &&& scores[0].bits as int % 0x8000_0000 <= 0x7f80_0000 ==> {
                &&& scores[t].bits as int % 0x8000_0000 <= 0x7f80_0000
                &&& forall|j: int|
                    0 <= j < scores.len() && (#[trigger] scores[j]).bits as int % 0x8000_0000
                        <= 0x7f80_0000 ==> scores[j].value() <= scores[t].value() && (j < t
                        ==> scores[j].value() < scores[t].value())
            }
        },
{
    assert forall|j: int| 0 <= j < scores.len() && 0 <= t < scores.len() && !scores[t].nan() && !(
    #[trigger] scores[j]).nan() implies (scores[t].less(scores[j]) <==> scores[t].value()
        < scores[j].value()) && (scores[j].less(scores[t]) <==> scores[j].value()
        < scores[t].value()) by {
        crate::float::binary32::the_order_is_that_of_the_values(scores[t], scores[j]);
        crate::float::binary32::the_order_is_that_of_the_values(scores[j], scores[t]);
    }
    assert forall|j: int| 0 <= j < scores.len() implies ((#[trigger] scores[j]).nan() <==> scores[j].bits as int
        % 0x8000_0000 > 0x7f80_0000) by {
        crate::float::laws::the_bits_are_sign_exponent_and_fraction(scores[j]);
    }
    if crate::models::decode::leads(scores, t) && !scores[0].nan() {
        assert forall|j: int|
            0 <= j < scores.len() && (#[trigger] scores[j]).bits as int % 0x8000_0000
                <= 0x7f80_0000 implies scores[j].value() <= scores[t].value() && (j < t
            ==> scores[j].value() < scores[t].value()) by {
            assert(!scores[t].less(scores[j]));
            if j < t {
                assert(!scores[j].nan());
                assert(scores[j].less(scores[t]));
            }
        }
    }
    if 0 <= t < scores.len() && !scores[0].nan() && !crate::models::decode::leads(scores, t) {
        if !scores[t].nan() {
            if exists|j: int| 0 <= j < scores.len() && scores[t].less(#[trigger] scores[j]) {
                let j = choose|j: int|
                    0 <= j < scores.len() && scores[t].less(#[trigger] scores[j]);
                assert(scores[j].value() > scores[t].value());
            } else {
                let j = choose|j: int|
                    0 <= j < t && !(#[trigger] scores[j]).nan() && !scores[j].less(scores[t]);
                assert(scores[j].value() >= scores[t].value());
            }
        }
    }
}

/// What a tensor of logits is to a step.
pub proof fn logits_are_what_the_tensor_holds(t: Tensor)
    ensures
        Logits::of(t).dims == crate::tensor::tensor_dims(t),
        Logits::of(t).scores == crate::tensor::tensor_scores(t),
        Logits::of(t).element_type == crate::tensor::tensor_element_type(t),
        Logits::of(t).place == crate::tensor::tensor_place(t),
        crate::tensor::tensor_in_memory(t) <==> crate::tensor::tensor_place(t) is Memory
            && crate::tensor::tensor_element_type(t) !is Packed,
        crate::tensor::only_stored(t) <==> crate::tensor::tensor_place(t) is Memory
            && crate::tensor::tensor_element_type(t) is Packed,
        Logits::of(t).in_memory() <==> crate::tensor::tensor_in_memory(t),
        Logits::of(t).only_stored() <==> crate::tensor::only_stored(t),
{
}

/// Logits are for one position exactly when there is a size, and every size before the last is one.
pub proof fn one_position_has_sizes_of_one_before_the_last(dims: Seq<usize>)
    ensures
        crate::models::decode::one_position(dims) <==> dims.len() > 0 && forall|i: int|
            0 <= i < dims.len() - 1 ==> dims[i] == 1,
{
}

/// A penalty applies exactly when it is not 1.0 and something was generated.
pub proof fn a_penalty_applies_unless_it_is_one(selection: Selection, history: Seq<u32>)
    ensures
        selection.penalises(history) <==> selection.repeat_penalty.bits != 0x3f80_0000
            && history.len() > 0,
{
}

/// Tensors that hold the same elements agree in everything but their sizes.
pub proof fn same_elements_agree_in_all_but_sizes(a: Tensor, b: Tensor)
    ensures
        crate::tensor::same_elements(a, b) <==> {
            &&& crate::tensor::tensor_scores(a) == crate::tensor::tensor_scores(b)
            &&& crate::tensor::tensor_integers(a) == crate::tensor::tensor_integers(b)
            &&& crate::tensor::tensor_element_type(a) == crate::tensor::tensor_element_type(b)
            &&& crate::tensor::tensor_place(a) == crate::tensor::tensor_place(b)
        },
{
}

/// Sizes multiply one by one.
pub proof fn sizes_multiply(dims: Seq<usize>, size: usize)
    ensures
        crate::tensor::product(Seq::empty()) == 1,
        crate::tensor::product(dims.push(size)) == crate::tensor::product(dims) * size,
{
    assert(dims.push(size).drop_last() =~= dims);
}

/// A text that reports a cause is the name of the step, followed by what the cause writes of
/// itself and by nothing else.
pub proof fn a_report_is_the_step_and_its_cause(
    e: CandleOcrError,
    step: Seq<char>,
    cause: candle_core::Error,
)
    ensures
        e.reports(step, cause) <==> e is InferenceFailed && exists|written: String|
            #[trigger] vstd::string::to_string_from_display_ensures(&cause, written)
                && e->InferenceFailed_0@ == step + written@,
        e.failed_at(step) <==> exists|c: candle_core::Error| #[trigger] e.reports(step, c),
{
    if e is InferenceFailed && exists|written: String|
        #[trigger] vstd::string::to_string_from_display_ensures(&cause, written)
            && e->InferenceFailed_0@ == step + written@ {
        let written = choose|written: String|
            #[trigger] vstd::string::to_string_from_display_ensures(&cause, written)
                && e->InferenceFailed_0@ == step + written@;
        assert(e.says(step + written@));
    }
}

/// A rejection carries the expected shape and the one that came.
pub proof fn a_rejection_carries_both_shapes(
    e: CandleOcrError,
    expected: Seq<char>,
    got: Seq<char>,
)
    ensures
        e.rejects_shape(expected, got) <==> e is InvalidTensorShape && e->expected@ == expected
            && e->got@ == got,
{
}

/// An error of candle that no step names is carried as it is.
pub proof fn an_error_of_candle_is_carried(e: candle_core::Error)
    ensures
        <CandleOcrError as vstd::std_specs::convert::FromSpec<candle_core::Error>>::from_spec(e)
            == CandleOcrError::Candle(e),
{
}

/// Numbers are written in decimal digits: one digit below ten, and otherwise the digits of the
/// tenth part and the last digit.
pub proof fn numbers_are_written_in_decimal(n: nat)
    ensures
        n < 10 ==> crate::error::decimal(n) == seq![(48 + n) as char],
        n >= 10 ==> crate::error::decimal(n) == crate::error::decimal(n / 10)
            + crate::error::decimal(n % 10),
{
    if n >= 10 {
        assert(crate::error::decimal(n % 10) == seq![crate::error::digit((n % 10) as int)]);
        assert(crate::error::decimal(n) =~= crate::error::decimal(n / 10) + crate::error::decimal(
            n % 10,
        ));
    }
}

/// Sizes are written in brackets, with a comma and a space between each two.
pub proof fn sizes_are_written_as_a_list(sizes: Seq<usize>, size: usize)
    ensures
        crate::error::bracketed(Seq::empty()) == seq!['[', ']'],
        crate::error::bracketed(seq![size]) == seq!['['] + crate::error::decimal(size as nat)
            + seq![']'],
        sizes.len() > 0 ==> crate::error::bracketed(sizes.push(size)) == crate::error::bracketed(
            sizes,
        ).drop_last() + seq![',', ' '] + crate::error::decimal(size as nat) + seq![']'],
{
    assert(crate::error::bracketed(Seq::empty()) =~= seq!['[', ']']);
    assert(seq![size][0] == size);
    if sizes.len() > 0 {
        assert(sizes.push(size).drop_last() =~= sizes);
        assert(crate::error::bracketed(sizes).drop_last() =~= seq!['[']
            + crate::error::comma_separated(sizes));
        assert(crate::error::bracketed(sizes.push(size)) =~= crate::error::bracketed(
            sizes,
        ).drop_last() + seq![',', ' '] + crate::error::decimal(size as nat) + seq![']']);
    }
}

/// What a step returns and what it asks of the sampler, outcome by outcome.
///
/// Logits are rejected exactly when a size before the last is not one, or there is no size. A token
/// comes from one draw from the penalised scores. A failure is that of the draw, with its cause, or
/// comes before it: outside main memory, in a packed format, or where a nucleus has no scores.
pub proof fn a_step_returns_what_one_draw_answers(
    selection: Selection,
    logits: Logits,
    history: Seq<u32>,
    drawn: Seq<Draw>,
    outcome: Result<u32, CandleOcrError>,
)
    requires
        crate::models::decode::steps(selection, logits, history, drawn, outcome),
    ensures
        ({
            let rejected = logits.dims.len() == 0 || exists|i: int|
                0 <= i < logits.dims.len() - 1 && logits.dims[i] != 1;
            let readable = logits.place is Memory && logits.element_type !is Packed;
            let row = selection.penalised_scores(logits.scores, history);
            &&& rejected ==> {
                &&& drawn.len() == 0
                &&& outcome is Err
                &&& outcome->Err_0 is InvalidTensorShape
                &&& outcome->Err_0->expected@
                    == "scores for one position, such as (vocab) or (1, 1, vocab)"@
                &&& outcome->Err_0->got@ == crate::error::bracketed(logits.dims)
            }
            &&& outcome is Ok ==> {
                &&& !rejected
                &&& drawn == seq![Draw { scores: row, answer: Ok(outcome->Ok_0) }]
                &&& selection.nucleus is Some ==> outcome->Ok_0 < logits.scores.len()
                &&& !(logits.place is Memory && logits.element_type is Packed)
            }
            &&& !rejected && drawn.len() > 0 ==> {
                &&& drawn.len() == 1
                &&& drawn[0].scores == row
                &&& drawn[0].answer is Err ==> outcome is Err && outcome->Err_0.reports(
                    "Sampling: "@,
                    drawn[0].answer->Err_0,
                )
                &&& drawn[0].answer is Ok ==> outcome is Ok && outcome->Ok_0
                    == drawn[0].answer->Ok_0
            }
            &&& !rejected && readable && (selection.nucleus is None || logits.scores.len() > 0
                || logits.dims.last() > 0) ==> drawn.len() == 1
            &&& !rejected && drawn.len() == 0 ==> outcome is Err && {
                ||| !readable && outcome->Err_0.failed_at("Flatten logits: "@)
                ||| !readable && history.len() > 0 && selection.repeat_penalty.bits != 0x3f80_0000
                    && outcome->Err_0.failed_at("Repetition penalty: "@)
                ||| {
                    &&& selection.nucleus is Some
                    &&& logits.scores.len() == 0
                    &&& outcome->Err_0 is InferenceFailed
                    &&& outcome->Err_0->InferenceFailed_0@ == "Sampling: no scores to choose from"@
                }
            }
        }),
{
    crate::models::laws::the_row_keeps_its_length(selection, logits.scores, history);
    if outcome is Ok {
        assert(drawn =~= seq![
            Draw {
                scores: selection.penalised_scores(logits.scores, history),
                answer: Ok(outcome->Ok_0),
            },
        ]);
    }
}

/// A greedy step on readable scores returns the token with the highest penalised value, the first of
/// them, and fails only where there is no score.
pub proof fn a_greedy_step_returns_the_highest_value(
    selection: Selection,
    logits: Logits,
    history: Seq<u32>,
    drawn: Seq<Draw>,
    outcome: Result<u32, CandleOcrError>,
)
    requires
        crate::models::decode::steps(selection, logits, history, drawn, outcome),
        selection.nucleus is None,
        logits.dims.len() > 0,
        forall|i: int| 0 <= i < logits.dims.len() - 1 ==> logits.dims[i] == 1,
        logits.place is Memory,
        logits.element_type !is Packed,
        logits.scores.len() <= 0x1_0000_0000,
    ensures
        outcome is Ok <==> logits.scores.len() > 0,
        outcome is Ok ==> {
            let row = selection.penalised_scores(logits.scores, history);
            let t = outcome->Ok_0 as int;
            &&& 0 <= t < row.len()
            &&& row[0].bits as int % 0x8000_0000 > 0x7f80_0000 ==> t == 0
            &&& row[0].bits as int % 0x8000_0000 <= 0x7f80_0000 ==> {
                &&& row[t].bits as int % 0x8000_0000 <= 0x7f80_0000
                &&& forall|j: int|
                    0 <= j < row.len() && (#[trigger] row[j]).bits as int % 0x8000_0000
                        <= 0x7f80_0000 ==> row[j].value() <= row[t].value() && (j < t
                        ==> row[j].value() < row[t].value())
            }
        },
{
    let row = selection.penalised_scores(logits.scores, history);
    crate::models::laws::the_row_keeps_its_length(selection, logits.scores, history);
    if outcome is Ok {
        the_leader_has_the_highest_value(row, outcome->Ok_0 as int);
    }
}

/// The greedy outcome of a step, told apart from its draws.
pub proof fn a_greedy_outcome_is_the_highest_value(
    selection: Selection,
    scores: Seq<F32>,
    history: Seq<u32>,
    outcome: Result<u32, CandleOcrError>,
)
    ensures
        selection.greedy_outcome(scores, history, outcome) <==> match outcome {
            Ok(t) => crate::models::decode::leads(
                selection.penalised_scores(scores, history),
                t as int,
            ),
            Err(e) => scores.len() == 0 && e.failed_at("Sampling: "@),
        },
{
}

/// A token is only ever chosen from logits for one position, and never from a packed format in main
/// memory. From a nucleus it is one of the vocabulary. A greedy choice from readable scores has the
/// highest value of the row, penalised with the tokens before.
pub proof fn a_token_is_chosen_from_one_position(
    selection: Selection,
    logits: Tensor,
    history: Seq<u32>,
    drawn: Seq<Draw>,
    token: u32,
)
    requires
        crate::models::glm_ocr::mtp::chooses(selection, logits, history, drawn, Ok(token)),
    ensures
        ({
            let dims = crate::tensor::tensor_dims(logits);
            let scores = crate::tensor::tensor_scores(logits);
            let row = selection.penalised_scores(scores, history);
            &&& dims.len() > 0
            &&& forall|i: int| 0 <= i < dims.len() - 1 ==> dims[i] == 1
            &&& !(dims.len() == 1 && dims[0] == 1)
            &&& drawn.len() == 1
            &&& drawn[0].scores == row
            &&& drawn[0].answer == Ok::<u32, candle_core::Error>(token)
            &&& crate::tensor::tensor_place(logits) is Memory
                ==> crate::tensor::tensor_element_type(logits) !is Packed
            &&& selection.nucleus is Some ==> token < scores.len()
            &&& selection.nucleus is None && crate::tensor::tensor_place(logits) is Memory
                && scores.len() <= 0x1_0000_0000 ==> {
                &&& token < row.len()
                &&& row[0].bits as int % 0x8000_0000 > 0x7f80_0000 ==> token == 0
                &&& row[0].bits as int % 0x8000_0000 <= 0x7f80_0000 ==> forall|j: int|
                    0 <= j < row.len() && (#[trigger] row[j]).bits as int % 0x8000_0000
                        <= 0x7f80_0000 ==> row[j].value() <= row[token as int].value() && (j
                        < token ==> row[j].value() < row[token as int].value())
            }
        }),
{
    let dims = crate::tensor::tensor_dims(logits);
    a_pass_is_read_without_its_batch(selection, logits, history, drawn, Ok(token));
    let rest = if dims[0] == 1 {
        dims.subrange(1, dims.len() as int)
    } else {
        dims
    };
    let read = Logits {
        dims: rest,
        scores: crate::tensor::tensor_scores(logits),
        element_type: crate::tensor::tensor_element_type(logits),
        place: crate::tensor::tensor_place(logits),
    };
    a_step_returns_what_one_draw_answers(selection, read, history, drawn, Ok(token));
    assert forall|i: int| 0 <= i < dims.len() - 1 implies dims[i] == 1 by {
        if dims[0] == 1 {
            if i > 0 {
                assert(rest[i - 1] == dims[i]);
                assert(rest[i - 1] == 1);
            }
        } else {
            assert(rest[i] == 1);
        }
    }
    assert forall|i: int| 0 <= i < rest.len() - 1 implies rest[i] == 1 by {}
    if selection.nucleus is None && read.place is Memory && read.scores.len() <= 0x1_0000_0000 {
        a_greedy_step_returns_the_highest_value(selection, read, history, drawn, Ok(token));
    }
}

/// A pass is read without its batch dimension: logits without any dimension cannot be squeezed, a
/// first size of one is dropped, and the rest is one step of the selector.
pub proof fn a_pass_is_read_without_its_batch(
    selection: Selection,
    logits: Tensor,
    history: Seq<u32>,
    drawn: Seq<Draw>,
    outcome: Result<u32, CandleOcrError>,
)
    requires
        crate::models::glm_ocr::mtp::chooses(selection, logits, history, drawn, outcome),
    ensures
        ({
            let dims = crate::tensor::tensor_dims(logits);
            &&& dims.len() == 0 ==> {
                &&& drawn.len() == 0
                &&& outcome is Err
                &&& outcome->Err_0.failed_at("Squeeze batch: "@)
            }
            &&& dims.len() > 0 ==> crate::models::decode::steps(
                selection,
                Logits {
                    dims: if dims[0] == 1 {
                        dims.subrange(1, dims.len() as int)
                    } else {
                        dims
                    },
                    scores: crate::tensor::tensor_scores(logits),
                    element_type: crate::tensor::tensor_element_type(logits),
                    place: crate::tensor::tensor_place(logits),
                },
                history,
                drawn,
                outcome,
            )
        }),
{
    let dims = crate::tensor::tensor_dims(logits);
    if dims.len() > 0 {
        assert(dims.drop_first() =~= dims.subrange(1, dims.len() as int));
    }
}

/// A run that makes its own selector ends as a run does whose selector has these settings and has
/// drawn nothing before.
pub proof fn one_selector_with_the_settings_of_the_run_chose_every_token(
    run: Run,
    calls: Seq<DecoderCall>,
    outcome: Result<Vec<u32>, CandleOcrError>,
)
    ensures
        run.concludes_alone(calls, outcome) <==> exists|selector: TokenSelector|
            #![trigger selector.draws()]
            selector@ == run.selection && run.concludes(calls, selector.draws(), outcome),
{
    if exists|selector: TokenSelector|
        #![trigger selector.draws()]
        selector@ == run.selection && run.concludes(calls, selector.draws(), outcome) {
        let selector = choose|selector: TokenSelector|
            #![trigger selector.draws()]
            selector@ == run.selection && run.concludes(calls, selector.draws(), outcome);
        assert(run.selected_by(selector, calls, outcome));
    }
}

/// The output of a completed run is what its sampler answered, one token for each draw. It is not
/// longer than the limit, it holds no end token before its last, and it is shorter than the limit
/// only where its last token is one.
pub proof fn a_completed_run_returns_its_draws_up_to_an_end_token(
    run: Run,
    calls: Seq<DecoderCall>,
    draws: Seq<Draw>,
    outcome: Result<Vec<u32>, CandleOcrError>,
)
    requires
        run.concludes(calls, draws, outcome),
        outcome is Ok,
    ensures
        ({
            let output = outcome->Ok_0@;
            &&& draws.len() == output.len()
            &&& forall|i: int|
                0 <= i < output.len() ==> (#[trigger] draws[i]).answer == Ok::<
                    u32,
                    candle_core::Error,
                >(output[i])
            &&& output.len() <= run.max_new_tokens
            &&& forall|i: int|
                0 <= i < output.len() - 1 ==> !run.eos_token_ids.contains(#[trigger] output[i])
            &&& output.len() < run.max_new_tokens ==> output.len() > 0
                && run.eos_token_ids.contains(output.last())
            &&& calls.len() == 2 + 2 * (if output.len() > 0 && run.eos_token_ids.contains(
                output.last(),
            ) {
                output.len() - 1
            } else {
                output.len() as int
            })
        }),
{
    let output = outcome->Ok_0@;
    crate::models::laws::a_run_returns_what_its_sampler_drew(run, calls, draws, output);
    crate::models::laws::a_run_stops_at_the_first_end_token(run, calls, draws, output);
    crate::models::laws::a_run_makes_one_pass_per_token(run, calls, draws, output);
}

/// A completed run with positions, request by request. It clears the cache and feeds the prefix at
/// the given positions. Draw `i` is made from the scores of pass `i`, penalised with the tokens
/// before it. Token `i` is embedded as one 64-bit id, and its embedding is fed at three positions,
/// one for each axis and each of them `start + i`, as long as that fits.
pub proof fn a_run_with_positions_feeds_every_token_at_its_position(
    run: Run,
    calls: Seq<DecoderCall>,
    draws: Seq<Draw>,
    outcome: Result<Vec<u32>, CandleOcrError>,
    i: int,
)
    requires
        run.concludes(calls, draws, outcome),
        outcome is Ok,
        run.placement is Positions,
        0 <= i,
    ensures
        calls[0] == DecoderCall::ClearCache,
        calls[1] is Forward,
        calls[1]->Forward_embeds == run.input_embeds,
        calls[1]->Forward_positions == run.placement->prefill,
        calls[1]->Forward_answer is Ok,
        i < draws.len() ==> {
            &&& calls[1 + 2 * i] is Forward
            &&& calls[1 + 2 * i]->Forward_answer is Ok
            &&& draws[i].scores == run.selection.penalised_scores(
                crate::tensor::tensor_scores(calls[1 + 2 * i]->Forward_answer->Ok_0),
                outcome->Ok_0@.take(i),
            )
            &&& crate::models::glm_ocr::mtp::chooses(
                run.selection,
                calls[1 + 2 * i]->Forward_answer->Ok_0,
                outcome->Ok_0@.take(i),
                seq![draws[i]],
                Ok(outcome->Ok_0@[i]),
            )
        },
        3 + 2 * i < calls.len() ==> {
            let tokens = calls[2 + 2 * i]->Embed_tokens;
            let positions = calls[3 + 2 * i]->Forward_positions;
            &&& calls[2 + 2 * i] is Embed
            &&& calls[2 + 2 * i]->Embed_answer is Ok
            &&& crate::tensor::tensor_dims(tokens) == seq![1usize, 1usize]
            &&& crate::tensor::tensor_integers(tokens).len() == 1
            &&& crate::tensor::tensor_integers(tokens)[0] == outcome->Ok_0@[i]
            &&& crate::tensor::tensor_element_type(tokens) is I64
            &&& crate::tensor::tensor_place(tokens) == crate::tensor::tensor_place(
                run.input_embeds,
            )
            &&& calls[3 + 2 * i] is Forward
            &&& calls[3 + 2 * i]->Forward_embeds == calls[2 + 2 * i]->Embed_answer->Ok_0
            &&& calls[3 + 2 * i]->Forward_answer is Ok
            &&& crate::tensor::tensor_dims(positions) == seq![3usize, 1usize, 1usize]
            &&& crate::tensor::tensor_integers(positions).len() == 3
            &&& run.placement->start + i <= u32::MAX ==> forall|axis: int|
                0 <= axis < 3 ==> #[trigger] crate::tensor::tensor_integers(positions)[axis]
                    == run.placement->start + i
            &&& run.placement->start + i > u32::MAX ==> forall|axis: int|
                0 <= axis < 3 ==> #[trigger] crate::tensor::tensor_integers(positions)[axis] == (
                run.placement->start + i) % 0x1_0000_0000
            &&& crate::tensor::tensor_element_type(positions) is U32
            &&& crate::tensor::tensor_place(positions) == crate::tensor::tensor_place(
                run.input_embeds,
            )
        },
{
    let output = outcome->Ok_0@;
    crate::models::laws::a_run_returns_what_its_sampler_drew(run, calls, draws, output);
    if i < draws.len() {
        crate::models::laws::lemma_chosen(run, calls, draws, output, i);
        if i > 0 {
            crate::models::laws::a_run_makes_one_pass_per_token(run, calls, draws, output);
            crate::models::laws::a_run_feeds_every_token_in_its_place(
                run,
                calls,
                draws,
                output,
                i - 1,
            );
            assert(3 + 2 * (i - 1) == 1 + 2 * i);
        }
    }
    if 3 + 2 * i < calls.len() {
        crate::models::laws::a_run_feeds_every_token_in_its_place(run, calls, draws, output, i);
        lemma_passes_are_answered(run, calls, draws, output, i);
    }
}

/// A completed run with offsets, request by request. It clears the cache and feeds the prefix at
/// offset zero. Draw `i` is made from the scores of pass `i`, penalised with the tokens before it.
/// Token `i` is embedded as one 64-bit id, and its embedding is fed at offset `prefix_len + i`, as
/// long as that fits.
pub proof fn a_run_with_offsets_feeds_every_token_at_its_offset(
    run: Run,
    calls: Seq<DecoderCall>,
    draws: Seq<Draw>,
    outcome: Result<Vec<u32>, CandleOcrError>,
    i: int,
)
    requires
        run.concludes(calls, draws, outcome),
        outcome is Ok,
        run.placement is Offset,
        0 <= i,
    ensures
        calls[0] == DecoderCall::ClearCache,
        calls[1] is ForwardAt,
        calls[1]->ForwardAt_embeds == run.input_embeds,
        calls[1]->offset == 0,
        calls[1]->ForwardAt_answer is Ok,
        i < draws.len() ==> {
            &&& calls[1 + 2 * i] is ForwardAt
            &&& calls[1 + 2 * i]->ForwardAt_answer is Ok
            &&& draws[i].scores == run.selection.penalised_scores(
                crate::tensor::tensor_scores(calls[1 + 2 * i]->ForwardAt_answer->Ok_0),
                outcome->Ok_0@.take(i),
            )
            &&& crate::models::glm_ocr::mtp::chooses(
                run.selection,
                calls[1 + 2 * i]->ForwardAt_answer->Ok_0,
                outcome->Ok_0@.take(i),
                seq![draws[i]],
                Ok(outcome->Ok_0@[i]),
            )
        },
        3 + 2 * i < calls.len() ==> {
            let tokens = calls[2 + 2 * i]->Embed_tokens;
            &&& calls[2 + 2 * i] is Embed
            &&& calls[2 + 2 * i]->Embed_answer is Ok
            &&& crate::tensor::tensor_dims(tokens) == seq![1usize, 1usize]
            &&& crate::tensor::tensor_integers(tokens).len() == 1
            &&& crate::tensor::tensor_integers(tokens)[0] == outcome->Ok_0@[i]
            &&& crate::tensor::tensor_element_type(tokens) is I64
            &&& crate::tensor::tensor_place(tokens) == crate::tensor::tensor_place(
                calls[1 + 2 * i]->ForwardAt_answer->Ok_0,
            )
            &&& calls[3 + 2 * i] is ForwardAt
            &&& calls[3 + 2 * i]->ForwardAt_embeds == calls[2 + 2 * i]->Embed_answer->Ok_0
            &&& calls[3 + 2 * i]->ForwardAt_answer is Ok
            &&& run.placement->prefix_len + i <= usize::MAX ==> calls[3 + 2 * i]->offset
                == run.placement->prefix_len + i
            &&& run.placement->prefix_len + i > usize::MAX ==> calls[3 + 2 * i]->offset
                == run.placement->prefix_len + i - usize::MAX - 1
        },
{
    let output = outcome->Ok_0@;
    crate::models::laws::a_run_returns_what_its_sampler_drew(run, calls, draws, output);
    crate::models::laws::a_run_makes_one_pass_per_token(run, calls, draws, output);
    if i > 0 && 1 + 2 * i < calls.len() {
        crate::models::laws::a_run_feeds_every_token_in_its_place(
            run,
            calls,
            draws,
            output,
            i - 1,
        );
        assert(3 + 2 * (i - 1) == 1 + 2 * i);
    }
    if i < draws.len() {
        crate::models::laws::lemma_chosen(run, calls, draws, output, i);
    }
    if 3 + 2 * i < calls.len() {
        crate::models::laws::a_run_feeds_every_token_in_its_place(run, calls, draws, output, i);
        lemma_passes_are_answered(run, calls, draws, output, i);
    }
}

proof fn lemma_passes_are_answered(
    run: Run,
    calls: Seq<DecoderCall>,
    draws: Seq<Draw>,
    output: Seq<u32>,
    i: int,
)
    requires
        run.completes(calls, draws, output),
        0 <= i,
        3 + 2 * i < calls.len(),
    ensures
        crate::models::glm_ocr::mtp::answered(calls[3 + 2 * i]) is Some,
        i < draws.len(),
{
    if output.len() == run.max_new_tokens && run.fed(calls, draws, output) {
        assert(run.took_step(calls, draws, output, i));
    } else {
        assert(run.took_step(calls, draws.drop_last(), output.drop_last(), i));
    }
}

/// A run that fails, told by its requests and draws. `n` tokens were chosen and fed, each the answer
/// to one draw and none an end token; behind them
///
/// - the prefix was refused, before anything was drawn; or
/// - no token could be chosen from the last logits; or
/// - token `n` was chosen, is no end token, and could not be fed: its tensors could not be made
///   outside main memory, or the model refused its embedding or its pass.
///
/// A refusal is reported with the model's error.
pub proof fn a_failed_run_stopped_at_one_step(
    run: Run,
    calls: Seq<DecoderCall>,
    draws: Seq<Draw>,
    outcome: Result<Vec<u32>, CandleOcrError>,
) -> (n: int)
    requires
        run.concludes(calls, draws, outcome),
        outcome is Err,
    ensures
        calls.len() >= 2,
        calls[0] == DecoderCall::ClearCache,
        n == -1 ==> {
            &&& calls.len() == 2
            &&& draws.len() == 0
            &&& match run.placement {
                Placement::Positions { prefill, .. } => calls[1] is Forward
                    && calls[1]->Forward_embeds == run.input_embeds && calls[1]->Forward_positions
                    == prefill && calls[1]->Forward_answer is Err && outcome->Err_0.reports(
                    "Prefill forward: "@,
                    calls[1]->Forward_answer->Err_0,
                ),
                Placement::Offset { .. } => calls[1] is ForwardAt && calls[1]->ForwardAt_embeds
                    == run.input_embeds && calls[1]->offset == 0 && calls[1]->ForwardAt_answer is Err
                    && outcome->Err_0.reports(
                    "Prefill forward: "@,
                    calls[1]->ForwardAt_answer->Err_0,
                ),
            }
        },
        n != -1 ==> {
            &&& 0 <= n < run.max_new_tokens
            &&& 2 + 2 * n <= calls.len() <= 4 + 2 * n
            &&& n <= draws.len() <= n + 1
            &&& forall|j: int|
                0 <= j < n ==> (#[trigger] draws[j]).answer is Ok && !run.eos_token_ids.contains(
                    draws[j].answer->Ok_0,
                )
            &&& calls.len() > 2 + 2 * n ==> {
                let tokens = calls[2 + 2 * n]->Embed_tokens;
                &&& draws.len() == n + 1
                &&& draws[n].answer is Ok
                &&& !run.eos_token_ids.contains(draws[n].answer->Ok_0)
                &&& calls[2 + 2 * n] is Embed
                &&& crate::tensor::tensor_dims(tokens) == seq![1usize, 1usize]
                &&& crate::tensor::tensor_integers(tokens).len() == 1
                &&& crate::tensor::tensor_integers(tokens)[0] == draws[n].answer->Ok_0
                &&& crate::tensor::tensor_element_type(tokens) is I64
            }
            &&& calls.len() == 2 + 2 * n && !(draws.len() == n + 1 && draws[n].answer is Ok)
                ==> crate::models::glm_ocr::mtp::chooses(
                run.selection,
                match run.placement {
                    Placement::Positions { .. } => calls[1 + 2 * n]->Forward_answer->Ok_0,
                    Placement::Offset { .. } => calls[1 + 2 * n]->ForwardAt_answer->Ok_0,
                },
                Seq::new(n as nat, |j: int| draws[j].answer->Ok_0),
                draws.skip(n),
                Err(outcome->Err_0),
            )
            &&& calls.len() == 2 + 2 * n ==> {
                ||| {
                    &&& draws.len() == n + 1
                    &&& draws[n].answer is Ok
                    &&& !run.eos_token_ids.contains(draws[n].answer->Ok_0)
                    &&& outcome->Err_0.failed_at("Token tensor: "@)
                    &&& match run.placement {
                        Placement::Positions { .. } => crate::tensor::tensor_place(
                            run.input_embeds,
                        ) !is Memory,
                        Placement::Offset { .. } => crate::tensor::tensor_place(
                            calls[1 + 2 * n]->ForwardAt_answer->Ok_0,
                        ) !is Memory,
                    }
                }
                ||| draws.len() == n + 1 && draws[n].answer is Err && outcome->Err_0.reports(
                    "Sampling: "@,
                    draws[n].answer->Err_0,
                )
                ||| draws.len() == n && (outcome->Err_0 is InvalidTensorShape
                    || outcome->Err_0.failed_at("Squeeze batch: "@) || outcome->Err_0.failed_at(
                    "Flatten logits: "@,
                ) || outcome->Err_0.failed_at("Repetition penalty: "@) || (
                run.selection.nucleus is Some && outcome->Err_0 is InferenceFailed
                    && outcome->Err_0->InferenceFailed_0@ == "Sampling: no scores to choose from"@))
            }
            &&& calls.len() == 3 + 2 * n ==> {
                ||| calls[2 + 2 * n]->Embed_answer is Err && outcome->Err_0.reports(
                    "Embed tokens: "@,
                    calls[2 + 2 * n]->Embed_answer->Err_0,
                )
                ||| calls[2 + 2 * n]->Embed_answer is Ok && run.placement is Positions
                    && crate::tensor::tensor_place(run.input_embeds) !is Memory
                    && outcome->Err_0.failed_at("Step position tensor: "@)
            }
            &&& calls.len() == 4 + 2 * n ==> calls[2 + 2 * n]->Embed_answer is Ok && match run.placement {
                Placement::Positions { start, .. } => {
                    let positions = calls[3 + 2 * n]->Forward_positions;
                    &&& calls[3 + 2 * n] is Forward
                    &&& calls[3 + 2 * n]->Forward_embeds == calls[2 + 2 * n]->Embed_answer->Ok_0
                    &&& crate::tensor::tensor_dims(positions) == seq![3usize, 1usize, 1usize]
                    &&& crate::tensor::tensor_integers(positions).len() == 3
                    &&& forall|axis: int|
                        0 <= axis < 3 ==> #[trigger] crate::tensor::tensor_integers(positions)[axis]
                            == (start + n) % 0x1_0000_0000
                    &&& crate::tensor::tensor_element_type(positions) is U32
                    &&& calls[3 + 2 * n]->Forward_answer is Err
                    &&& outcome->Err_0.reports(
                        "Decode forward: "@,
                        calls[3 + 2 * n]->Forward_answer->Err_0,
                    )
                },
                Placement::Offset { prefix_len } => {
                    &&& calls[3 + 2 * n] is ForwardAt
                    &&& calls[3 + 2 * n]->ForwardAt_embeds == calls[2 + 2 * n]->Embed_answer->Ok_0
                    &&& prefix_len + n <= usize::MAX ==> calls[3 + 2 * n]->offset == prefix_len + n
                    &&& calls[3 + 2 * n]->ForwardAt_answer is Err
                    &&& outcome->Err_0.reports(
                        "Decode forward: "@,
                        calls[3 + 2 * n]->ForwardAt_answer->Err_0,
                    )
                },
            }
        },
{
    let e = outcome->Err_0;
    if run.prefix_refused(calls, draws, e) {
        -1
    } else {
        let output = choose|output: Seq<u32>| #[trigger] run.stops_behind(calls, draws, output, e);
        let n = output.len() as int;
        let drawn = draws.skip(n);
        let logits = crate::models::glm_ocr::mtp::answered(calls[1 + 2 * n])->0;
        assert(run.cannot_continue(calls, drawn, output, logits, e));
        assert(drawn.len() <= 1);
        if drawn.len() == 1 {
            assert(drawn[0] == draws[n]);
        }
        assert forall|j: int| 0 <= j < n implies (#[trigger] draws[j]).answer is Ok
            && !run.eos_token_ids.contains(draws[j].answer->Ok_0) by {
            assert(run.took_step(calls.take(2 + 2 * n), draws.take(n), output, j));
            assert(seq![draws.take(n)[j]][0] == draws[j]);
        }
        assert(calls.take(2 + 2 * n)[0] == calls[0]);
        assert(calls.take(2 + 2 * n)[1] == calls[1]);
        assert forall|j: int| 0 <= j < n implies (#[trigger] draws[j]).answer == Ok::<
            u32,
            candle_core::Error,
        >(output[j]) by {
            assert(run.took_step(calls.take(2 + 2 * n), draws.take(n), output, j));
            assert(seq![draws.take(n)[j]][0] == draws[j]);
        }
        assert(Seq::new(n as nat, |j: int| draws[j].answer->Ok_0) =~= output);
        if n > 0 {
            assert(run.took_step(calls.take(2 + 2 * n), draws.take(n), output, n - 1));
            assert(calls.take(2 + 2 * n)[3 + 2 * (n - 1)] == calls[1 + 2 * n]);
        }
        n
    }
}

/// The steps that a failed run took before it stopped are those of a completed one: the prefix and
/// every token chosen before were fed in the same way, and every draw was made from the scores of
/// its pass, penalised with the tokens before it.
pub proof fn a_failed_run_fed_its_tokens_as_any_other(
    run: Run,
    calls: Seq<DecoderCall>,
    draws: Seq<Draw>,
    outcome: Result<Vec<u32>, CandleOcrError>,
    i: int,
)
    requires
        run.concludes(calls, draws, outcome),
        outcome is Err,
        calls.len() > 2 || draws.len() > 0,
        0 <= i,
    ensures
        calls[0] == DecoderCall::ClearCache,
        match run.placement {
            Placement::Positions { prefill, .. } => calls[1] is Forward && calls[1]->Forward_embeds
                == run.input_embeds && calls[1]->Forward_positions == prefill
                && calls[1]->Forward_answer is Ok,
            Placement::Offset { .. } => calls[1] is ForwardAt && calls[1]->ForwardAt_embeds
                == run.input_embeds && calls[1]->offset == 0 && calls[1]->ForwardAt_answer is Ok,
        },
        i < draws.len() ==> {
            let tokens = Seq::new(i as nat, |j: int| draws[j].answer->Ok_0);
            match run.placement {
                Placement::Positions { .. } => calls[1 + 2 * i] is Forward
                    && calls[1 + 2 * i]->Forward_answer is Ok && draws[i].scores
                    == run.selection.penalised_scores(
                    crate::tensor::tensor_scores(calls[1 + 2 * i]->Forward_answer->Ok_0),
                    tokens,
                ),
                Placement::Offset { .. } => calls[1 + 2 * i] is ForwardAt
                    && calls[1 + 2 * i]->ForwardAt_answer is Ok && draws[i].scores
                    == run.selection.penalised_scores(
                    crate::tensor::tensor_scores(calls[1 + 2 * i]->ForwardAt_answer->Ok_0),
                    tokens,
                ),
            }
        },
        i < draws.len() && draws[i].answer is Ok ==> crate::models::glm_ocr::mtp::chooses(
            run.selection,
            match run.placement {
                Placement::Positions { .. } => calls[1 + 2 * i]->Forward_answer->Ok_0,
                Placement::Offset { .. } => calls[1 + 2 * i]->ForwardAt_answer->Ok_0,
            },
            Seq::new(i as nat, |j: int| draws[j].answer->Ok_0),
            seq![draws[i]],
            Ok(draws[i].answer->Ok_0),
        ),
        2 + 2 * i < calls.len() ==> {
            let tokens = calls[2 + 2 * i]->Embed_tokens;
            &&& i < draws.len()
            &&& draws[i].answer is Ok
            &&& !run.eos_token_ids.contains(draws[i].answer->Ok_0)
            &&& calls[2 + 2 * i] is Embed
            &&& crate::tensor::tensor_dims(tokens) == seq![1usize, 1usize]
            &&& crate::tensor::tensor_integers(tokens).len() == 1
            &&& crate::tensor::tensor_integers(tokens)[0] == draws[i].answer->Ok_0
            &&& crate::tensor::tensor_element_type(tokens) is I64
            &&& crate::tensor::tensor_place(tokens) == match run.placement {
                Placement::Positions { .. } => crate::tensor::tensor_place(run.input_embeds),
                Placement::Offset { .. } => crate::tensor::tensor_place(
                    calls[1 + 2 * i]->ForwardAt_answer->Ok_0,
                ),
            }
        },
        3 + 2 * i < calls.len() ==> calls[2 + 2 * i]->Embed_answer is Ok && match run.placement {
            Placement::Positions { start, .. } => {
                let positions = calls[3 + 2 * i]->Forward_positions;
                &&& calls[3 + 2 * i] is Forward
                &&& calls[3 + 2 * i]->Forward_embeds == calls[2 + 2 * i]->Embed_answer->Ok_0
                &&& crate::tensor::tensor_dims(positions) == seq![3usize, 1usize, 1usize]
                &&& crate::tensor::tensor_integers(positions).len() == 3
                &&& forall|axis: int|
                    0 <= axis < 3 ==> #[trigger] crate::tensor::tensor_integers(positions)[axis]
                        == (start + i) % 0x1_0000_0000
                &&& crate::tensor::tensor_element_type(positions) is U32
                &&& crate::tensor::tensor_place(positions) == crate::tensor::tensor_place(
                    run.input_embeds,
                )
            },
            Placement::Offset { prefix_len } => {
                &&& calls[3 + 2 * i] is ForwardAt
                &&& calls[3 + 2 * i]->ForwardAt_embeds == calls[2 + 2 * i]->Embed_answer->Ok_0
                &&& prefix_len + i <= usize::MAX ==> calls[3 + 2 * i]->offset == prefix_len + i
                &&& prefix_len + i > usize::MAX ==> calls[3 + 2 * i]->offset == prefix_len + i
                    - usize::MAX - 1
            },
        },
{
    let e = outcome->Err_0;
    assert(!run.prefix_refused(calls, draws, e));
    let output = choose|output: Seq<u32>| #[trigger] run.stops_behind(calls, draws, output, e);
    let n = output.len() as int;
    let fed = calls.take(2 + 2 * n);
    let drawn = draws.skip(n);
    let logits = crate::models::glm_ocr::mtp::answered(calls[1 + 2 * n])->0;
    assert(run.cannot_continue(calls, drawn, output, logits, e));
    assert(drawn.len() <= 1);
    assert(calls.len() <= 4 + 2 * n);
    assert(fed[0] == calls[0] && fed[1] == calls[1]);
    assert forall|j: int| 0 <= j < n implies (#[trigger] draws[j]).answer == Ok::<
        u32,
        candle_core::Error,
    >(output[j]) by {
        assert(run.took_step(fed, draws.take(n), output, j));
        assert(seq![draws.take(n)[j]][0] == draws[j]);
    }
    if 0 < i <= n {
        assert(run.took_step(fed, draws.take(n), output, i - 1));
        assert(fed[3 + 2 * (i - 1)] == calls[1 + 2 * i]);
    }
    if i < draws.len() {
        let tokens = Seq::new(i as nat, |j: int| draws[j].answer->Ok_0);
        assert(tokens =~= output.take(i));
        if i < n {
            assert(run.took_step(fed, draws.take(n), output, i));
            assert(seq![draws.take(n)[i]][0] == draws[i]);
            assert(fed[1 + 2 * i] == calls[1 + 2 * i]);
        } else {
            assert(drawn[0] == draws[i]);
            assert(output.take(i) =~= output);
            assert(drawn =~= seq![draws[i]]);
        }
    }
    if i < n {
        assert(run.took_step(fed, draws.take(n), output, i));
        assert(fed[1 + 2 * i] == calls[1 + 2 * i]);
        assert(fed[2 + 2 * i] == calls[2 + 2 * i]);
        assert(fed[3 + 2 * i] == calls[3 + 2 * i]);
    }
}

}
