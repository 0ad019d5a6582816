//! What holds of every token selection and of every decoding run.

use vstd::prelude::*;

use candle_core::Tensor;

use crate::error::CandleOcrError;
use crate::float::binary32::ONE;
use crate::float::rounding::{INFINITY, MIN_NORMAL};
use crate::float::F32;
use crate::models::decode::{DecodeConfig, Logits, RepeatPenaltyPolicy, Selection, TokenSelector};
use crate::models::glm_ocr::decoder::DecoderCall;
use crate::models::glm_ocr::mtp::{MtpConfig, Placement, Run};
use crate::sampler::Draw;

verus! {

/// A history in which one token was produced `n` times and nothing else was.
pub open spec fn repeated(token: u32, n: nat) -> Seq<u32> {
    Seq::new(n, |k: int| token)
}

/// A penalty of one leaves the scores alone, whatever was generated.
pub proof fn a_penalty_of_one_changes_nothing(
    selection: Selection,
    scores: Seq<F32>,
    history: Seq<u32>,
)
    requires
        selection.repeat_penalty.same(F32 { bits: ONE }),
    ensures
        selection.penalised_scores(scores, history) == scores,
{
}

/// As long as nothing was generated, the scores are left alone.
pub proof fn an_empty_history_changes_nothing(selection: Selection, scores: Seq<F32>)
    ensures
        selection.penalised_scores(scores, Seq::empty()) == scores,
{
}

/// The penalty reads nothing but the window: with two histories that agree there, the scores are
/// penalised alike, and a step does the same.
pub proof fn only_the_window_counts(
    selection: Selection,
    logits: Logits,
    history: Seq<u32>,
    other: Seq<u32>,
    drawn: Seq<Draw>,
    outcome: Result<u32, CandleOcrError>,
)
    requires
        crate::models::decode::window(history, selection.repeat_last_n)
            == crate::models::decode::window(other, selection.repeat_last_n),
    ensures
        selection.penalised_scores(logits.scores, history) == selection.penalised_scores(
            logits.scores,
            other,
        ),
        crate::models::decode::steps(selection, logits, history, drawn, outcome)
            == crate::models::decode::steps(selection, logits, other, drawn, outcome),
{
}

/// A window of zero is the whole history; any other window is its most recent part.
pub proof fn the_window_is_the_recent_past(history: Seq<u32>, last_n: usize)
    ensures
        crate::models::decode::window(history, 0) == history,
        last_n > 0 ==> crate::models::decode::window(history, last_n).len() <= last_n,
        crate::models::decode::window(history, last_n).is_suffix_of(history),
        last_n > 0 && history.len() >= last_n ==> crate::models::decode::window(
            history,
            last_n,
        ).len() == last_n,
{
}

/// The scores keep their number, under either policy.
pub proof fn the_row_keeps_its_length(selection: Selection, scores: Seq<F32>, history: Seq<u32>)
    ensures
        selection.penalised_scores(scores, history).len() == scores.len(),
{
}

/// A token that does not occur in the window keeps its score, under either policy.
pub proof fn a_token_outside_the_window_keeps_its_score(
    selection: Selection,
    scores: Seq<F32>,
    history: Seq<u32>,
    i: int,
)
    requires
        0 <= i < scores.len(),
        !crate::models::decode::mentions(
            crate::models::decode::window(history, selection.repeat_last_n),
            i,
        ),
    ensures
        selection.penalised_scores(scores, history)[i] == scores[i],
{
    lemma_not_mentioned(crate::models::decode::window(history, selection.repeat_last_n), i);
}

pub(crate) proof fn lemma_not_mentioned(context: Seq<u32>, i: int)
    requires
        !crate::models::decode::mentions(context, i),
    ensures
        crate::models::decode::occurrences(context, i) == 0,
    decreases context.len(),
{
    if context.len() > 0 {
        let rest = context.drop_last();
        assert forall|k: int| 0 <= k < rest.len() implies rest[k] != i by {
            assert(rest[k] == context[k]);
        }
        assert(context[context.len() - 1] != i);
        lemma_not_mentioned(rest, i);
    }
}

pub(crate) proof fn lemma_mentioned(context: Seq<u32>, i: int)
    requires
        crate::models::decode::mentions(context, i),
    ensures
        crate::models::decode::occurrences(context, i) > 0,
    decreases context.len(),
{
    let k = choose|k: int| 0 <= k < context.len() && context[k] == i;
    if context.last() != i {
        assert(context.drop_last()[k] == i);
        lemma_mentioned(context.drop_last(), i);
    }
}

/// The presence policy asks only which tokens of the vocabulary occur, not how often or where.
pub proof fn presence_counts_a_token_once(
    scores: Seq<F32>,
    penalty: F32,
    context: Seq<u32>,
    other: Seq<u32>,
)
    requires
        forall|i: int|
            #![trigger crate::models::decode::mentions(context, i)]
            0 <= i < scores.len() ==> crate::models::decode::mentions(context, i)
                == crate::models::decode::mentions(other, i),
    ensures
        crate::models::decode::presence_penalised(scores, penalty, context)
            == crate::models::decode::presence_penalised(scores, penalty, other),
{
    let a = crate::models::decode::presence_penalised(scores, penalty, context);
    let b = crate::models::decode::presence_penalised(scores, penalty, other);
    assert forall|i: int| 0 <= i < scores.len() implies a[i] == b[i] by {
        assert(crate::models::decode::mentions(context, i) == crate::models::decode::mentions(
            other,
            i,
        ));
    }
    assert(a =~= b);
}

/// The frequency policy lowers a score once more for every further occurrence of its token, and
/// leaves the others where they are.
pub proof fn frequency_counts_every_occurrence(
    scores: Seq<F32>,
    penalty: F32,
    context: Seq<u32>,
    token: u32,
    i: int,
)
    requires
        0 <= i < scores.len(),
    ensures
        ({
            let before = crate::models::decode::frequency_penalised(scores, penalty, context);
            let after = crate::models::decode::frequency_penalised(
                scores,
                penalty,
                context.push(token),
            );
            after[i] == if i == token {
                crate::models::decode::penalised(before[i], penalty)
            } else {
                before[i]
            }
        }),
{
    assert(context.push(token).drop_last() =~= context);
}

/// The frequency policy asks how often each token of the vocabulary occurs, and nothing else: not
/// in which order, nor what lies beyond the vocabulary.
pub proof fn frequency_asks_only_how_often(
    scores: Seq<F32>,
    penalty: F32,
    context: Seq<u32>,
    other: Seq<u32>,
)
    requires
        forall|i: int|
            0 <= i < scores.len() ==> #[trigger] crate::models::decode::occurrences(context, i)
                == crate::models::decode::occurrences(other, i),
    ensures
        crate::models::decode::frequency_penalised(scores, penalty, context)
            == crate::models::decode::frequency_penalised(scores, penalty, other),
{
    let a = crate::models::decode::frequency_penalised(scores, penalty, context);
    let b = crate::models::decode::frequency_penalised(scores, penalty, other);
    assert forall|i: int| 0 <= i < scores.len() implies a[i] == b[i] by {
        assert(crate::models::decode::occurrences(context, i)
            == crate::models::decode::occurrences(other, i));
    }
    assert(a =~= b);
}

/// The tokens of the context that a vocabulary of this size holds.
pub open spec fn within(context: Seq<u32>, vocab: nat) -> Seq<u32> {
    context.filter(|t: u32| t < vocab)
}

proof fn lemma_occurrences_within(context: Seq<u32>, vocab: nat, i: int)
    requires
        i < vocab,
    ensures
        crate::models::decode::occurrences(within(context, vocab), i)
            == crate::models::decode::occurrences(context, i),
    decreases context.len(),
{
    reveal(Seq::filter);
    if context.len() > 0 {
        let rest = context.drop_last();
        lemma_occurrences_within(rest, vocab, i);
        if context.last() < vocab {
            assert(within(context, vocab) == within(rest, vocab).push(context.last()));
            assert(within(context, vocab).drop_last() =~= within(rest, vocab));
        } else {
            assert(within(context, vocab) == within(rest, vocab));
        }
    }
}

pub(crate) proof fn lemma_occurrences_in_multiset(context: Seq<u32>, token: u32)
    ensures
        crate::models::decode::occurrences(context, token as int) == context.to_multiset().count(
            token,
        ),
    decreases context.len(),
{
    broadcast use vstd::seq_lib::group_to_multiset_ensures;

    if context.len() > 0 {
        let rest = context.drop_last();
        lemma_occurrences_in_multiset(rest, token);
        assert(context =~= rest.push(context.last()));
        assert(rest.push(context.last()).to_multiset() == rest.to_multiset().insert(
            context.last(),
        ));
    } else {
        assert(context.to_multiset().len() == 0);
    }
}

pub(crate) proof fn lemma_beyond_every_token(context: Seq<u32>, i: int)
    requires
        i > u32::MAX,
    ensures
        crate::models::decode::occurrences(context, i) == 0,
    decreases context.len(),
{
    if context.len() > 0 {
        lemma_beyond_every_token(context.drop_last(), i);
    }
}

/// The frequency policy does not ask in which order tokens occur: two contexts whose tokens within
/// the vocabulary are the same up to their order are penalised alike.
pub proof fn frequency_ignores_the_order(
    scores: Seq<F32>,
    penalty: F32,
    context: Seq<u32>,
    other: Seq<u32>,
)
    requires
        within(context, scores.len()).to_multiset() == within(other, scores.len()).to_multiset(),
    ensures
        crate::models::decode::frequency_penalised(scores, penalty, context)
            == crate::models::decode::frequency_penalised(scores, penalty, other),
{
    assert forall|i: int| 0 <= i < scores.len() implies #[trigger] crate::models::decode::occurrences(
        context,
        i,
    ) == crate::models::decode::occurrences(other, i) by {
        if i <= u32::MAX {
            lemma_occurrences_within(context, scores.len(), i);
            lemma_occurrences_within(other, scores.len(), i);
            lemma_occurrences_in_multiset(within(context, scores.len()), i as u32);
            lemma_occurrences_in_multiset(within(other, scores.len()), i as u32);
        } else {
            lemma_beyond_every_token(context, i);
            lemma_beyond_every_token(other, i);
        }
    }
    frequency_asks_only_how_often(scores, penalty, context, other);
}

/// Under either policy only the tokens of the vocabulary count that occur in the window, and how
/// often they do: neither their order nor anything beyond the vocabulary has a say in the scores.
/// A step in main memory then does the same.
pub proof fn only_the_vocabulary_counts(
    selection: Selection,
    logits: Logits,
    history: Seq<u32>,
    other: Seq<u32>,
    drawn: Seq<Draw>,
    outcome: Result<u32, CandleOcrError>,
)
    requires
        forall|i: int|
            0 <= i < logits.scores.len() ==> #[trigger] crate::models::decode::occurrences(
                crate::models::decode::window(history, selection.repeat_last_n),
                i,
            ) == crate::models::decode::occurrences(
                crate::models::decode::window(other, selection.repeat_last_n),
                i,
            ),
    ensures
        selection.penalised_scores(logits.scores, history) == selection.penalised_scores(
            logits.scores,
            other,
        ),
        logits.in_memory() ==> crate::models::decode::steps(
            selection,
            logits,
            history,
            drawn,
            outcome,
        ) == crate::models::decode::steps(selection, logits, other, drawn, outcome),
{
    let a = selection.penalised_scores(logits.scores, history);
    let b = selection.penalised_scores(logits.scores, other);
    let window = crate::models::decode::window(history, selection.repeat_last_n);
    let other_window = crate::models::decode::window(other, selection.repeat_last_n);
    assert forall|i: int| 0 <= i < logits.scores.len() implies a[i] == b[i] by {
        assert(crate::models::decode::occurrences(window, i)
            == crate::models::decode::occurrences(other_window, i));
        if crate::models::decode::mentions(window, i) {
            lemma_mentioned(window, i);
        } else {
            lemma_not_mentioned(window, i);
        }
        if crate::models::decode::mentions(other_window, i) {
            lemma_mentioned(other_window, i);
        } else {
            lemma_not_mentioned(other_window, i);
        }
    }
    assert(a =~= b);
}

/// The two policies agree when no token of the vocabulary has repeated in the window: they hand
/// the sampler the same scores, and a step with either policy does the same.
pub proof fn the_policies_agree_without_repeats(
    presence: Selection,
    frequency: Selection,
    logits: Logits,
    history: Seq<u32>,
    drawn: Seq<Draw>,
    outcome: Result<u32, CandleOcrError>,
)
    requires
        presence.repeat_penalty_policy == RepeatPenaltyPolicy::Presence,
        frequency == (Selection {
            repeat_penalty_policy: RepeatPenaltyPolicy::Frequency,
            ..presence
        }),
        forall|i: int|
            0 <= i < logits.scores.len() ==> #[trigger] crate::models::decode::occurrences(
                crate::models::decode::window(history, presence.repeat_last_n),
                i,
            ) <= 1,
    ensures
        presence.penalised_scores(logits.scores, history) == frequency.penalised_scores(
            logits.scores,
            history,
        ),
        crate::models::decode::steps(presence, logits, history, drawn, outcome)
            == crate::models::decode::steps(frequency, logits, history, drawn, outcome),
{
    let scores = logits.scores;
    let context = crate::models::decode::window(history, presence.repeat_last_n);
    let penalty = presence.repeat_penalty;
    let a = crate::models::decode::presence_penalised(scores, penalty, context);
    let b = crate::models::decode::frequency_penalised(scores, penalty, context);
    assert forall|i: int| 0 <= i < scores.len() implies a[i] == b[i] by {
        assert(crate::models::decode::occurrences(context, i) <= 1);
        if crate::models::decode::mentions(context, i) {
            lemma_mentioned(context, i);
            assert(crate::models::decode::penalised_times(scores[i], penalty, 0) == scores[i]);
            assert(crate::models::decode::penalised_times(scores[i], penalty, 1)
                == crate::models::decode::penalised(scores[i], penalty));
        } else {
            lemma_not_mentioned(context, i);
        }
    }
    assert(a =~= b);
}

/// Every row of scores has a token that leads it.
pub proof fn every_row_has_a_leader(scores: Seq<F32>)
    requires
        scores.len() > 0,
    ensures
        exists|t: int| crate::models::decode::leads(scores, t),
    decreases scores.len(),
{
    if scores[0].nan() || scores.len() == 1 {
        assert(crate::models::decode::leads(scores, 0));
    } else {
        let rest = scores.drop_last();
        every_row_has_a_leader(rest);
        let t = choose|t: int| crate::models::decode::leads(rest, t);
        let last = scores.len() - 1;
        assert(rest[t] == scores[t]);
        assert forall|j: int| 0 <= j < last implies scores[j] == #[trigger] rest[j] by {}
        if scores[t].less(scores[last]) {
            assert forall|j: int| 0 <= j < last && !(#[trigger] scores[j]).nan() implies scores[j].less(
                scores[last],
            ) by {
                assert(!rest[t].less(rest[j]));
            }
            assert forall|j: int| 0 <= j < scores.len() implies !scores[last].less(
                #[trigger] scores[j],
            ) by {
                if j < last {
                    assert(!rest[t].less(rest[j]));
                }
            }
            assert(crate::models::decode::leads(scores, last));
        } else {
            assert forall|j: int| 0 <= j < scores.len() implies !scores[t].less(
                #[trigger] scores[j],
            ) by {
                if j < last {
                    assert(!rest[t].less(rest[j]));
                }
            }
            assert forall|j: int| 0 <= j < t && !(#[trigger] scores[j]).nan() implies scores[j].less(
                scores[t],
            ) by {
                assert(rest[j] == scores[j]);
            }
            assert(crate::models::decode::leads(scores, t));
        }
    }
}

/// No two tokens lead the same row.
pub proof fn one_token_leads(scores: Seq<F32>, a: int, b: int)
    requires
        crate::models::decode::leads(scores, a),
        crate::models::decode::leads(scores, b),
    ensures
        a == b,
{
    if !scores[0].nan() {
        if a < b {
            assert(scores[a].less(scores[b]));
        } else if b < a {
            assert(scores[b].less(scores[a]));
        }
    }
}

/// Two greedy steps on the same scores and the same history return the same token, or both fail.
pub proof fn greedy_steps_agree(
    selection: Selection,
    scores: Seq<F32>,
    history: Seq<u32>,
    a: Result<u32, CandleOcrError>,
    b: Result<u32, CandleOcrError>,
)
    requires
        selection.greedy_outcome(scores, history, a),
        selection.greedy_outcome(scores, history, b),
    ensures
        a is Ok <==> b is Ok,
        a is Ok ==> a->Ok_0 == b->Ok_0,
        a is Ok <==> scores.len() > 0,
{
    if a is Ok && b is Ok {
        one_token_leads(
            selection.penalised_scores(scores, history),
            a->Ok_0 as int,
            b->Ok_0 as int,
        );
    }
}

/// What two selectors chose before has no say in a greedy step: with the same penalty settings,
/// on the same scores in main memory and the same history, they return the same token.
pub proof fn greedy_selectors_agree(
    one: Selection,
    other: Selection,
    logits: Logits,
    history: Seq<u32>,
    one_drawn: Seq<Draw>,
    other_drawn: Seq<Draw>,
    a: Result<u32, CandleOcrError>,
    b: Result<u32, CandleOcrError>,
)
    requires
        one.nucleus is None,
        other == (Selection { seed: other.seed, ..one }),
        logits.in_memory(),
        0 < logits.scores.len() <= 0x1_0000_0000,
        crate::models::decode::one_position(logits.dims),
        crate::models::decode::steps(one, logits, history, one_drawn, a),
        crate::models::decode::steps(other, logits, history, other_drawn, b),
    ensures
        a is Ok,
        b is Ok,
        a->Ok_0 == b->Ok_0,
        crate::models::decode::leads(
            one.penalised_scores(logits.scores, history),
            a->Ok_0 as int,
        ),
{
    the_row_keeps_its_length(one, logits.scores, history);
    assert(one.penalised_scores(logits.scores, history) == other.penalised_scores(
        logits.scores,
        history,
    ));
    one_token_leads(
        one.penalised_scores(logits.scores, history),
        a->Ok_0 as int,
        b->Ok_0 as int,
    );
}

/// A leading size of one changes nothing: a batched row selects as the flat row does, hands the
/// sampler the same scores and fails alike.
pub proof fn batched_scores_select_as_a_flat_row(
    selection: Selection,
    logits: Logits,
    history: Seq<u32>,
    drawn: Seq<Draw>,
    outcome: Result<u32, CandleOcrError>,
)
    requires
        crate::models::decode::one_position(logits.dims),
    ensures
        crate::models::decode::one_position(seq![1usize] + logits.dims),
        crate::models::decode::steps(
            selection,
            Logits { dims: seq![1usize] + logits.dims, ..logits },
            history,
            drawn,
            outcome,
        ) == crate::models::decode::steps(selection, logits, history, drawn, outcome),
{
    let batched = seq![1usize] + logits.dims;
    assert forall|i: int| 0 <= i < batched.len() - 1 implies batched[i] == 1 by {
        if i > 0 {
            assert(batched[i] == logits.dims[i - 1]);
        }
    }
    assert(batched.last() == logits.dims.last());
}

/// Scores for more than one position, and a tensor without dimensions, are rejected as a shape
/// error, whatever they hold, and nothing else is. Nothing is drawn for them.
pub proof fn more_than_one_position_is_rejected(
    selection: Selection,
    logits: Logits,
    history: Seq<u32>,
    drawn: Seq<Draw>,
    outcome: Result<u32, CandleOcrError>,
)
    requires
        crate::models::decode::steps(selection, logits, history, drawn, outcome),
    ensures
        outcome is Err && outcome->Err_0 is InvalidTensorShape <==> logits.dims.len() == 0 || exists|
            i: int,
        |
            0 <= i < logits.dims.len() - 1 && logits.dims[i] != 1,
        outcome is Err && outcome->Err_0 !is InvalidTensorShape ==> outcome->Err_0 is InferenceFailed,
        outcome is Err && outcome->Err_0 is InvalidTensorShape ==> drawn.len() == 0,
{
}

/// A step on a row in main memory always succeeds when it is greedy and the row holds a score, and
/// fails only in the sampler otherwise.
pub proof fn only_the_sampler_fails_in_main_memory(
    selection: Selection,
    logits: Logits,
    history: Seq<u32>,
    drawn: Seq<Draw>,
    outcome: Result<u32, CandleOcrError>,
)
    requires
        crate::models::decode::steps(selection, logits, history, drawn, outcome),
        crate::models::decode::one_position(logits.dims),
        logits.in_memory(),
        logits.dims.last() > 0,
    ensures
        drawn.len() == 1,
        outcome is Ok <==> drawn[0].answer is Ok,
        selection.nucleus is None && 0 < logits.scores.len() <= 0x1_0000_0000 ==> outcome is Ok,
{
    the_row_keeps_its_length(selection, logits.scores, history);
}

/// A configuration is greedy exactly when its temperature is at most zero. Otherwise it draws from
/// a nucleus of the given mass at the given temperature.
pub proof fn the_temperature_decides_between_greedy_and_nucleus(config: DecodeConfig)
    ensures
        Selection::of(config).nucleus is None <==> config.temperature.at_most_zero(),
        Selection::of(config).nucleus is Some ==> Selection::of(config).nucleus->0 == (
            config.top_p,
            config.temperature,
        ),
{
}

/// When a configuration is greedy, neither its seed nor its nucleus mass has a say in the outcome.
pub proof fn greedy_reads_no_sampling_settings(
    config: DecodeConfig,
    other: DecodeConfig,
    scores: Seq<F32>,
    history: Seq<u32>,
    outcome: Result<u32, CandleOcrError>,
)
    requires
        config.temperature.at_most_zero(),
        other.temperature.at_most_zero(),
        config.repeat_penalty == other.repeat_penalty,
        config.repeat_last_n == other.repeat_last_n,
        config.repeat_penalty_policy == other.repeat_penalty_policy,
    ensures
        Selection::of(config).nucleus is None,
        Selection::of(other).nucleus is None,
        Selection::of(config).greedy_outcome(scores, history, outcome) == Selection::of(
            other,
        ).greedy_outcome(scores, history, outcome),
{
    assert(Selection::of(config).penalised_scores(scores, history) == Selection::of(
        other,
    ).penalised_scores(scores, history));
}

proof fn lemma_repeated_mentions(token: u32, n: nat, i: int)
    requires
        n > 0,
    ensures
        crate::models::decode::mentions(repeated(token, n), i) <==> i == token,
{
    assert(repeated(token, n)[0] == token);
}

proof fn lemma_repeated_occurrences(token: u32, n: nat, i: int)
    ensures
        crate::models::decode::occurrences(repeated(token, n), i) == if i == token {
            n
        } else {
            0
        },
    decreases n,
{
    if n > 0 {
        lemma_repeated_occurrences(token, (n - 1) as nat, i);
        assert(repeated(token, n).drop_last() =~= repeated(token, (n - 1) as nat));
    }
}

/// Under the presence policy the pressure on a token is the same at its first repeat and at its
/// fiftieth: a decoder that chose the token once more chooses it forever.
pub proof fn presence_pressure_does_not_grow(
    selection: Selection,
    scores: Seq<F32>,
    token: u32,
    n: nat,
    m: nat,
)
    requires
        selection.repeat_penalty_policy == RepeatPenaltyPolicy::Presence,
        0 < n,
        0 < m,
    ensures
        selection.penalised_scores(scores, repeated(token, n)) == selection.penalised_scores(
            scores,
            repeated(token, m),
        ),
{
    let a = crate::models::decode::window(repeated(token, n), selection.repeat_last_n);
    let b = crate::models::decode::window(repeated(token, m), selection.repeat_last_n);
    assert(a =~= repeated(token, a.len()));
    assert(b =~= repeated(token, b.len()));
    assert forall|i: int|
        #![trigger crate::models::decode::mentions(a, i)]
        crate::models::decode::mentions(a, i) == crate::models::decode::mentions(b, i) by {
        lemma_repeated_mentions(token, a.len(), i);
        lemma_repeated_mentions(token, b.len(), i);
    }
    presence_counts_a_token_once(scores, selection.repeat_penalty, a, b);
}

/// Under the frequency policy over the whole output, a decoder that keeps choosing one token
/// loses it: after enough repeats the token no longer leads, and it never leads again while the
/// repeats go on.
///
/// Some other token must have a score that the repeated one falls behind: at least the smallest
/// number with a full-width significand when the repeated score is not negative, and any score
/// above negative infinity when the repeated one is a negative number with a full-width
/// significand.
pub proof fn frequency_pressure_ends_a_loop(
    selection: Selection,
    scores: Seq<F32>,
    token: u32,
    rival: int,
) -> (n: nat)
    requires
        selection.repeat_penalty_policy == RepeatPenaltyPolicy::Frequency,
        selection.repeat_last_n == 0,
        crate::models::pressure::above_one(selection.repeat_penalty),
        token < scores.len(),
        0 <= rival < scores.len(),
        rival != token,
        !scores[token as int].nan(),
        scores[token as int].rank() < INFINITY,
        !scores[rival].nan(),
        scores[token as int].rank() >= 0 ==> scores[rival].rank() >= MIN_NORMAL,
        scores[token as int].rank() < 0 ==> scores[token as int].pattern() >= MIN_NORMAL
            && scores[rival].rank() > -INFINITY,
    ensures
        forall|more: nat|
            n <= more ==> !crate::models::decode::leads(
                selection.penalised_scores(scores, #[trigger] repeated(token, more)),
                token as int,
            ),
{
    let score = scores[token as int];
    let penalty = selection.repeat_penalty;
    let enough = crate::models::pressure::a_repeated_score_falls_behind_for_good(
        score,
        scores[rival],
        penalty,
    );
    assert forall|more: nat| enough + 1 <= more implies !crate::models::decode::leads(
        selection.penalised_scores(scores, #[trigger] repeated(token, more)),
        token as int,
    ) by {
        lemma_repeated_occurrences(token, more, token as int);
        lemma_repeated_occurrences(token, more, rival);
        let after = selection.penalised_scores(scores, repeated(token, more));
        assert(after[token as int] == crate::models::decode::penalised_times(score, penalty, more));
        assert(after[rival] == scores[rival]);
        assert(after[token as int].less(after[rival]));
    }
    enough + 1
}

/// GLM-OCR reads its whole output, counts every occurrence, and never reads how many tokens a
/// step was meant to predict.
pub proof fn glm_counts_every_repeat(config: MtpConfig, max_new_tokens: usize, steps: usize)
    ensures
        ({
            let selection = Selection::of(config.shared(max_new_tokens));
            &&& selection.repeat_penalty_policy == RepeatPenaltyPolicy::Frequency
            &&& selection.repeat_penalty == config.repetition_penalty
            &&& forall|history: Seq<u32>|
                #[trigger] crate::models::decode::window(history, selection.repeat_last_n)
                    == history
        }),
        config.shared(max_new_tokens) == (MtpConfig { num_tokens_per_step: steps, ..config }).shared(
            max_new_tokens,
        ),
{
}

/// GLM-OCR draws from the nucleus exactly when sampling is on and the temperature is not at or
/// below zero; otherwise it is greedy.
pub proof fn glm_samples_only_when_asked(config: MtpConfig, max_new_tokens: usize)
    ensures
        ({
            let selection = Selection::of(config.shared(max_new_tokens));
            &&& selection.nucleus is Some <==> config.sample && !(!config.temperature.nan()
                && config.temperature.rank() <= 0)
            &&& selection.nucleus is Some ==> selection.nucleus->0 == (
                config.top_p.widened(),
                config.temperature.widened(),
            )
        }),
{
    crate::float::binary64::widening_keeps_the_sign(config.temperature);
}

/// In a completed run, token `i` is what the sampler answered to row `i`, and that row holds the
/// scores of pass `i` after the penalty has read everything generated before.
pub(crate) proof fn lemma_chosen(run: Run, calls: Seq<DecoderCall>, draws: Seq<Draw>, output: Seq<u32>, i: int)
    requires
        run.completes(calls, draws, output),
        0 <= i < output.len(),
    ensures
        draws.len() == output.len(),
        1 + 2 * i < calls.len(),
        crate::models::glm_ocr::mtp::answered(calls[1 + 2 * i]) is Some,
        crate::models::glm_ocr::mtp::chooses(
            run.selection,
            crate::models::glm_ocr::mtp::answered(calls[1 + 2 * i])->0,
            output.take(i),
            seq![draws[i]],
            Ok(output[i]),
        ),
        i < output.len() - 1 ==> !run.eos_token_ids.contains(output[i]),
{
    if output.len() == run.max_new_tokens && run.fed(calls, draws, output) {
        assert(run.took_step(calls, draws, output, i));
    } else if i < output.len() - 1 {
        assert(run.took_step(calls, draws.drop_last(), output.drop_last(), i));
        assert(output.drop_last().take(i) =~= output.take(i));
    } else {
        assert(output.drop_last() =~= output.take(i));
        assert(calls[1 + 2 * i] == calls.last());
    }
}

/// The scores that a request was answered with.
pub open spec fn scores_of(call: DecoderCall) -> Seq<F32> {
    crate::tensor::tensor_scores(crate::models::glm_ocr::mtp::answered(call)->0)
}

/// A completed run returns exactly what its sampler answered, one token per pass. The sampler was
/// handed the scores of each pass, after the penalty has read everything generated before, and
/// nothing else since it was seeded. This holds of greedy runs and of sampling runs alike.
pub proof fn a_run_returns_what_its_sampler_drew(
    run: Run,
    calls: Seq<DecoderCall>,
    draws: Seq<Draw>,
    output: Seq<u32>,
)
    requires
        run.completes(calls, draws, output),
    ensures
        draws =~= Seq::new(
            output.len(),
            |i: int|
                Draw {
                    scores: run.selection.penalised_scores(
                        scores_of(calls[1 + 2 * i]),
                        output.take(i),
                    ),
                    answer: Ok(output[i]),
                },
        ),
{
    assert forall|i: int| 0 <= i < output.len() implies #[trigger] draws[i] == (Draw {
        scores: run.selection.penalised_scores(scores_of(calls[1 + 2 * i]), output.take(i)),
        answer: Ok(output[i]),
    }) by {
        lemma_chosen(run, calls, draws, output, i);
        assert(seq![draws[i]][0] == draws[i]);
    }
}

/// When the first token that the sampler answers ends the sequence, it is the whole output: the
/// prefix is fed, and no token is.
pub proof fn an_end_token_at_once_is_the_whole_output(
    run: Run,
    calls: Seq<DecoderCall>,
    draws: Seq<Draw>,
    output: Seq<u32>,
    token: u32,
)
    requires
        run.completes(calls, draws, output),
        draws.len() > 0,
        draws[0].answer == Ok::<u32, candle_core::Error>(token),
        run.eos_token_ids.contains(token),
    ensures
        output == seq![token],
        calls.len() == 2,
{
    a_run_returns_what_its_sampler_drew(run, calls, draws, output);
    lemma_chosen(run, calls, draws, output, 0);
    if run.fed(calls, draws, output) {
        assert(run.took_step(calls, draws, output, 0));
    }
}

/// A completed run stays within its limit, stops at the first end-of-sequence token, which is
/// part of the output, and is shorter than the limit only when it ends with such a token.
pub proof fn a_run_stops_at_the_first_end_token(
    run: Run,
    calls: Seq<DecoderCall>,
    draws: Seq<Draw>,
    output: Seq<u32>,
)
    requires
        run.completes(calls, draws, output),
    ensures
        output.len() <= run.max_new_tokens,
        forall|i: int|
            0 <= i < output.len() - 1 ==> !run.eos_token_ids.contains(#[trigger] output[i]),
        output.len() < run.max_new_tokens ==> output.len() > 0 && run.eos_token_ids.contains(
            output.last(),
        ),
{
    assert forall|i: int| 0 <= i < output.len() - 1 implies !run.eos_token_ids.contains(
        #[trigger] output[i],
    ) by {
        lemma_chosen(run, calls, draws, output, i);
    }
}

/// A run makes one forward pass for the prefix and one for every token it feeds: all of its
/// output, except an end-of-sequence token at its end.
pub proof fn a_run_makes_one_pass_per_token(
    run: Run,
    calls: Seq<DecoderCall>,
    draws: Seq<Draw>,
    output: Seq<u32>,
)
    requires
        run.completes(calls, draws, output),
    ensures
        calls.len() == 2 + 2 * (if output.len() > 0 && run.eos_token_ids.contains(output.last()) {
            output.len() - 1
        } else {
            output.len() as int
        }),
{
    if output.len() == run.max_new_tokens && run.fed(calls, draws, output) && output.len() > 0 {
        assert(run.took_step(calls, draws, output, output.len() - 1));
    }
}

/// Pass `i` of a run feeds the embedding that the model gave for token `i`, at the place of that
/// token.
pub proof fn a_run_feeds_every_token_in_its_place(
    run: Run,
    calls: Seq<DecoderCall>,
    draws: Seq<Draw>,
    output: Seq<u32>,
    i: int,
)
    requires
        run.completes(calls, draws, output),
        0 <= i,
        3 + 2 * i < calls.len(),
    ensures
        crate::models::glm_ocr::mtp::answered(calls[1 + 2 * i]) is Some,
        run.is_embed(
            calls[2 + 2 * i],
            crate::models::glm_ocr::mtp::answered(calls[1 + 2 * i])->0,
            output[i],
        ),
        crate::models::glm_ocr::mtp::answered(calls[2 + 2 * i]) is Some,
        run.is_pass(
            calls[3 + 2 * i],
            crate::models::glm_ocr::mtp::answered(calls[2 + 2 * i])->0,
            i,
        ),
{
    if output.len() == run.max_new_tokens && run.fed(calls, draws, output) {
        assert(run.took_step(calls, draws, output, i));
    } else {
        assert(run.took_step(calls, draws.drop_last(), output.drop_last(), i));
        assert(output.drop_last()[i] == output[i]);
    }
}

/// Text positions count up by one from the given start, as long as they fit.
pub proof fn text_positions_count_up(run: Run, call: DecoderCall, embedding: Tensor, i: int)
    requires
        run.is_pass(call, embedding, i),
        run.placement is Positions,
        0 <= i,
        run.placement->start + i <= u32::MAX,
    ensures
        call is Forward,
        crate::models::glm_ocr::mtp::is_text_position(
            call->Forward_positions,
            run.placement->start + i,
            crate::tensor::tensor_place(run.input_embeds),
        ),
{
}

/// The scores of pass `i` lie in main memory, and there are not more than a token id can number.
pub open spec fn readable(call: DecoderCall) -> bool {
    &&& crate::tensor::tensor_in_memory(crate::models::glm_ocr::mtp::answered(call)->0)
    &&& scores_of(call).len() <= 0x1_0000_0000
}

/// At every step of a completed greedy run, the token is the one that leads the scores of the
/// step after the penalty has read everything generated before.
pub proof fn a_greedy_run_takes_the_leader_at_every_step(
    run: Run,
    calls: Seq<DecoderCall>,
    draws: Seq<Draw>,
    output: Seq<u32>,
    i: int,
)
    requires
        run.completes(calls, draws, output),
        run.selection.nucleus is None,
        0 <= i < output.len(),
    ensures
        crate::models::glm_ocr::mtp::answered(calls[1 + 2 * i]) is Some,
        readable(calls[1 + 2 * i]) ==> crate::models::decode::leads(
            run.selection.penalised_scores(scores_of(calls[1 + 2 * i]), output.take(i)),
            output[i] as int,
        ),
{
    lemma_chosen(run, calls, draws, output, i);
    the_row_keeps_its_length(run.selection, scores_of(calls[1 + 2 * i]), output.take(i));
}

/// A run can take its next token from these logits: they are for one position, lie in main memory,
/// and hold at least one score.
pub open spec fn usable(logits: Tensor) -> bool {
    let dims = crate::tensor::tensor_dims(logits);
    &&& dims.len() > 0
    &&& crate::models::decode::one_position(crate::models::glm_ocr::mtp::unbatched(dims))
    &&& crate::tensor::tensor_in_memory(logits)
    &&& 0 < crate::tensor::tensor_scores(logits).len()
}

/// A run fails only for a reason: the model refused the last request, or it answered a pass with
/// logits that are not usable, or the tensors that feed a token do not belong in main memory, or
/// the sampler refused a row. A greedy sampler refuses no row of usable logits, unless it has more
/// scores than a token id can number.
pub proof fn a_run_fails_only_for_a_reason(
    run: Run,
    calls: Seq<DecoderCall>,
    draws: Seq<Draw>,
    e: CandleOcrError,
) -> (n: int)
    requires
        run.ends(calls, draws, Err(e)),
    ensures
        0 <= n < run.max_new_tokens,
        1 + 2 * n < calls.len(),
        crate::models::glm_ocr::mtp::answered(calls[1 + 2 * n]) is Some,
        ({
            let logits = crate::models::glm_ocr::mtp::answered(calls[1 + 2 * n])->0;
            ||| crate::models::glm_ocr::mtp::refused(calls.last()) is Some
            ||| !usable(logits)
            ||| run.place(logits) !is Memory
            ||| {
                &&& draws.len() > 0
                &&& draws.last().answer is Err
                &&& run.selection.nucleus is None ==> scores_of(calls[1 + 2 * n]).len()
                    > 0x1_0000_0000
            }
        }),
{
    let output = choose|output: Seq<u32>| #[trigger] run.stops_behind(calls, draws, output, e);
    let n = output.len() as int;
    let logits = crate::models::glm_ocr::mtp::answered(calls[1 + 2 * n])->0;
    the_row_keeps_its_length(run.selection, crate::tensor::tensor_scores(logits), output);
    if draws.skip(n).len() > 0 {
        assert(draws.last() == draws.skip(n).last());
    }
    n
}

/// When the model refuses a request, the run ends there and reports the model's error behind the
/// name of the step: the prefix, the embedding of a token, or the pass that feeds it. The tokens
/// that were chosen before are not returned.
pub proof fn a_refusal_is_reported_with_the_models_error(
    run: Run,
    calls: Seq<DecoderCall>,
    draws: Seq<Draw>,
    outcome: Result<Vec<u32>, CandleOcrError>,
    cause: candle_core::Error,
)
    requires
        run.concludes(calls, draws, outcome),
        crate::models::glm_ocr::mtp::refused(calls.last()) == Some(cause),
    ensures
        outcome is Err,
        calls.len() == 2 ==> outcome->Err_0.reports("Prefill forward: "@, cause),
        calls.len() > 2 && calls.len() % 2 == 1 ==> outcome->Err_0.reports(
            "Embed tokens: "@,
            cause,
        ),
        calls.len() > 2 && calls.len() % 2 == 0 ==> outcome->Err_0.reports(
            "Decode forward: "@,
            cause,
        ),
{
    if !(outcome matches Err(e) && run.prefix_refused(calls, draws, e)) {
        match outcome {
            Ok(output) => {
                let output = output@;
                if run.fed(calls, draws, output) && output.len() > 0 {
                    assert(run.took_step(calls, draws, output, output.len() - 1));
                }
            },
            Err(e) => {
                let output = choose|output: Seq<u32>|
                    #[trigger] run.stops_behind(calls, draws, output, e);
                let n = output.len() as int;
                assert(crate::models::glm_ocr::mtp::answered(calls[1 + 2 * n]) is Some);
            },
        }
    }
}

/// A request that the model refused is the last one of a run.
pub proof fn a_refusal_ends_the_run(
    run: Run,
    calls: Seq<DecoderCall>,
    draws: Seq<Draw>,
    outcome: Result<Vec<u32>, CandleOcrError>,
    i: int,
)
    requires
        run.concludes(calls, draws, outcome),
        0 <= i < calls.len(),
        crate::models::glm_ocr::mtp::refused(calls[i]) is Some,
    ensures
        i == calls.len() - 1,
{
    if !(outcome matches Err(e) && run.prefix_refused(calls, draws, e)) {
        match outcome {
            Ok(output) => {
                let output = output@;
                if output.len() == run.max_new_tokens && run.fed(calls, draws, output) {
                    lemma_fed_is_answered(run, calls, draws, output, i);
                } else {
                    lemma_fed_is_answered(run, calls, draws.drop_last(), output.drop_last(), i);
                }
            },
            Err(e) => {
                let output = choose|output: Seq<u32>|
                    #[trigger] run.stops_behind(calls, draws, output, e);
                let n = output.len() as int;
                if i < 2 + 2 * n {
                    assert(calls.take(2 + 2 * n)[i] == calls[i]);
                    lemma_fed_is_answered(run, calls.take(2 + 2 * n), draws.take(n), output, i);
                }
            },
        }
    }
}

proof fn lemma_fed_is_answered(
    run: Run,
    calls: Seq<DecoderCall>,
    draws: Seq<Draw>,
    output: Seq<u32>,
    i: int,
)
    requires
        run.fed(calls, draws, output),
        0 <= i < calls.len(),
    ensures
        crate::models::glm_ocr::mtp::refused(calls[i]) is None,
{
    if i > 1 {
        let k = (i - 2) / 2;
        assert(run.took_step(calls, draws, output, k));
        assert(i == 2 + 2 * k || i == 3 + 2 * k);
    }
}

}
