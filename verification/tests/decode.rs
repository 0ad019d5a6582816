use candle_core::{DType, Device, Tensor};
use xberg_candle_ocr::error::CandleOcrError;
use xberg_candle_ocr::float::{F32, F64};
use xberg_candle_ocr::models::decode::{
    default_max_new_tokens, default_repeat_last_n, default_repeat_penalty, default_seed,
    default_top_p, penalise, penalise_occurrences, DecodeConfig, RepeatPenaltyPolicy, TokenSelector,
};

fn single(x: f32) -> F32 {
    F32::from_bits(x.to_bits())
}

fn double(x: f64) -> F64 {
    F64::from_bits(x.to_bits())
}

fn row(values: &[f32]) -> Tensor {
    Tensor::from_slice(values, values.len(), &Device::Cpu).expect("logits row")
}

fn selector(config: DecodeConfig) -> TokenSelector {
    TokenSelector::new(&config)
}

fn values(t: &Tensor) -> Vec<f32> {
    t.to_vec1::<f32>().expect("row of scores")
}

#[test]
fn greedy_selection_takes_the_highest_score_when_nothing_repeats() {
    let mut s = selector(DecodeConfig::default());
    assert_eq!(s.next_token(&row(&[0.1, 0.9, 0.3]), &[]).expect("token"), 1);
}

#[test]
fn a_token_in_the_window_loses_to_one_that_is_not() {
    // Token 1 leads on raw score. Having just produced it, the penalty must hand the step to
    // token 2. This is the step that stops a greedy decoder repeating one token forever.
    let mut s = selector(DecodeConfig {
        repeat_penalty: single(2.0),
        ..DecodeConfig::default()
    });
    assert_eq!(s.next_token(&row(&[0.1, 0.9, 0.8]), &[1]).expect("token"), 2);
}

#[test]
fn a_negative_score_is_pushed_further_down_by_the_penalty() {
    // Both scores are negative, the branch where the penalty multiplies instead of dividing.
    // Token 1 wins untouched, and must lose once it is in the history.
    let mut plain = selector(DecodeConfig {
        repeat_penalty: single(1.0),
        ..DecodeConfig::default()
    });
    assert_eq!(plain.next_token(&row(&[-0.5, -0.4]), &[1]).expect("token"), 1);

    let mut penalised = selector(DecodeConfig {
        repeat_penalty: single(2.0),
        ..DecodeConfig::default()
    });
    assert_eq!(penalised.next_token(&row(&[-0.5, -0.4]), &[1]).expect("token"), 0);
}

#[test]
fn a_penalty_of_one_leaves_the_choice_alone() {
    let mut s = selector(DecodeConfig {
        repeat_penalty: single(1.0),
        ..DecodeConfig::default()
    });
    assert_eq!(s.next_token(&row(&[0.1, 0.9, 0.8]), &[1]).expect("token"), 1);
}

#[test]
fn the_window_forgets_a_token_that_left_it() {
    // Token 1 was generated, then pushed out of a two-token window, so it is eligible again.
    let mut s = selector(DecodeConfig {
        repeat_penalty: single(2.0),
        repeat_last_n: 2,
        ..DecodeConfig::default()
    });
    assert_eq!(s.next_token(&row(&[0.1, 0.9, 0.8]), &[1, 5, 6]).expect("token"), 1);
}

#[test]
fn a_window_of_zero_penalises_the_whole_history() {
    // GLM-OCR's policy. The same history under a two-token window leaves token 1 eligible,
    // which is the test above; here token 1 is still penalised and token 2 wins.
    let mut s = selector(DecodeConfig {
        repeat_penalty: single(2.0),
        repeat_last_n: 0,
        ..DecodeConfig::default()
    });
    assert_eq!(s.next_token(&row(&[0.1, 0.9, 0.8]), &[1, 5, 6]).expect("token"), 2);
}

#[test]
fn scores_from_a_batched_model_select_the_same_token_as_a_flat_row() {
    // GLM-OCR hands over (vocab); DeepSeek-OCR and PaddleOCR-VL hand over (1, 1, vocab).
    let flat = row(&[0.1, 0.9, 0.8]);
    let batched = flat.reshape((1, 1, 3)).expect("reshape");
    let mut from_flat = selector(DecodeConfig {
        repeat_penalty: single(2.0),
        ..DecodeConfig::default()
    });
    let mut from_batched = selector(DecodeConfig {
        repeat_penalty: single(2.0),
        ..DecodeConfig::default()
    });
    assert_eq!(
        from_flat.next_token(&flat, &[1]).expect("token"),
        from_batched.next_token(&batched, &[1]).expect("token")
    );
}

#[test]
fn scores_for_more_than_one_position_are_rejected() {
    // A caller that forgets to narrow a prefill block to its last position gets an error
    // rather than a token chosen from the wrong row.
    let block = Tensor::from_slice(&[0.1f32, 0.9, 0.8, 0.2, 0.3, 0.4], (2, 3), &Device::Cpu).expect("block");
    let mut s = selector(DecodeConfig::default());
    let err = s.next_token(&block, &[]).expect_err("two positions must be rejected");
    assert!(
        matches!(err, CandleOcrError::InvalidTensorShape { .. }),
        "expected an invalid-shape error, got {err:?}"
    );
}

/// A history in which token 1 has been produced `n` times and nothing else has.
fn repeated(n: usize) -> Vec<u32> {
    vec![1u32; n]
}

#[test]
fn presence_pressure_does_not_grow_when_a_token_repeats() {
    // Token 1 leads token 2 by more than the penalty divides away, so under this policy the
    // step returns token 1 whether it has been produced once or forty times. That is the
    // property which lets a greedy decoder stay in a loop forever.
    let config = DecodeConfig {
        repeat_penalty: single(1.1),
        repeat_last_n: 0,
        repeat_penalty_policy: RepeatPenaltyPolicy::Presence,
        ..DecodeConfig::default()
    };
    for repeats in [1, 40] {
        let mut s = selector(config.clone());
        assert_eq!(
            s.next_token(&row(&[0.1, 5.0, 3.8]), &repeated(repeats)).expect("token"),
            1,
            "presence must give the same answer after {repeats} repeats"
        );
    }
}

#[test]
fn frequency_pressure_grows_until_a_repeated_token_loses() {
    // The same row and the same histories under the frequency policy. One occurrence leaves
    // token 1 ahead; forty divide it by 1.1^40, which puts it behind token 2.
    let config = DecodeConfig {
        repeat_penalty: single(1.1),
        repeat_last_n: 0,
        repeat_penalty_policy: RepeatPenaltyPolicy::Frequency,
        ..DecodeConfig::default()
    };
    let mut once = selector(config.clone());
    assert_eq!(once.next_token(&row(&[0.1, 5.0, 3.8]), &repeated(1)).expect("token"), 1);

    let mut many = selector(config);
    assert_eq!(
        many.next_token(&row(&[0.1, 5.0, 3.8]), &repeated(40)).expect("token"),
        2
    );
}

#[test]
fn frequency_pushes_a_negative_score_down_once_per_occurrence() {
    // The branch where the penalty multiplies. -1.0 * 1.1 stays ahead of -1.2, and
    // -1.0 * 1.1^3 is -1.331, which does not.
    let config = DecodeConfig {
        repeat_penalty: single(1.1),
        repeat_last_n: 0,
        repeat_penalty_policy: RepeatPenaltyPolicy::Frequency,
        ..DecodeConfig::default()
    };
    let mut once = selector(config.clone());
    assert_eq!(once.next_token(&row(&[-1.2, -1.0]), &repeated(1)).expect("token"), 1);

    let mut thrice = selector(config);
    assert_eq!(thrice.next_token(&row(&[-1.2, -1.0]), &repeated(3)).expect("token"), 0);
}

#[test]
fn frequency_reads_only_the_window_when_one_is_set() {
    // The window and the policy are independent knobs. Token 1 left a two-token window, so
    // it is unpenalised even though the policy would otherwise have counted three repeats.
    let mut s = selector(DecodeConfig {
        repeat_penalty: single(1.1),
        repeat_last_n: 2,
        repeat_penalty_policy: RepeatPenaltyPolicy::Frequency,
        ..DecodeConfig::default()
    });
    assert_eq!(
        s.next_token(&row(&[0.1, 5.0, 3.8]), &[1, 1, 1, 5, 6]).expect("token"),
        1
    );
}

#[test]
fn the_two_policies_agree_when_nothing_has_repeated() {
    // A token seen once is divided once under either policy, so the backends that stayed on
    // the presence policy see no change from a history without repeats.
    let base = DecodeConfig {
        repeat_penalty: single(2.0),
        repeat_last_n: 0,
        ..DecodeConfig::default()
    };
    let mut presence = selector(base.clone());
    let mut frequency = selector(DecodeConfig {
        repeat_penalty_policy: RepeatPenaltyPolicy::Frequency,
        ..base
    });
    assert_eq!(
        presence.next_token(&row(&[0.1, 0.9, 0.8]), &[1, 5, 6]).expect("token"),
        frequency.next_token(&row(&[0.1, 0.9, 0.8]), &[1, 5, 6]).expect("token")
    );
}

#[test]
fn the_default_policy_is_presence() {
    // DeepSeek-OCR and PaddleOCR-VL take the default, and both are measured good on it.
    assert_eq!(
        DecodeConfig::default().repeat_penalty_policy,
        RepeatPenaltyPolicy::Presence
    );
    assert_eq!(RepeatPenaltyPolicy::default(), RepeatPenaltyPolicy::Presence);
}

#[test]
fn a_config_that_names_nothing_has_the_standard_values() {
    let config = DecodeConfig::default();
    assert_eq!(config.max_new_tokens, 4096);
    assert_eq!(config.repeat_penalty, single(1.1));
    assert_eq!(config.repeat_last_n, 64);
    assert_eq!(config.repeat_penalty_policy, RepeatPenaltyPolicy::Presence);
    assert_eq!(config.temperature, double(0.0));
    assert_eq!(config.top_p, double(0.9));
    assert_eq!(config.seed, 1337);
    assert_eq!(default_max_new_tokens(), 4096);
    assert_eq!(default_repeat_penalty().to_bits(), 1.1f32.to_bits());
    assert_eq!(default_repeat_last_n(), 64);
    assert_eq!(default_seed(), 1337);
    assert_eq!(default_top_p().to_bits(), 0.9f64.to_bits());
}

#[test]
fn configurations_compare_field_by_field() {
    let config = DecodeConfig::default();
    assert!(config == config.clone());
    let negative_zero = DecodeConfig { temperature: double(-0.0), ..config.clone() };
    assert!(config == negative_zero);
    assert!(config != DecodeConfig { seed: 1, ..config.clone() });
    assert!(config != DecodeConfig { top_p: double(0.8), ..config.clone() });
    assert!(config != DecodeConfig { repeat_penalty: single(1.0), ..config.clone() });
    assert!(config != DecodeConfig { max_new_tokens: 1, ..config.clone() });
    assert!(config != DecodeConfig { repeat_last_n: 1, ..config.clone() });
    assert!(config != DecodeConfig { repeat_penalty_policy: RepeatPenaltyPolicy::Frequency, ..config.clone() });
    let undefined = DecodeConfig { temperature: double(f64::NAN), ..config.clone() };
    assert!(undefined != undefined.clone());
}

#[test]
fn one_score_is_lowered_by_division_or_multiplication() {
    assert_eq!(penalise(single(0.9), single(2.0)).to_bits(), 0.45f32.to_bits());
    assert_eq!(penalise(single(-0.4), single(2.0)).to_bits(), (-0.8f32).to_bits());
    assert_eq!(penalise(single(-0.0), single(2.0)).to_bits(), (-0.0f32).to_bits());
    assert_eq!(penalise(single(f32::INFINITY), single(f32::INFINITY)).to_bits(), 0x7fc0_0000);
}

#[test]
fn occurrences_are_counted_and_tokens_beyond_the_row_are_skipped() {
    let mut scores = vec![single(8.0), single(-1.0), single(3.0)];
    penalise_occurrences(&mut scores, single(2.0), &[0, 1, 0, 7, 0, 4_000_000_000]);
    let lowered: Vec<f32> = scores.iter().map(|s| f32::from_bits(s.to_bits())).collect();
    assert_eq!(lowered, vec![1.0, -2.0, 3.0]);
}

#[test]
fn the_order_of_the_context_does_not_matter_to_the_frequency_policy() {
    let scores = row(&[4.0, -3.0, 2.5]);
    let one = TokenSelector::apply_frequency_penalty(&scores, single(1.1), &[0, 1, 0, 2]).expect("row");
    let other = TokenSelector::apply_frequency_penalty(&scores, single(1.1), &[2, 0, 0, 1]).expect("row");
    assert_eq!(values(&one), values(&other));
    assert_eq!(values(&one), vec![4.0f32 / 1.1 / 1.1, -3.0 * 1.1, 2.5 / 1.1]);
}

#[test]
fn the_frequency_penalty_reads_other_element_types_in_single_precision() {
    let doubles = Tensor::from_slice(&[1.5f64, 6.0, -2.0], 3, &Device::Cpu).expect("doubles");
    let lowered = TokenSelector::apply_frequency_penalty(&doubles, single(2.0), &[1, 2]).expect("row");
    assert_eq!(lowered.dtype(), DType::F32);
    assert!(lowered.device().is_cpu());
    assert_eq!(values(&lowered), vec![1.5, 3.0, -4.0]);

    let doubles = Tensor::from_slice(&[8.0f64, -2.0], 2, &Device::Cpu).expect("doubles");
    let lowered = TokenSelector::apply_frequency_penalty(&doubles, single(2.0), &[0, 1]).expect("row");
    assert_eq!(lowered.dtype(), DType::F32);
    assert_eq!(lowered.dims(), &[2]);
    assert_eq!(values(&lowered), vec![4.0, -4.0]);
    assert_eq!(doubles.to_vec1::<f64>().expect("doubles"), vec![8.0, -2.0]);
}

#[test]
fn packed_rows_are_refused() {
    let packed = Tensor::from_raw_buffer(&[1, 2, 3], DType::F6E2M3, &[3], &Device::Cpu).expect("packed row");
    let message = |e: CandleOcrError| match e {
        CandleOcrError::InferenceFailed(text) => text,
        other => panic!("unexpected error {other:?}"),
    };
    let text = message(TokenSelector::apply_frequency_penalty(&packed, single(2.0), &[1]).expect_err("packed"));
    assert!(text.starts_with("Repetition penalty: ") && text.contains("to_dtype"), "{text}");
    for policy in [RepeatPenaltyPolicy::Presence, RepeatPenaltyPolicy::Frequency] {
        for temperature in [0.0, 1.0] {
            let mut s = selector(DecodeConfig {
                repeat_penalty_policy: policy,
                temperature: double(temperature),
                ..DecodeConfig::default()
            });
            let text = message(s.next_token(&packed, &[1]).expect_err("packed"));
            assert!(text.starts_with("Repetition penalty: ") && text.contains("to_dtype"), "{text}");
            let text = message(s.next_token(&packed, &[]).expect_err("packed"));
            assert!(text.starts_with("Sampling: ") && text.contains("to_dtype"), "{text}");
        }
    }
}

#[test]
fn the_frequency_penalty_wants_a_row() {
    let block = Tensor::from_slice(&[0.1f32, 0.9], (1, 2), &Device::Cpu).expect("block");
    let err = TokenSelector::apply_frequency_penalty(&block, single(2.0), &[1]).expect_err("no row");
    match err {
        CandleOcrError::InferenceFailed(text) => assert!(text.starts_with("Repetition penalty: "), "{text}"),
        other => panic!("unexpected error {other:?}"),
    }
}

#[test]
fn the_presence_penalty_lowers_each_token_once() {
    let s = selector(DecodeConfig {
        repeat_penalty: single(2.0),
        repeat_last_n: 0,
        ..DecodeConfig::default()
    });
    let lowered = s.penalised_row(&row(&[8.0, -1.0, 3.0, 5.0]), &[0, 1, 0, 9, 1]).expect("row");
    assert_eq!(values(&lowered), vec![4.0, -2.0, 3.0, 5.0]);
}

#[test]
fn both_penalties_give_the_same_bits_for_one_occurrence() {
    let scores = row(&[0.3, -7.25, 1e-42, f32::MAX, f32::INFINITY, -1e-44, 0.0, -0.0]);
    let history: Vec<u32> = (0..8).collect();
    let config = DecodeConfig { repeat_penalty: single(1.1), repeat_last_n: 0, ..DecodeConfig::default() };
    let presence = selector(config.clone()).penalised_row(&scores, &history).expect("row");
    let frequency = selector(DecodeConfig {
        repeat_penalty_policy: RepeatPenaltyPolicy::Frequency,
        ..config
    })
    .penalised_row(&scores, &history)
    .expect("row");
    let a: Vec<u32> = values(&presence).iter().map(|x| x.to_bits()).collect();
    let b: Vec<u32> = values(&frequency).iter().map(|x| x.to_bits()).collect();
    assert_eq!(a, b);
    assert_eq!(a[0], (0.3f32 / 1.1).to_bits());
}

#[test]
fn nothing_generated_leaves_the_scores_alone() {
    let s = selector(DecodeConfig { repeat_penalty: single(2.0), ..DecodeConfig::default() });
    let untouched = s.penalised_row(&row(&[8.0, -1.0]), &[]).expect("row");
    assert_eq!(values(&untouched), vec![8.0, -1.0]);
}

#[test]
fn histories_that_agree_in_the_window_are_penalised_alike() {
    let s = selector(DecodeConfig { repeat_penalty: single(2.0), repeat_last_n: 2, ..DecodeConfig::default() });
    let one = s.penalised_row(&row(&[8.0, 4.0, 2.0]), &[0, 0, 1, 2]).expect("row");
    let other = s.penalised_row(&row(&[8.0, 4.0, 2.0]), &[2, 1, 2]).expect("row");
    assert_eq!(values(&one), values(&other));
    assert_eq!(values(&one), vec![8.0, 2.0, 1.0]);
}

#[test]
fn the_rejected_shape_is_named() {
    let block = Tensor::zeros((1, 12, 30), DType::F32, &Device::Cpu).expect("block");
    match TokenSelector::single_row(&block).expect_err("many positions") {
        CandleOcrError::InvalidTensorShape { expected, got } => {
            assert_eq!(expected, "scores for one position, such as (vocab) or (1, 1, vocab)");
            assert_eq!(got, "[1, 12, 30]");
        }
        other => panic!("unexpected error {other:?}"),
    }
    let scalar = Tensor::from_slice(&[1.0f32], (), &Device::Cpu).expect("scalar");
    match selector(DecodeConfig::default()).next_token(&scalar, &[]).expect_err("no dimension") {
        CandleOcrError::InvalidTensorShape { got, .. } => assert_eq!(got, "[]"),
        other => panic!("unexpected error {other:?}"),
    }
}

#[test]
fn a_single_row_is_flat_and_keeps_its_scores() {
    let batched = row(&[0.5, 0.25, 0.125]).reshape((1, 3)).expect("reshape");
    let flat = TokenSelector::single_row(&batched).expect("row");
    assert_eq!(flat.dims(), &[3]);
    assert_eq!(values(&flat), vec![0.5, 0.25, 0.125]);
    let again = TokenSelector::single_row(&flat).expect("row");
    assert_eq!(again.dims(), &[3]);
    assert_eq!(values(&again), vec![0.5, 0.25, 0.125]);

    let doubles = Tensor::from_slice(&[0.5f64, 0.25], (1, 1, 2), &Device::Cpu).expect("doubles");
    let kept = TokenSelector::single_row(&doubles).expect("row");
    assert_eq!(kept.dtype(), DType::F64);
    assert_eq!(kept.dims(), &[2]);
}

#[test]
fn the_first_of_equal_scores_is_taken_and_nan_is_passed_over() {
    let mut s = selector(DecodeConfig::default());
    assert_eq!(s.next_token(&row(&[0.1, 0.9, 0.9]), &[]).expect("token"), 1);
    assert_eq!(s.next_token(&row(&[0.1, f32::NAN, 0.9]), &[]).expect("token"), 2);
    assert_eq!(s.next_token(&row(&[f32::NAN, 0.1, 0.9]), &[]).expect("token"), 0);
    assert_eq!(s.next_token(&row(&[-0.0, 0.0]), &[]).expect("token"), 0);
}

#[test]
fn greedy_reads_neither_seed_nor_nucleus_mass() {
    for temperature in [0.0, -0.0, -3.0] {
        for seed in [0, 1, 99] {
            let mut s = selector(DecodeConfig {
                temperature: double(temperature),
                top_p: double(0.01 * seed as f64),
                seed,
                ..DecodeConfig::default()
            });
            assert_eq!(s.next_token(&row(&[0.1, 0.2, 0.15]), &[]).expect("token"), 1);
        }
    }
}

#[test]
fn a_narrow_nucleus_holds_only_the_leader() {
    // The mass of the leading token alone exceeds the nucleus, so every draw is that token, even
    // though the temperature makes the others almost as likely.
    let mut s = selector(DecodeConfig {
        temperature: double(50.0),
        top_p: double(0.1),
        ..DecodeConfig::default()
    });
    for _ in 0..200 {
        assert_eq!(s.next_token(&row(&[0.1, 0.9, 0.3]), &[]).expect("token"), 1);
    }
}

#[test]
fn a_wide_nucleus_draws_every_token_of_the_row() {
    let mut s = selector(DecodeConfig {
        temperature: double(50.0),
        top_p: double(1.0),
        ..DecodeConfig::default()
    });
    let mut seen = vec![0usize; 3];
    for _ in 0..300 {
        let token = s.next_token(&row(&[0.1, 0.9, 0.3]), &[]).expect("token");
        seen[token as usize] += 1;
    }
    assert!(seen.iter().all(|&n| n > 0), "{seen:?}");
}

#[test]
fn equal_seeds_draw_equal_tokens() {
    let config = DecodeConfig { temperature: double(10.0), top_p: double(1.0), seed: 7, ..DecodeConfig::default() };
    let mut one = selector(config.clone());
    let mut other = selector(config.clone());
    let mut third = selector(DecodeConfig { seed: 8, ..config });
    let scores = row(&[0.1, 0.9, 0.3, 0.2, 0.5]);
    let a: Vec<u32> = (0..64).map(|_| one.next_token(&scores, &[]).expect("token")).collect();
    let b: Vec<u32> = (0..64).map(|_| other.next_token(&scores, &[]).expect("token")).collect();
    let c: Vec<u32> = (0..64).map(|_| third.next_token(&scores, &[]).expect("token")).collect();
    assert_eq!(a, b);
    assert_ne!(a, c);
}

#[test]
fn a_rejected_shape_leaves_the_generator_alone() {
    let config = DecodeConfig { temperature: double(10.0), top_p: double(1.0), seed: 7, ..DecodeConfig::default() };
    let mut plain = selector(config.clone());
    let mut disturbed = selector(config);
    let scores = row(&[0.1, 0.9, 0.3, 0.2, 0.5]);
    let block = Tensor::zeros((2, 3), DType::F32, &Device::Cpu).expect("block");
    for _ in 0..64 {
        disturbed.next_token(&block, &[]).expect_err("two positions");
        let expected = plain.next_token(&scores, &[]).expect("token");
        assert_eq!(disturbed.next_token(&scores, &[]).expect("token"), expected);
    }
}

#[test]
fn tokens_beyond_the_vocabulary_neither_count_nor_break_the_agreement() {
    let scores = row(&[4.0, -3.0, 2.5]);
    let one = TokenSelector::apply_frequency_penalty(&scores, single(1.1), &[0, 9, 1, 9, 0]).expect("row");
    let other = TokenSelector::apply_frequency_penalty(&scores, single(1.1), &[7, 1, 0, 0]).expect("row");
    assert_eq!(values(&one), values(&other));

    let base = DecodeConfig { repeat_penalty: single(2.0), repeat_last_n: 0, ..DecodeConfig::default() };
    let presence = selector(base.clone()).penalised_row(&scores, &[1, 9, 9, 9]).expect("row");
    let frequency = selector(DecodeConfig { repeat_penalty_policy: RepeatPenaltyPolicy::Frequency, ..base })
        .penalised_row(&scores, &[1, 9, 9, 9])
        .expect("row");
    assert_eq!(values(&presence), values(&frequency));
}

#[test]
fn a_temperature_that_is_no_number_is_a_sampling_error() {
    let mut s = selector(DecodeConfig { temperature: double(f64::NAN), ..DecodeConfig::default() });
    match s.next_token(&row(&[0.1, 0.9]), &[]).expect_err("no distribution") {
        CandleOcrError::InferenceFailed(text) => assert!(text.starts_with("Sampling: "), "{text}"),
        other => panic!("unexpected error {other:?}"),
    }
}

#[test]
fn an_empty_row_is_a_sampling_error() {
    let empty = Tensor::zeros(0, DType::F32, &Device::Cpu).expect("empty row");
    let greedy = DecodeConfig::default();
    let nucleus = DecodeConfig { temperature: double(1.0), ..DecodeConfig::default() };
    match selector(greedy.clone()).next_token(&empty, &[]).expect_err("empty") {
        CandleOcrError::InferenceFailed(text) => assert!(text.starts_with("Sampling: "), "{text}"),
        other => panic!("unexpected error {other:?}"),
    }
    match selector(greedy).try_next_token(&empty, &[]).expect_err("empty") {
        CandleOcrError::InferenceFailed(text) => assert!(text.starts_with("Sampling: "), "{text}"),
        other => panic!("unexpected error {other:?}"),
    }
    match selector(nucleus).try_next_token(&empty, &[]).expect_err("empty") {
        CandleOcrError::InferenceFailed(text) => assert_eq!(text, "Sampling: no scores to choose from"),
        other => panic!("unexpected error {other:?}"),
    }
}

#[test]
fn the_checked_step_chooses_as_the_plain_one() {
    let mut s = selector(DecodeConfig { repeat_penalty: single(2.0), ..DecodeConfig::default() });
    assert_eq!(s.try_next_token(&row(&[0.1, 0.9, 0.8]), &[1]).expect("token"), 2);
}

#[test]
fn views_of_other_tensors_are_read_in_their_own_order() {
    let scalar = Tensor::from_slice(&[1.0f32], (), &Device::Cpu).expect("scalar");
    let broadcast = scalar.broadcast_as(1).expect("view");
    let mut s = selector(DecodeConfig::default());
    assert_eq!(s.next_token(&broadcast, &[]).expect("token"), 0);

    let columns = Tensor::from_slice(&[1.0f32, 2.0, 9.0, 4.0, 3.0, 8.0], (3, 2), &Device::Cpu).expect("block");
    let column = columns.t().expect("view").get(0).expect("row");
    assert_eq!(s.next_token(&column, &[]).expect("token"), 1);
    let lowered = TokenSelector::apply_frequency_penalty(&column, single(2.0), &[1]).expect("row");
    assert_eq!(values(&lowered), vec![1.0, 4.5, 3.0]);
}

#[test]
fn division_never_takes_a_repeated_score_below_zero() {
    // The rival is negative, so no number of repeats lets it win.
    let mut s = selector(DecodeConfig {
        repeat_last_n: 0,
        repeat_penalty_policy: RepeatPenaltyPolicy::Frequency,
        ..DecodeConfig::default()
    });
    let history = vec![0u32; 3000];
    assert_eq!(s.next_token(&row(&[5.0, -0.1]), &history).expect("token"), 0);
}
