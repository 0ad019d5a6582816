use candle_core::{DType, Device, Tensor};
use xberg_candle_ocr::error::CandleOcrError;
use xberg_candle_ocr::float::{F32, F64};
use xberg_candle_ocr::models::decode::{RepeatPenaltyPolicy, TokenSelector};
use xberg_candle_ocr::models::glm_ocr::decoder::Glm4Decoder;
use xberg_candle_ocr::models::glm_ocr::mtp::{
    choose_token, generate, generate_mrope, generate_mrope_with, generate_with, is_listed,
    make_text_step_positions, make_token_tensor, MtpConfig,
};

fn single(x: f32) -> F32 {
    F32::from_bits(x.to_bits())
}

fn double(x: f64) -> F64 {
    F64::from_bits(x.to_bits())
}

/// Scores for a three-token vocabulary, on the CPU.
fn row(values: &[f32]) -> Tensor {
    Tensor::from_slice(values, values.len(), &Device::Cpu).expect("logits row")
}

/// What a model was asked.
#[derive(Debug, PartialEq)]
enum Asked {
    Clear,
    Embed(Vec<Vec<i64>>),
    Forward(Vec<Vec<Vec<u32>>>),
    ForwardAt(usize),
}

/// A model that answers its passes with a script of score rows and then fails.
struct Scripted {
    rows: Vec<Vec<f32>>,
    pass: usize,
    embed_fails: bool,
    asked: Vec<Asked>,
}

impl Scripted {
    fn new(rows: &[&[f32]]) -> Scripted {
        Scripted {
            rows: rows.iter().map(|r| r.to_vec()).collect(),
            pass: 0,
            embed_fails: false,
            asked: vec![],
        }
    }

    fn answer(&mut self) -> Result<Tensor, candle_core::Error> {
        if self.pass == self.rows.len() {
            return Err(candle_core::Error::Msg("script ended".to_string()));
        }
        let scores = self.rows[self.pass].clone();
        self.pass += 1;
        let vocab = scores.len();
        Tensor::from_vec(scores, (1, 1, vocab), &Device::Cpu)
    }
}

impl Glm4Decoder for Scripted {
    fn clear_kv_cache(&mut self) {
        self.asked.push(Asked::Clear);
    }

    fn embed_tokens(&mut self, tokens: &Tensor) -> Result<Tensor, candle_core::Error> {
        self.asked.push(Asked::Embed(tokens.to_vec2::<i64>()?));
        if self.embed_fails {
            return Err(candle_core::Error::Msg("no table".to_string()));
        }
        Tensor::zeros((1, 1, 4), DType::F32, &Device::Cpu)
    }

    fn forward_embeds(&mut self, _embeds: &Tensor, position_ids: &Tensor) -> Result<Tensor, candle_core::Error> {
        self.asked.push(Asked::Forward(position_ids.to_vec3::<u32>()?));
        self.answer()
    }

    fn forward_embeds_with_offset(&mut self, _embeds: &Tensor, seqlen_offset: usize) -> Result<Tensor, candle_core::Error> {
        self.asked.push(Asked::ForwardAt(seqlen_offset));
        self.answer()
    }
}

fn prefix() -> Tensor {
    Tensor::zeros((1, 6, 4), DType::F32, &Device::Cpu).expect("prefix")
}

fn prefill_positions() -> Tensor {
    Tensor::zeros((3, 1, 6), DType::U32, &Device::Cpu).expect("positions")
}

fn triple(pos: u32) -> Vec<Vec<Vec<u32>>> {
    vec![vec![vec![pos]]; 3]
}

const TWO: &[f32] = &[0.1, 0.2, 9.0];
const ONE: &[f32] = &[0.1, 9.0, 0.2];
const ZERO: &[f32] = &[9.0, 0.1, 0.2];

#[test]
fn glm_escapes_a_token_it_has_already_repeated() {
    // The defect behind the GLM-OCR page regression, at the seam where it happens.
    //
    // Token 1 leads token 2 by more than the penalty divides away, so one application of
    // the penalty leaves token 1 ahead and the decoder emits it again. GLM-OCR needs the
    // pressure to grow with each repeat, otherwise the step below returns token 1 however
    // long the loop has already run and the page fills with one phrase.
    let config = MtpConfig::default();
    let mut selector = TokenSelector::new(&config.decode_config(2048));
    let history = vec![1u32; 40];

    assert_eq!(
        selector.next_token(&row(&[0.1, 5.0, 3.8]), &history).expect("token"),
        2,
        "a token repeated 40 times must lose the step"
    );
}

#[test]
fn glm_keeps_a_token_that_leads_and_has_not_repeated() {
    // The other side of the same step: pressure that grows with repeats must not push the
    // decoder off a leading token it has only just produced.
    let config = MtpConfig::default();
    let mut selector = TokenSelector::new(&config.decode_config(2048));

    assert_eq!(
        selector.next_token(&row(&[0.1, 5.0, 3.8]), &[1]).expect("token"),
        1,
        "one occurrence must not cost token 1 the step"
    );
}

#[test]
fn the_default_knobs_are_greedy() {
    let config = MtpConfig::default();
    assert_eq!(config.num_tokens_per_step, 4);
    assert!(!config.sample);
    assert_eq!(config.top_p, single(0.9));
    assert_eq!(config.temperature, single(0.1));
    assert_eq!(config.repetition_penalty, single(1.1));
    assert_eq!(config.clone().top_p, single(0.9));
}

#[test]
fn the_knobs_become_a_decode_configuration() {
    let knobs = MtpConfig {
        num_tokens_per_step: 4,
        sample: true,
        top_p: single(0.75),
        temperature: single(0.1),
        repetition_penalty: single(1.3),
    };
    let config = knobs.decode_config(77);
    assert_eq!(config.max_new_tokens, 77);
    assert_eq!(config.repeat_penalty, single(1.3));
    assert_eq!(config.repeat_last_n, 0);
    assert_eq!(config.repeat_penalty_policy, RepeatPenaltyPolicy::Frequency);
    assert_eq!(config.temperature, double(f64::from(0.1f32)));
    assert_eq!(config.top_p, double(0.75));
    assert_eq!(config.seed, 1337);

    let greedy = MtpConfig { sample: false, ..knobs.clone() }.decode_config(77);
    assert_eq!(greedy.temperature, double(0.0));

    let other = MtpConfig { num_tokens_per_step: 9, ..knobs }.decode_config(77);
    assert!(other == config);
}

#[test]
fn a_run_with_positions_feeds_every_token_until_the_end_token() {
    let mut decoder = Scripted::new(&[TWO, ONE, ZERO]);
    let output = generate_mrope(&mut decoder, &prefix(), &prefill_positions(), 41, &MtpConfig::default(), 10, &[0, 7])
        .expect("tokens");
    assert_eq!(output, vec![2, 1, 0]);
    assert_eq!(
        decoder.asked,
        vec![
            Asked::Clear,
            Asked::Forward(vec![vec![vec![0; 6]]; 3]),
            Asked::Embed(vec![vec![2]]),
            Asked::Forward(triple(41)),
            Asked::Embed(vec![vec![1]]),
            Asked::Forward(triple(42)),
        ]
    );
}

#[test]
fn a_run_with_offsets_counts_on_from_the_prefix() {
    let mut decoder = Scripted::new(&[TWO, ONE, ZERO]);
    let output = generate(&mut decoder, &prefix(), &MtpConfig::default(), 10, &[0]).expect("tokens");
    assert_eq!(output, vec![2, 1, 0]);
    assert_eq!(
        decoder.asked,
        vec![
            Asked::Clear,
            Asked::ForwardAt(0),
            Asked::Embed(vec![vec![2]]),
            Asked::ForwardAt(6),
            Asked::Embed(vec![vec![1]]),
            Asked::ForwardAt(7),
        ]
    );
}

#[test]
fn a_run_stops_at_its_limit_and_feeds_the_last_token() {
    let mut decoder = Scripted::new(&[TWO, ONE, ZERO]);
    let output = generate(&mut decoder, &prefix(), &MtpConfig::default(), 2, &[]).expect("tokens");
    assert_eq!(output, vec![2, 1]);
    assert_eq!(decoder.pass, 3);
}

#[test]
fn a_run_without_budget_only_feeds_the_prefix() {
    let mut decoder = Scripted::new(&[TWO]);
    let output = generate_mrope(&mut decoder, &prefix(), &prefill_positions(), 0, &MtpConfig::default(), 0, &[2])
        .expect("tokens");
    assert_eq!(output, Vec::<u32>::new());
    assert_eq!(decoder.asked.len(), 2);
}

#[test]
fn an_end_token_at_once_is_the_whole_output() {
    let mut decoder = Scripted::new(&[TWO]);
    let output = generate(&mut decoder, &prefix(), &MtpConfig::default(), 5, &[2]).expect("tokens");
    assert_eq!(output, vec![2]);
}

#[test]
fn a_run_leaves_a_token_that_it_keeps_choosing() {
    let leading: &[f32] = &[0.1, 5.0, 3.8];
    let rows = vec![leading; 30];
    let mut decoder = Scripted::new(&rows);
    let output = generate(&mut decoder, &prefix(), &MtpConfig::default(), 8, &[]).expect("tokens");
    // 5.0 / 1.1^2 is still ahead of 3.8, and 5.0 / 1.1^3 is not; then the two take turns.
    assert_eq!(output, vec![1, 1, 1, 2, 1, 2, 1, 2]);
}

#[test]
fn a_run_ignores_the_intended_tokens_per_step() {
    let mut outputs = vec![];
    for steps in [1, 4, 100] {
        let config = MtpConfig { num_tokens_per_step: steps, ..MtpConfig::default() };
        let mut decoder = Scripted::new(&[TWO, ONE, ZERO]);
        outputs.push(generate(&mut decoder, &prefix(), &config, 3, &[0]).expect("tokens"));
        assert_eq!(decoder.pass, 3);
    }
    assert_eq!(outputs[0], outputs[1]);
    assert_eq!(outputs[1], outputs[2]);
}

fn failure(result: Result<Vec<u32>, CandleOcrError>) -> String {
    match result.expect_err("must fail") {
        CandleOcrError::InferenceFailed(text) => text,
        other => panic!("unexpected error {other:?}"),
    }
}

#[test]
fn every_failing_step_is_named() {
    let mut refused = Scripted::new(&[]);
    assert_eq!(
        failure(generate(&mut refused, &prefix(), &MtpConfig::default(), 5, &[])),
        "Prefill forward: script ended"
    );
    let mut refused = Scripted::new(&[]);
    assert_eq!(
        failure(generate_mrope(&mut refused, &prefix(), &prefill_positions(), 0, &MtpConfig::default(), 5, &[])),
        "Prefill forward: script ended"
    );
    let mut interrupted = Scripted::new(&[TWO]);
    assert_eq!(
        failure(generate(&mut interrupted, &prefix(), &MtpConfig::default(), 5, &[])),
        "Decode forward: script ended"
    );
    let mut model = Scripted::new(&[TWO]);
    model.embed_fails = true;
    let mut unembedded = model;
    assert_eq!(
        failure(generate(&mut unembedded, &prefix(), &MtpConfig::default(), 5, &[])),
        "Embed tokens: no table"
    );
    let mut empty = Scripted::new(&[&[]]);
    let config = MtpConfig { sample: true, ..MtpConfig::default() };
    assert_eq!(
        failure(generate(&mut empty, &prefix(), &config, 5, &[])),
        "Sampling: no scores to choose from"
    );
}

#[test]
fn a_prefix_without_a_length_is_candles_error() {
    let mut decoder = Scripted::new(&[TWO]);
    let flat = Tensor::zeros(6, DType::F32, &Device::Cpu).expect("flat prefix");
    let err = generate(&mut decoder, &flat, &MtpConfig::default(), 5, &[]).expect_err("no length");
    assert!(matches!(err, CandleOcrError::Candle(_)), "{err:?}");
    assert_eq!(decoder.asked, vec![Asked::Clear]);
}

#[test]
fn choosing_drops_the_batch_dimension_only() {
    let mut selector = TokenSelector::new(&MtpConfig::default().decode_config(1));
    let batched = row(TWO).reshape((1, 1, 3)).expect("reshape");
    assert_eq!(choose_token(&mut selector, &batched, &[]).expect("token"), 2);

    let block = Tensor::zeros((1, 2, 3), DType::F32, &Device::Cpu).expect("block");
    match choose_token(&mut selector, &block, &[]).expect_err("two positions") {
        CandleOcrError::InvalidTensorShape { got, .. } => assert_eq!(got, "[2, 3]"),
        other => panic!("unexpected error {other:?}"),
    }

    let scalar = Tensor::from_slice(&[1.0f32], (), &Device::Cpu).expect("scalar");
    match choose_token(&mut selector, &scalar, &[]).expect_err("no batch") {
        CandleOcrError::InferenceFailed(text) => assert!(text.starts_with("Squeeze batch: "), "{text}"),
        other => panic!("unexpected error {other:?}"),
    }
}

#[test]
fn step_tensors_have_the_shapes_that_the_model_reads() {
    let positions = make_text_step_positions(9, &Device::Cpu).expect("positions");
    assert_eq!(positions.dims(), &[3, 1, 1]);
    assert_eq!(positions.dtype(), DType::U32);
    assert!(positions.device().is_cpu());
    assert_eq!(positions.to_vec3::<u32>().expect("positions"), triple(9));

    let tokens = make_token_tensor(4_000_000_000, &Device::Cpu).expect("tokens");
    assert_eq!(tokens.dims(), &[1, 1]);
    assert_eq!(tokens.dtype(), DType::I64);
    assert!(tokens.device().is_cpu());
    assert_eq!(tokens.to_vec2::<i64>().expect("tokens"), vec![vec![4_000_000_000]]);
}

#[test]
fn positions_wrap_around_at_their_limit() {
    let mut decoder = Scripted::new(&[TWO, ONE, ZERO]);
    let output = generate_mrope(&mut decoder, &prefix(), &prefill_positions(), u32::MAX, &MtpConfig::default(), 2, &[])
        .expect("tokens");
    assert_eq!(output, vec![2, 1]);
    let asked = decoder.asked;
    assert_eq!(asked[3], Asked::Forward(triple(u32::MAX)));
    assert_eq!(asked[5], Asked::Forward(triple(0)));
}

#[test]
fn a_greedy_run_on_an_empty_row_reports_candles_error() {
    let empty = Tensor::zeros(0, DType::F32, &Device::Cpu).expect("empty row");
    let mut selector = TokenSelector::new(&MtpConfig::default().decode_config(1));
    let text = match selector.next_token(&empty, &[]).expect_err("empty") {
        CandleOcrError::InferenceFailed(text) => text,
        other => panic!("unexpected error {other:?}"),
    };
    assert!(text.starts_with("Sampling: "), "{text}");
    assert_ne!(text, "Sampling: no scores to choose from");
    let mut decoder = Scripted::new(&[&[]]);
    let run = failure(generate(&mut decoder, &prefix(), &MtpConfig::default(), 5, &[]));
    assert_eq!(run.lines().next(), text.lines().next());
}

#[test]
fn one_selector_draws_every_token_of_a_sampling_run() {
    // A wide nucleus at a high temperature: the draws depend on the seed, on the order of the rows
    // and on the penalty over the whole output.
    let config = MtpConfig {
        sample: true,
        top_p: single(1.0),
        temperature: single(4.0),
        repetition_penalty: single(1.5),
        ..MtpConfig::default()
    };
    let scores: &[f32] = &[3.0, 2.5, 2.0, 1.5, 1.0];
    let rows = vec![scores; 40];
    let mut decoder = Scripted::new(&rows);
    let output = generate(&mut decoder, &prefix(), &config, 30, &[]).expect("tokens");

    let mut selector = TokenSelector::new(&config.decode_config(30));
    let mut expected: Vec<u32> = vec![];
    while expected.len() < 30 {
        let token = selector.next_token(&row(scores), &expected).expect("token");
        expected.push(token);
    }
    assert_eq!(output, expected);
    assert!(output.iter().any(|&t| t != output[0]), "{output:?}");

    let mut again = Scripted::new(&rows);
    let placed = generate_mrope(&mut again, &prefix(), &prefill_positions(), 6, &config, 30, &[]).expect("tokens");
    assert_eq!(placed, expected);
}

#[test]
fn a_run_goes_on_with_the_selector_that_it_is_given() {
    let config = MtpConfig {
        sample: true,
        top_p: single(1.0),
        temperature: single(4.0),
        ..MtpConfig::default()
    };
    let scores: &[f32] = &[3.0, 2.5, 2.0, 1.5, 1.0];
    let rows = vec![scores; 40];

    // Two runs with one selector draw what one selector draws in two loops.
    let mut given = TokenSelector::new(&config.decode_config(20));
    let first = generate_with(&mut Scripted::new(&rows), &mut given, &prefix(), 20, &[]).expect("tokens");
    let second =
        generate_mrope_with(&mut Scripted::new(&rows), &mut given, &prefix(), &prefill_positions(), 6, 20, &[])
            .expect("tokens");
    let mut selector = TokenSelector::new(&config.decode_config(20));
    for output in [&first, &second] {
        let mut expected: Vec<u32> = vec![];
        while expected.len() < 20 {
            let token = selector.next_token(&row(scores), &expected).expect("token");
            expected.push(token);
        }
        assert_eq!(output, &expected);
    }
    assert_ne!(first, second);

    // A fresh selector repeats the first run.
    let again = generate(&mut Scripted::new(&rows), &prefix(), &config, 20, &[]).expect("tokens");
    assert_eq!(again, first);
}

#[test]
fn a_refused_prefix_leaves_the_selector_alone() {
    let config = MtpConfig { sample: true, top_p: single(1.0), temperature: single(4.0), ..MtpConfig::default() };
    let mut disturbed = TokenSelector::new(&config.decode_config(5));
    let mut plain = TokenSelector::new(&config.decode_config(5));
    assert_eq!(
        failure(generate_with(&mut Scripted::new(&[]), &mut disturbed, &prefix(), 5, &[])),
        "Prefill forward: script ended"
    );
    let flat = Tensor::zeros(6, DType::F32, &Device::Cpu).expect("flat prefix");
    generate_with(&mut Scripted::new(&[]), &mut disturbed, &flat, 5, &[]).expect_err("no length");
    for _ in 0..32 {
        let scores = row(&[0.1, 0.9, 0.3]);
        assert_eq!(
            disturbed.next_token(&scores, &[]).expect("token"),
            plain.next_token(&scores, &[]).expect("token")
        );
    }
}

#[test]
fn the_limit_of_a_sampling_run_only_cuts_its_output() {
    let config = MtpConfig { sample: true, top_p: single(1.0), temperature: single(4.0), ..MtpConfig::default() };
    let scores: &[f32] = &[3.0, 2.5, 2.0, 1.5, 1.0];
    let rows = vec![scores; 20];
    let whole = generate(&mut Scripted::new(&rows), &prefix(), &config, 12, &[4]).expect("tokens");
    for limit in 0..12 {
        let cut = generate(&mut Scripted::new(&rows), &prefix(), &config, limit, &[4]).expect("tokens");
        assert_eq!(cut, whole[..limit.min(whole.len())]);
    }
}

#[test]
fn sampling_at_no_temperature_is_greedy() {
    for temperature in [0.0, -1.0] {
        let config = MtpConfig { sample: true, temperature: single(temperature), ..MtpConfig::default() };
        let output = generate(&mut Scripted::new(&[TWO, ONE, ZERO]), &prefix(), &config, 9, &[0]).expect("tokens");
        assert_eq!(output, vec![2, 1, 0]);
    }
}

#[test]
fn an_end_token_that_is_drawn_at_once_is_the_whole_output() {
    let config = MtpConfig { sample: true, top_p: single(1.0), temperature: single(4.0), ..MtpConfig::default() };
    let mut decoder = Scripted::new(&[TWO]);
    let output = generate(&mut decoder, &prefix(), &config, 5, &[0, 1, 2]).expect("tokens");
    assert_eq!(output.len(), 1);
    assert_eq!(decoder.asked, vec![Asked::Clear, Asked::ForwardAt(0)]);
}

#[test]
fn the_limit_of_a_greedy_run_only_cuts_its_output() {
    let rows = [TWO, ONE, TWO, ONE, ZERO];
    let whole = generate(&mut Scripted::new(&rows), &prefix(), &MtpConfig::default(), 10, &[0]).expect("tokens");
    assert_eq!(whole, vec![2, 1, 2, 1, 0]);
    for limit in 0..5 {
        let cut = generate(&mut Scripted::new(&rows), &prefix(), &MtpConfig::default(), limit, &[0]).expect("tokens");
        assert_eq!(cut, whole[..limit]);
    }
}

#[test]
fn a_decoder_can_be_used_again_and_both_loops_agree() {
    let rows = [TWO, ONE, ZERO, TWO, ONE, ZERO];
    let mut decoder = Scripted::new(&rows);
    let first = generate(&mut decoder, &prefix(), &MtpConfig::default(), 9, &[0]).expect("tokens");
    let second =
        generate_mrope(&mut decoder, &prefix(), &prefill_positions(), 6, &MtpConfig::default(), 9, &[0]).expect("tokens");
    assert_eq!(first, vec![2, 1, 0]);
    assert_eq!(first, second);
}

#[test]
fn listed_tokens_are_found() {
    assert!(is_listed(3, &[1, 3]));
    assert!(!is_listed(2, &[1, 3]));
    assert!(!is_listed(2, &[]));
}

#[test]
fn a_sampling_run_draws_from_a_narrow_nucleus() {
    let config = MtpConfig {
        sample: true,
        top_p: single(0.2),
        temperature: single(30.0),
        ..MtpConfig::default()
    };
    let mut decoder = Scripted::new(&[TWO, ONE, ZERO]);
    assert_eq!(generate(&mut decoder, &prefix(), &config, 3, &[0]).expect("tokens"), vec![2, 1, 0]);
}
