//! The sampler of candle, with a record of what it drew.
//!
//! The record exists in contracts only. Nothing outside this module can write it, and the functions
//! that do make one call to candle's sampler each. So the record tells everything that the sampler
//! was asked since its generator was seeded.

use vstd::prelude::*;

use candle_core::{DType, Device, Tensor};
use candle_transformers::generation::{LogitsProcessor, Sampling};

use crate::float::{F32, F64};

verus! {

/// Candle's sampler, which holds a random number generator.
#[verifier::external_type_specification]
#[verifier::external_body]
pub struct ExLogitsProcessor(LogitsProcessor);

/// One row of scores that was handed to a sampler, with its answer.
pub struct Draw {
    pub scores: Seq<F32>,
    pub answer: Result<u32, candle_core::Error>,
}

/// A sampler of candle, the settings that it was made with, and what it drew.
pub struct Sampler {
    processor: LogitsProcessor,
    seed: u64,
    nucleus: Option<(F64, F64)>,
    draws: Ghost<Seq<Draw>>,
}

impl Sampler {
    /// The seed of the random number generator.
    pub closed spec fn seed(&self) -> u64 {
        self.seed
    }

    /// Nucleus mass and temperature, or nothing when the highest score is taken.
    pub closed spec fn nucleus(&self) -> Option<(F64, F64)> {
        self.nucleus
    }

    /// The rows handed over since the generator was seeded, oldest first.
    pub closed spec fn draws(&self) -> Seq<Draw> {
        self.draws@
    }

    /// Whether the sampler draws from a nucleus.
    pub fn has_nucleus(&self) -> (r: bool)
        ensures
            r == (self.nucleus() is Some),
    {
        self.nucleus.is_some()
    }
}

/// `LogitsProcessor::from_sampling` with `Sampling::ArgMax` makes a sampler that takes the
/// highest score, and seeds its generator.
#[verifier::external_body]
pub(crate) fn greedy_sampler(seed: u64) -> (r: Sampler)
    ensures
        r.seed() == seed,
        r.nucleus() is None,
        r.draws() == Seq::<Draw>::empty(),
{
    let processor = LogitsProcessor::from_sampling(seed, Sampling::ArgMax);
    Sampler { processor, seed, nucleus: None, draws: Ghost(Seq::empty()) }
}

/// `LogitsProcessor::from_sampling` with `Sampling::TopP` makes a sampler that draws from the
/// nucleus, and seeds its generator. The two numbers arrive as bit patterns and become candle's
/// numbers through tensors of one element, which does not fail.
#[verifier::external_body]
pub(crate) fn nucleus_sampler(seed: u64, p: F64, temperature: F64) -> (r: Result<
    Sampler,
    candle_core::Error,
>)
    ensures
        r is Ok,
        r matches Ok(sampler) ==> {
            &&& sampler.seed() == seed
            &&& sampler.nucleus() == Some((p, temperature))
            &&& sampler.draws() == Seq::<Draw>::empty()
        },
{
    let nucleus = Some((p, temperature));
    let p = Tensor::from_raw_buffer(&p.bits.to_ne_bytes(), DType::F64, &[], &Device::Cpu)?.to_scalar()?;
    let temperature =
        Tensor::from_raw_buffer(&temperature.bits.to_ne_bytes(), DType::F64, &[], &Device::Cpu)?.to_scalar()?;
    let processor = LogitsProcessor::from_sampling(seed, Sampling::TopP { p, temperature });
    Ok(Sampler { processor, seed, nucleus, draws: Ghost(Seq::empty()) })
}

/// `LogitsProcessor::sample` chooses a token from a row of scores. The sampler keeps its settings,
/// and its record grows by this row and the answer.
///
/// A greedy sampler reports the first of the highest scores of a row in main memory, passing over
/// NaN unless the row starts with one, and refuses an empty row. A nucleus sampler draws: which
/// token it draws is left open, and that it is one of the row is all that holds of every draw. It
/// panics on an empty row, which `requires` leaves out. What a greedy sampler reports for a row on
/// another device is left open. Either sampler refuses a row in main memory in a packed format.
/// `Tensor::to_dtype` and `Tensor::force_contiguous` copy the row first, because candle divides by
/// the stride of a row of one score, which is zero in a broadcast view.
#[verifier::external_body]
pub(crate) fn sample_row(sampler: &mut Sampler, row: &Tensor) -> (r: Result<u32, candle_core::Error>)
    requires
        crate::tensor::tensor_dims(*row).len() == 1,
        old(sampler).nucleus() is Some ==> crate::tensor::tensor_scores(*row).len() > 0,
    ensures
        final(sampler).seed() == old(sampler).seed(),
        final(sampler).nucleus() == old(sampler).nucleus(),
        final(sampler).draws() == old(sampler).draws().push(
            (Draw { scores: crate::tensor::tensor_scores(*row), answer: r }),
        ),
        old(sampler).nucleus() is None && crate::tensor::tensor_in_memory(*row) ==> {
            &&& crate::tensor::tensor_scores(*row).len() == 0 ==> r is Err
            &&& 0 < crate::tensor::tensor_scores(*row).len() <= 0x1_0000_0000 ==> r is Ok
            &&& 0 < crate::tensor::tensor_scores(*row).len() <= 0x1_0000_0000 && r is Ok
                ==> crate::models::decode::leads(crate::tensor::tensor_scores(*row), r->Ok_0 as int)
        },
        crate::tensor::only_stored(*row) ==> r is Err,
        old(sampler).nucleus() is Some && r is Ok ==> r->Ok_0 < crate::tensor::tensor_scores(
            *row,
        ).len(),
{
    let copy = match row.to_dtype(DType::F32) {
        Ok(scores) => scores.force_contiguous(),
        Err(e) => Err(e),
    };
    let answer = match copy {
        Ok(copy) => sampler.processor.sample(&copy),
        Err(e) => Err(e),
    };
    proof {
        sampler.draws@ = sampler.draws@.push(Draw { scores: crate::tensor::tensor_scores(*row), answer });
    }
    answer
}

}
