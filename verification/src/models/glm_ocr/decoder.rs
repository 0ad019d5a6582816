//! The language model of GLM-OCR as its decoding loop drives it.

use vstd::prelude::*;

use candle_core::Tensor;

verus! {

/// One request to the model, with the model's answer.
pub enum DecoderCall {
    ClearCache,
    Embed { tokens: Tensor, answer: Result<Tensor, candle_core::Error> },
    Forward { embeds: Tensor, positions: Tensor, answer: Result<Tensor, candle_core::Error> },
    ForwardAt { embeds: Tensor, offset: usize, answer: Result<Tensor, candle_core::Error> },
}

/// A language model with a key-value cache.
///
/// Nothing is assumed of what a model computes. The contracts only say that a request to the model
/// enters its record, with the answer, so that a loop can say what it asked of the model.
pub trait Glm4Decoder {
    /// The requests that reached the model so far, oldest first. The record exists in contracts
    /// only, so a model whose code is not verified need not define one. A verified model has to:
    /// the value that stands here is fixed, and no request can enter it.
    open spec fn calls(&self) -> Seq<DecoderCall> {
        vstd::pervasive::arbitrary()
    }

    /// Forgets every token that was fed.
    fn clear_kv_cache(&mut self)
        ensures
            final(self).calls() == old(self).calls().push(DecoderCall::ClearCache),
    ;

    /// Looks up the embeddings of a batch of token ids.
    fn embed_tokens(&mut self, tokens: &Tensor) -> (answer: Result<Tensor, candle_core::Error>)
        ensures
            final(self).calls() == old(self).calls().push(
                (DecoderCall::Embed { tokens: *tokens, answer }),
            ),
    ;

    /// Feeds embeddings at explicit positions and returns the logits of the last one.
    fn forward_embeds(&mut self, embeds: &Tensor, position_ids: &Tensor) -> (answer: Result<
        Tensor,
        candle_core::Error,
    >)
        ensures
            final(self).calls() == old(self).calls().push(
                (DecoderCall::Forward { embeds: *embeds, positions: *position_ids, answer }),
            ),
    ;

    /// Feeds embeddings behind `seqlen_offset` earlier tokens and returns the logits of the last
    /// one.
    fn forward_embeds_with_offset(&mut self, embeds: &Tensor, seqlen_offset: usize) -> (answer:
        Result<Tensor, candle_core::Error>)
        ensures
            final(self).calls() == old(self).calls().push(
                (DecoderCall::ForwardAt { embeds: *embeds, offset: seqlen_offset, answer }),
            ),
    ;
}

}
