//! Token selection and decoding for OCR models that run on candle.
//!
//! - [`models::decode`] chooses one token from a row of scores, with a repetition penalty.
//! - [`models::glm_ocr`] runs the decoding loop of GLM-OCR.
//! - [`models::laws`] and [`models::pressure`] prove what holds of every choice and every run, and
//!   [`models::agreement`] what holds of two. [`models::meaning`] tells what each operation amounts
//!   to in terms of its inputs and results.
//! - [`float`] holds the numbers as bit patterns, with verified IEEE 754 arithmetic.
//! - [`tensor`] and [`sampler`] are the boundary to candle, which is taken on trust.

#![allow(unused_imports)]

pub mod error;
pub mod float;
pub mod models;
pub mod sampler;
pub mod tensor;
