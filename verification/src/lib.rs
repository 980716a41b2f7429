//! Japanese manga OCR: the verified core of the recognition pipeline.
//!
//! The library holds the decisions of the pipeline: where the model files
//! live, how an image crop becomes the encoder's pixel tensor, how the
//! line-indexed vocabulary is read and how token ids become text, which
//! tokens the n-gram rule forbids, how the beam search moves from step to
//! step, and how the crop's size calibrates the confidence.  Scores are
//! carried through the beam search as values of a type parameter and are
//! never computed here.

use vstd::prelude::*;

pub mod beam;
pub mod calibration;
pub mod model_dir;
pub mod ngram;
pub mod preprocess;
pub mod tensor;
pub mod transcript;
pub mod vocab;

verus! {

/// Side length, in pixels, of the square image the encoder reads.
pub const IMG_SIZE: usize = 224;

/// Token id that starts every decoder sequence (`[CLS]`).
pub const DECODER_START_TOKEN_ID: i64 = 2;

/// Token id that ends a sequence (`[SEP]`).
pub const EOS_TOKEN_ID: i64 = 3;

/// Decoder steps allowed unless the caller sets another limit.
pub const DEFAULT_MAX_DECODE_STEPS: usize = 50;

/// Number of beams kept by the beam search.
pub const NUM_BEAMS: usize = 4;

/// No n-gram of this size may occur twice in a generated sequence.
pub const NO_REPEAT_NGRAM: usize = 3;

/// Ids below this one are special tokens (`[PAD]`, `[UNK]`, `[CLS]`,
/// `[SEP]`, `[MASK]`, `<unused0>`..`<unused9>`) and are never printed.
pub const FIRST_TEXT_TOKEN_ID: i64 = 15;

} // verus!
