//! A small forward-error-correction toolkit on sequences of binary symbols:
//! a parameterized repetition code, a Hamming(7,4)-style block code, and a
//! combinator that chains codecs into a pipeline.

pub mod encodings;
