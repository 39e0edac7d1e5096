//! A minimal tensor memory substrate.
//!
//! Two layers: [`storage::Storage`] owns a contiguous, device-tagged buffer
//! of elements, and [`tensor::Tensor`] is a strided view descriptor (shape,
//! strides, offset) that maps multi-indices to linear positions of such a
//! buffer. Any number of views may describe one buffer; deriving a view
//! (reshape, transpose, slice) never moves or copies element data.

pub mod storage;
pub mod tensor;
