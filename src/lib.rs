//! Dispatch layer of a tensor compute backend: device buffers shared between
//! tensor handles, a memoizing kernel registry, in-place versus allocating
//! kernels, broadcasting, reductions, concatenation, slicing, gather and
//! scatter, and the boolean and integer facades, all over 32-bit signed
//! elements.
pub mod shape;
pub mod context;
pub mod tensor;
pub mod elementwise;
pub mod numeric;
pub mod reduce;
pub mod base;
pub mod cat;
pub mod bool_ops;
pub mod slice;
pub mod index;
pub mod int_ops;
pub mod mask;
pub mod gather;
pub mod kernel;
pub mod ownership;
