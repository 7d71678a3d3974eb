//! Search for small sorting networks: output sets of comparator networks,
//! subsumption of output sets under channel permutation, and an index that
//! keeps the minimal output sets of a layer.

pub mod abstraction;
pub mod antichain;
pub mod bits;
pub mod fixed_vec;
pub mod implications;
pub mod layer;
pub mod matching;
pub mod output_set;
pub mod permutation;
pub mod rounds;
pub mod solution;
pub mod sorting;
pub mod subsume_index;
pub mod subsumption;
pub mod value_seq;
