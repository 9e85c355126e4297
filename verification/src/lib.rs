use vstd::prelude::*;

pub mod accumulate;
pub mod advanced;
pub mod along;
pub mod array;
pub mod arrayfmt;
pub mod assign;
pub mod bitwise;
pub mod broadcast;
pub mod buffers;
pub mod choosing;
pub mod counting;
pub mod diagonal;
pub mod grids;
pub mod index_math;
pub mod inserting;
pub mod intmath;
pub mod joining;
pub mod layout;
pub mod manipulation;
pub mod matrix;
pub mod moving;
pub mod methods;
pub mod multi_index;
pub mod npy;
pub mod parsing;
pub mod permute;
pub mod products;
pub mod random;
pub mod registry;
pub mod repr;
pub mod reshaping;
pub mod scatter;
pub mod searching;
pub mod shape;
pub mod shapes;
pub mod slicing;
pub mod splitting;
pub mod strides;
pub mod textfmt;
pub mod unique;

verus! {
} // verus!
