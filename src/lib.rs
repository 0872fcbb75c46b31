//! A memoizing rule calculator: values of keys are derived from other keys by
//! rules, cached, and invalidated along the consumers of a key when it changes.
//! Around it stand the data types of a damage model whose keys the rules speak of.
pub mod calculator;
pub mod character;
pub mod damage;
pub mod element;
pub mod gi_calculator;
pub mod scalar;
pub mod stats;
