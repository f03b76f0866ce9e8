//! An in-process key/value cache in which every written value carries a
//! time-to-live deadline, and a read classifies the key four ways: a fresh
//! value, a declared key with no value yet, a key never declared, or a
//! value whose deadline has passed.

pub mod cache;
pub mod outcome;
