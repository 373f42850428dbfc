#![allow(non_snake_case)]

pub mod command;
pub mod error;
pub mod keyed;
pub mod laws;
pub mod matching;
pub mod paths;
pub mod records;
pub mod search;
pub mod sorting;
pub mod store;
pub mod text;
pub mod wrapper;
