//! A small engine for physical-unit arithmetic: unit signatures built from
//! atomic units with integer exponents and an exact rational scale factor.
#![verifier::loop_isolation(false)]

pub mod ast;
pub mod common;
pub mod expand;
pub mod folder;
pub mod interpreter;
pub mod laws;
pub mod parser;
pub mod register;
pub mod scale;
pub mod text;
pub mod units;
