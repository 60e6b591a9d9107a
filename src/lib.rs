use vstd::prelude::*;

pub mod error;
pub mod zq;
pub mod upoly;
pub mod ntt;
pub mod ntt_lemmas;
pub mod butterfly;
pub mod rq;
pub mod padding;
pub mod aes;
pub mod matrix;
pub mod vector;
pub mod bfv;
pub mod kyber;

verus! {
}
