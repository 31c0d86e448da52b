use vstd::prelude::*;

pub mod text;
pub mod thinking;
pub mod thinking_laws;
pub mod offload;
pub mod asr;
pub mod companion;
pub mod kokoro;
