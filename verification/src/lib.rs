//! HorizonCast: the logic of casting a screen or a media file to a renderer on the local
//! network, with contracts that Verus checks.

#![allow(unused_imports)]

pub mod bytes;
pub mod capture;
pub mod cast;
pub mod discovery;
pub mod encode;
pub mod net;
pub mod pipeline;
pub mod sink;
pub mod text;
