use vstd::prelude::*;

pub mod app;
pub mod codec;
pub mod decode;
pub mod encode;
pub mod roundtrip;
pub mod text;
pub mod ui;

pub use app::App;

verus! {

} // verus!
