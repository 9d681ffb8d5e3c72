pub mod codec;
pub mod decode;
pub mod encode;
pub mod laws;
pub mod region;
pub mod text;
