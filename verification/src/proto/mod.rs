pub mod codec;
pub mod encode;
pub mod framing;
pub mod layout;
pub mod roundtrip;
pub mod seal;
