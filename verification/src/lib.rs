//! A synthetic video source, the stream that carries it, its rendering as text in
//! a terminal, and a fleet of agents that send it.

pub mod binary64;
pub mod codec;
pub mod fleet;
pub mod font;
pub mod gateway;
pub mod jpeg;
pub mod preview;
pub mod receiver;
pub mod render;
pub mod sender;
pub mod text;
pub mod video;
pub mod wire;

pub use wire::read_frame;
pub use wire::read_meta;
pub use wire::write_frame;
pub use wire::write_meta;
pub use wire::StreamMeta;
pub use wire::ALPN;
pub use wire::FPS;
pub use wire::HEIGHT;
pub use wire::WIDTH;
