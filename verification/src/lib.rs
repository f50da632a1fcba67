pub mod chat;
pub mod json;
pub mod protocol;
pub mod text;
pub mod transport;
pub mod virtqueue_layout;
