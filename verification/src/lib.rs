//! Avelune media codecs and container.
pub mod audio;
pub mod bitstream;
pub mod buffer;
pub mod bytes;
pub mod config;
pub mod container;
pub mod handles;
pub mod kernels;
pub mod limits;
pub mod media;
pub mod mux;
pub mod player;
pub mod player_laws;
pub mod quality;
pub mod quality_laws;
pub mod reference;
pub mod video;
