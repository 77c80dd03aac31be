//! Reference codecs: plain, stateless counterparts that the production codecs are held against.
pub mod agreement;
pub mod audio;
pub mod bitstream;
pub mod container;
pub mod frame;
pub mod planes;
pub mod video_decoder;
pub mod video_encoder;
