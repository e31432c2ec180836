//! A codec for the QOA ("Quite OK Audio") format: a lossy, fixed-bitrate
//! compression of 16-bit PCM samples into big-endian 64-bit words.
//!
//! Every function is verified against a contract stated over mathematical
//! models: integers, sequences of samples and sequences of words.

pub mod decoder;
pub mod descriptor;
pub mod encoder;
pub mod io;
pub mod laws;
pub mod layout;
pub mod lms;
pub mod pcm_io;
pub mod simd;
pub mod slice;
pub mod tables;
pub mod util;

pub use decoder::bytes as byte_decoder;
pub use decoder::{DecodeError, DecodeWriteKind, Decoder};
pub use descriptor::{DescriptorError, StreamDescriptor};
pub use encoder::slice_scaler::{LinearScaler, SliceScaler, VectorScaler};
pub use encoder::{EncodeError, Encoder, Frame, SimdEncoder, WriteKind};
pub use lms::QoaLmsState;
pub use pcm_io::{
    read_all, write_frame, Error, PcmBuffer, PcmFrame, PcmSink, PcmSource, PcmStream,
};
pub use slice::QoaSlice;
pub use tables::{div, DEQUANT_TABLE, FRAME_LEN, MAGIC, QUANT_TABLE, RECIP_TABLE, SF_TABLE, SLICE_LEN};
