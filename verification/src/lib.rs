//! Fixed-step gain adjustment for AAC audio in M4A/MP4 files.
pub mod aac_codebooks;
pub mod analysis;
pub mod audio_config;
pub mod band_laws;
pub mod bit_reader;
pub mod bits;
pub mod block_laws;
pub mod block_model;
pub mod box_laws;
pub mod box_model;
pub mod channel_laws;
pub mod codebook_laws;
pub mod codebook_order;
pub mod config_laws;
pub mod error;
pub mod file_agreement;
pub mod file_analysis;
pub mod file_laws;
pub mod file_patch;
pub mod file_patch_laws;
pub mod frame_laws;
pub mod frame_model;
pub mod gain;
pub mod gain_laws;
pub mod huffman;
pub mod ics;
pub mod ics_settled;
pub mod ics_syntax;
pub mod location;
pub mod metadata;
pub mod movie_laws;
pub mod mp4;
pub mod raw_block;
pub mod raw_syntax;
pub mod reanalysis;
pub mod refusal_laws;
pub mod relocation;
pub mod sample_table;
pub mod scan_laws;
pub mod table_laws;
pub mod table_model;
pub mod text;
pub mod text_laws;
pub mod well_formed;
pub mod well_formed_laws;

pub use error::Error;
pub use gain::aac_apply_gain;
pub use gain::try_aac_apply_gain;
