//! Verified core of the photonyx FITS toolkit: block arithmetic, card and
//! header parsing, HDU discovery, region planning, table formats, header
//! writing, tile-compressed images and the `RICE_1` tile codec.

pub mod block;
pub mod text;
pub mod error;
pub mod source;
pub mod region;
pub mod rice;
pub mod rice_laws;
pub mod card;
pub mod card_laws;
pub mod header_laws;
pub mod builder_laws;
pub mod header;
pub mod hdu;
pub mod hdu_index;
pub mod table;
pub mod columns;
pub mod writer;
pub mod compress;
pub mod tile;
pub mod tile_writer;
pub mod bintable;
pub mod observation;
pub mod dates;
pub mod fingerprint;
pub mod fingerprint_laws;
pub mod frame;
pub mod cli;
pub mod config;
pub mod version;
