//! Codecs for the archive and asset formats of the Command & Conquer: Red Alert 2 family:
//! MIX archives (plain and Blowfish-encrypted), XCC name databases, PAL palettes and SHP
//! sprites.

mod archive;
mod bytes;
mod checksum;
mod crypto;
mod error;
mod game;
mod names_db;
mod palette;
mod shp;

pub use crate::checksum::{obfuscate_filename, ra2_crc};
pub use crate::crypto::{decrypt_blowfish_key, decrypt_mix_header, get_decryption_block_sizing, RSA_PUBLIC_MODULUS};
pub use crate::error::{MixError, Ra2Error};
pub use crate::game::CncGame;
pub use crate::names_db::{get_filenames_from_mix_db, MixDatabase, MIX_DB_FILENAME};
pub use crate::archive::{
    coalesce_input_files, get_file_map, load_global_mix_database, read, read_file_info, FileEntry,
    Header, MixPackage, XccPackage,
};
pub use crate::palette::{convert_6bit_to_8bit, convert_8bit_to_5or6bit, Palette, Ra2Color};
pub use crate::shp::{decompress_rle_data, read_file_header, RgbaImage, ShpFrame, ShpHeader, ShpReader};
