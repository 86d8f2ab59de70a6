//! Bank packing for Game Boy object files.
//!
//! The library reads the banked areas that an object file declares, packs
//! the areas of a set of object files into 16 KiB banks, and rewrites the
//! bank numbers inside the object text to match the packing.

pub mod cart;
pub mod extract;
pub mod numeral;
pub mod output;
pub mod pack;
pub mod pack_laws;
pub mod patch;
pub mod reserve;
pub mod text;

pub use cart::to_cart_size;
pub use extract::{parse_size, parse_sizes, ParseError};
pub use output::output_file_parts;
pub use pack::{
    get_bank_replacements, get_patch_max_bank, is_packable, pack_banks, pack_object_data, Bank,
    BankReplacement, ObjectBankData, ObjectData, ObjectPatch, PackError, BANK_SIZE,
};
pub use patch::{replace_all_banks, replace_bank, try_replace_all_banks};
pub use reserve::{parse_reserve, RESERVE_BANKS};
