//! Reserve a run of filler bytes inside an artifact, find it again later,
//! and pack named byte blobs into it in a self-describing layout.
pub mod be;
pub mod decode;
pub mod encode;
pub mod error;
pub mod map;
pub mod placeholder;
pub mod round_trip;

pub use decode::{get_data_section_by_key, iter_data_section};
pub use encode::{get_data_write_required_len, write_to_included_section, DataToWrite};
pub use error::Error;
pub use map::{get_all_data_sections, DataSections};
pub use placeholder::{generate_included_data, get_weird_indices};
