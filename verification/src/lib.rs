//! Tap-code cipher: a 5×5 letter grid maps each character to a pair of tap
//! counts (row+1, col+1), rendered with a configurable tap marker and
//! decoded back by token lengths. Encode, decode and grid construction are
//! specified and verified in `cipher`; the text grammar lives in `text`;
//! the round-trip laws are proved in `laws`.
pub mod cipher;
pub mod laws;
pub mod text;

pub use cipher::check_grid_file_content;
pub use cipher::Tapcode;
pub use cipher::TapcodeError;
