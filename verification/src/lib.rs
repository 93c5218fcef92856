pub mod data;
pub mod de;
pub mod err;
pub mod laws;
pub mod ser;
pub(crate) mod text;

pub use data::{escape_char, parse_code, CQCode};
pub use de::from_str;
pub use err::Error;
pub use ser::to_string;
