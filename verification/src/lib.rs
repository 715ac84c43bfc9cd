//! A fixed-capacity, stack-allocated UTF-8 string.
//!
//! [`MicroStr`] keeps its text in a byte array whose size is a const generic
//! parameter, and needs no heap. Text that does not fit is cut, always at a
//! character boundary, so that what the array holds stays valid UTF-8; a
//! single character that does not fit is refused.
//!
//! - [`utf8`] finds character boundaries in bytes.
//! - [`buffer`] holds the string type, its constructors, views and mutators.
//! - [`convert`] holds the conversions from and to heap strings and the
//!   printed forms.
//! - [`format`] holds the formatter traits: printing, and `write!` into a
//!   string.
//! - [`laws`] states and proves what holds of all of these together.
//! - [`core_specs`] holds the contracts that are taken on trust.

pub mod buffer;
pub mod convert;
pub mod core_specs;
pub mod format;
pub mod laws;
pub mod utf8;

pub use buffer::MicroStr;
pub use convert::CapacityError;
pub use utf8::utf8_truncator;
