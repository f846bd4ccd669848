//! Numeric humanization: grouped-digit strings ("1,234,567"), word-scaled
//! magnitudes ("1.2 billion") and byte-size strings ("3.0 kB", "1.0 MiB",
//! "2.9K"), for values given as decimal text, singly or over whole
//! collections.
//!
//! Every input is first classified once — a recognized special spelling
//! (`inf`, `+inf`, `-inf`, `nan`, case-insensitive), a signed decimal
//! number, or opaque text carried through unchanged — and every formatter
//! then works on an exact decimal value: a sign and digit strings for the
//! integer and fractional parts.  Scaling into magnitude or unit buckets,
//! rounding half to even at a precision directive, digit grouping and the
//! final assembly are all verified digit arithmetic; the formatters'
//! contracts state the exact output text for every input.

pub mod batch;
pub mod canon;
pub mod digits;
pub mod filesize;
pub mod format_utils;
pub mod laws;
pub mod number;
pub mod text;
pub mod value;

pub use batch::intcomma_seq;
pub use batch::intword_seq;
pub use batch::naturalsize_seq;
pub use filesize::naturalsize;
pub use format_utils::Classified;
pub use format_utils::SpecialKind;
pub use format_utils::apply_printf_style;
pub use format_utils::classify;
pub use format_utils::format_not_finite;
pub use format_utils::normalize_special_values;
pub use format_utils::parse_value;
pub use number::intcomma;
pub use number::intword;
pub use text::add_commas;
pub use value::Decimal;
