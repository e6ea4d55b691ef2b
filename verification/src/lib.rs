//! Endian-aware conversion between raw byte buffers and fixed-width integers.
//!
//! The [`Endian`] selector selects a byte order (least-significant byte first,
//! or most-significant byte first) and offers one read and one write operation
//! per supported integer width. The `repr` module holds the mathematical model
//! of those byte layouts, together with the laws that relate them.

mod repr;
mod endian;

pub use endian::Endian;
pub use endian::lemma_encode_then_decode;
pub use endian::lemma_decode_then_encode;
pub use endian::lemma_signed_round_trip;
pub use endian::lemma_orders_encode_reversed;
pub use endian::lemma_orders_decode_reversed;
pub use endian::lemma_single_byte_orders_agree;
pub use repr::le_val;
pub use repr::be_val;
pub use repr::le_bytes;
pub use repr::be_bytes;
pub use repr::pow256;
pub use repr::to_signed;
pub use repr::to_unsigned;
