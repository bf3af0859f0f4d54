//! Extendible hashing index over fixed-schema records, with a secondary
//! index of record identifiers and a fixed-width binary encoding.
//!
//! - `record`, `text`: the record and its bounded, null-padded text.
//! - `bucket_alt1`, `hash_alt1`: the primary index and its buckets.
//! - `bucket_alt2`, `hash_alt2`: the secondary index of record locations.
//! - `bucket`, `hash`: the same index handing back `(key, text)` pairs.
//! - `codec`: big-endian fields of the persisted format.
//! - `naming`: bucket labels; `render`: text drawings of the structure.
//! - `random_util`: random demo data.

pub mod bucket;
pub mod bucket_alt1;
pub mod bucket_alt2;
pub mod codec;
pub mod hash;
pub mod hash_alt1;
pub mod hash_alt2;
pub mod naming;
pub mod random_util;
pub mod record;
pub mod render;
pub mod text;
