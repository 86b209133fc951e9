//! Unique identifier generation: UUID v4/v7, ULID, Snowflake and NanoID,
//! with the bit layouts, encodings and generator state machines stated as
//! contracts and proved.

pub mod rng;
pub mod clock;
pub mod snowflake;
pub mod nanoid;
mod strings;
pub mod uuid;
pub mod ulid;
pub mod order;
