//! A codec for fixed-layout big-endian network records.
//!
//! A record is described by a [`Schema`]: its fields in declaration order,
//! each a scalar, a fixed array or a bounded vector whose length another
//! field holds, possibly phantom, and optionally a field that holds the
//! length of the whole record. [`Schema::new`] checks the description and
//! compiles the order in which a reader can take the fields from the two
//! ends of a buffer, so that every vector's length is read before the
//! vector. Records are then encoded in declaration order and decoded by
//! running that plan against a [`NetStructDeserializer`].
use vstd::prelude::*;

pub mod bytes;
pub mod codec;
pub mod de;
pub mod deque;
pub mod elem;
pub mod err;
pub mod laws;
pub mod lemmas;
pub mod schema;
pub mod ser;

pub use codec::{from_slice, to_vec, Record};
pub use de::NetStructDeserializer;
pub use deque::{Deque, FixedSizeDeque, FixedSizeDequeIter};
pub use elem::{Atom, ElemTy, EnumSchema, IntTy};
pub use err::{DeriveErr, SerdeErr};
pub use schema::{Field, Schema, Shape, SizeUnit, Step, StructLen};
pub use ser::NetStructSerializer;
