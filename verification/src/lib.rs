//! Typed, dynamically shaped structured values for assembling log records:
//! a recursive tagged-union value model with total conversions from native
//! scalar and collection types, an adapter that turns ordered (name, value)
//! pair lists of any length into records, and an encoder that turns a
//! record into the token sequence of an interchange-format payload.

pub mod encode;
pub mod gql;
pub mod record;
pub mod value;
