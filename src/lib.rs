//! Parser combinators evaluated directly against a forkable byte cursor.
pub mod error;
pub mod source;
pub mod value;
pub mod parse;
pub mod ops;
pub mod laws;

pub use error::{DynError, Error, HardError};
pub use parse::{Mapper, Parse, ParseImpl, PartialMapper, Predicate, TryMapper};
pub use source::{from_slice, SliceSource, Source, SourceBase};
pub use value::{Concat, Val, Value};
pub use vstd::view::View;
