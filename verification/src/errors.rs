//! The errors of the engine.
use crate::entities::EntityId;
use vstd::prelude::*;

verus! {

/// What went wrong.
#[derive(Clone, PartialEq, Eq, Debug)]
pub enum ErrorKind {
    CreateWindow(String),
    ResourceIo(&'static str, &'static str),
    Shader { log: String, needed_by: String },
    UnsupportedFeature { needed_by: String },
    OutOfVideoMemory { needed_by: String },
    NoSuchEntity { context: &'static str, needed_by: Option<&'static str>, id: EntityId },
    NoSuchComponent { context: &'static str, needed_by: Option<&'static str>, id: EntityId },
    Context(&'static str),
    System(&'static str, &'static str),
}

pub type Error = ErrorKind;

pub type Result<T> = core::result::Result<T, Error>;

} // verus!
