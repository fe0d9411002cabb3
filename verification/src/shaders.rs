//! Where the shaders are loaded from.
use std::path::PathBuf;
use vstd::prelude::*;

verus! {

#[verifier::external_type_specification]
#[verifier::external_body]
pub struct ExPathBuf(PathBuf);

/// The directory that holds the shader sources.
pub struct ShaderConfig {
    pub root_path: PathBuf,
}

} // verus!
