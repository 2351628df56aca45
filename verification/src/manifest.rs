//! What a module of the library says of itself: its methods, and the
//! artifacts that they take and give.

use vstd::prelude::*;
use crate::trace::{rendering, Trace};

verus! {

/// The description of an artifact that a method takes or gives.
#[derive(Debug, Clone, PartialEq, Eq)]
pub struct ArtifactManifest {
    /// The name of the artifact.
    pub name: String,
    /// The type of the artifact.
    pub typ: String,
}

/// The description of a method of a module.
#[derive(Debug, Clone, PartialEq, Eq)]
pub struct MethodManifest {
    /// The name of the method.
    pub name: String,
    /// What the method does.
    pub description: String,
    /// The artifacts that the method takes.
    pub inputs: Vec<ArtifactManifest>,
    /// The artifacts that the method gives.
    pub results: Vec<ArtifactManifest>,
    /// The errors that the method may give.
    pub errors: Vec<ArtifactManifest>,
}

/// The description of a module.
#[derive(Debug, Clone, PartialEq, Eq)]
pub struct ModuleManifest {
    /// The name of the module.
    pub name: String,
    /// What the module does.
    pub description: String,
    /// The version of the module.
    pub version: String,
    /// The methods of the module.
    pub methods: Vec<MethodManifest>,
}

/// A module that describes itself.
pub trait Module {
    /// The description of the module.
    fn manifest() -> ModuleManifest;
}

/// A value that the methods of the modules take or give, and that can be
/// shown as a text.
pub trait Artifact {
    /// The artifact as a text.
    fn text(&self) -> String;
}

impl Artifact for Trace {
    /// The trace as a text: each state, with an empty line behind it.
    fn text(&self) -> (out: String)
        ensures
            out@ == rendering(self@),
    {
        self.render()
    }
}

} // verus!
