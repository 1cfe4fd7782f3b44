//! Compilation units: the named, independently buildable packages that the
//! analysis runs over, together with the rules for building one from the
//! fields of a discovered manifest.

use vstd::prelude::*;

verus! {

/// One discovered package: its unique name, an informational description,
/// the names of the units it declares dependencies on (in declaration
/// order), and the location of its manifest, retained for diagnostics.
#[derive(Debug, Clone, Hash, PartialEq, Eq)]
pub struct CompilationUnit {
    pub name: String,
    pub description: String,
    pub dependencies: Vec<String>,
    pub manifest: String,
}

/// Why a discovered manifest could not be turned into a compilation unit.
/// A single malformed manifest aborts the whole run.
#[derive(Debug, Clone, Copy, PartialEq, Eq, Structural)]
pub enum ManifestError {
    /// The manifest has no package name; a unit cannot exist without one.
    MissingPackageName,
}

impl ManifestError {
    /// A human-readable description of the failure, for terminal reporting.
    pub fn message(&self) -> (r: &'static str)
        ensures
            r@ == "manifest is missing a package name"@,
    {
        match self {
            ManifestError::MissingPackageName => "manifest is missing a package name",
        }
    }
}

impl CompilationUnit {
    /// Builds a unit from the raw fields extracted out of a manifest.
    ///
    /// A manifest without a package name is rejected; a missing description
    /// is replaced by a placeholder; the dependency names are kept exactly
    /// as declared, resolvable or not.
    pub fn from_manifest_fields(
        name: Option<String>,
        description: Option<String>,
        dependencies: Vec<String>,
        manifest: String,
    ) -> (r: Result<CompilationUnit, ManifestError>)
        ensures
            r is Ok <==> name is Some,
            r is Ok ==> {
                let u = r->Ok_0;
                &&& u.name@ == name->0@
                &&& u.description@ == (match description {
                    Some(d) => d@,
                    None => "<no description>"@,
                })
                &&& u.dependencies@ == dependencies@
                &&& u.manifest@ == manifest@
            },
            r is Err ==> r->Err_0 == ManifestError::MissingPackageName,
    {
        match name {
            Some(name) => Ok(
                CompilationUnit {
                    name,
                    description: match description {
                        Some(d) => d,
                        None => "<no description>".to_owned(),
                    },
                    dependencies,
                    manifest,
                },
            ),
            None => Err(ManifestError::MissingPackageName),
        }
    }
}

} // verus!
