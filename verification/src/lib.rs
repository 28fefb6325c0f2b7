//! Dependency update checking: semantic-version resolution, requirement
//! rewriting, manifest editing and the decisions of the update workflow.

pub mod text;
pub mod semver_model;
pub mod package;
pub mod version;
pub mod update;
pub mod registry;
pub mod manifest;
pub mod resolve;
pub mod plan;
pub mod picker;
pub mod run;

pub use package::{DepKind, Package, PackageVersion, Packages, Purl, Unit, Usage};
pub use semver_model::{SemReq, SemVersion};
pub use version::{VersionBump, VersionStrategy};
pub use registry::{CargoError, CheckUpdates, Error, NpmError, Options, RegistryCachePolicy, RegistryError, State};
