pub use crate::external_references::{ExternalReference, ExternalReferences};
