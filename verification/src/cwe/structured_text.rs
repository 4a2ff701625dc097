pub use crate::{StructuredText, StructuredTextType};
