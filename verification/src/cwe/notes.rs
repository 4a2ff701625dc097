pub use crate::{Note, Notes};
