pub use crate::{ContentHistory, ContentHistoryChild, Contribution, Modification, Submission};
