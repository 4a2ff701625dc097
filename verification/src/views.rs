use crate::{ContentHistory, Notes, Relationships, StructuredText};
use vstd::prelude::*;

verus! {

#[derive(Debug)]
pub struct Views {
    pub views: Vec<View>,
}

#[derive(Debug)]
pub struct View {
    pub id: String,
    pub name: String,
    pub type_: String,
    pub status: String,
    pub objective: StructuredText,
    pub audience: Option<Audience>,
    pub members: Option<Relationships>,
    pub notes: Option<Notes>,
    pub filter: Option<String>,
    pub content_history: ContentHistory,
}

#[derive(Debug)]
pub struct Audience {
    pub stake_holders: Vec<StakeHolder>,
}

#[derive(Debug)]
pub struct StakeHolder {
    pub type_: String,
    pub description: Option<String>,
}

} // verus!
