use crate::cwe::content_history::ContentHistory;
use crate::cwe::notes::Notes;
use crate::cwe::relationships::Relationships;
use crate::cwe::structured_text::StructuredText;
use crate::cwe::weaknesses::MappingNotes;
use std::rc::Rc;
use vstd::prelude::*;

verus! {

#[derive(Debug)]
pub struct Views {
    pub views: Vec<Rc<View>>,
}

#[derive(Debug)]
pub struct View {
    pub id: i64,
    pub name: String,
    pub type_: String,
    pub status: String,
    pub objective: StructuredText,
    pub audience: Option<Audience>,
    pub members: Option<Relationships>,
    pub notes: Option<Notes>,
    pub filter: Option<String>,
    pub content_history: ContentHistory,
    pub mapping_notes: Option<MappingNotes>,
}

#[derive(Debug)]
pub struct Audience {
    pub stake_holders: Vec<StakeHolder>,
}

#[derive(Debug)]
pub struct StakeHolder {
    pub type_: String,
    pub description: Option<String>,
}

} // verus!
