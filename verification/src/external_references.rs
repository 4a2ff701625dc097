use vstd::prelude::*;

verus! {

#[derive(Debug)]
pub struct ExternalReferences {
    pub external_references: Vec<ExternalReference>,
}

#[derive(Debug)]
pub struct ExternalReference {
    pub reference_id: String,
    pub authors: Vec<String>,
    pub title: String,
    pub edition: Option<String>,
    pub publication: Option<String>,
    pub publication_year: Option<String>,
    pub publication_month: Option<String>,
    pub publication_day: Option<String>,
    pub publisher: Option<String>,
    pub url: Option<String>,
    pub url_date: Option<String>,
}

} // verus!
