use vstd::prelude::*;

verus! {

#[derive(Debug)]
pub struct Relationships {
    pub has_members: Vec<HasMember>,
}

/// Declares weakness `cwe_id` a member of the category that holds the relation.
#[derive(Debug)]
pub struct HasMember {
    pub cwe_id: i64,
    pub view_id: i64,
}

} // verus!
