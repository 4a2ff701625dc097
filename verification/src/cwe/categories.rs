use crate::cwe::relationships::{HasMember, Relationships};
use std::rc::Rc;
use vstd::prelude::*;
use vstd::std_specs::cmp::PartialEqSpecImpl;

verus! {

#[derive(Debug)]
pub struct Categories {
    pub categories: Vec<Rc<Category>>,
}

/// A thematic grouping of weaknesses. Two categories are the same category where
/// their identifiers are equal.
#[derive(Debug)]
pub struct Category {
    pub id: i64,
    pub name: String,
    pub status: String,
    pub summary: String,
    pub relationships: Relationships,
}

impl PartialEq for Category {
    fn eq(&self, other: &Self) -> (r: bool) {
        self.id == other.id
    }
}

impl PartialEqSpecImpl for Category {
    open spec fn obeys_eq_spec() -> bool {
        true
    }

    open spec fn eq_spec(&self, other: &Self) -> bool {
        self.id == other.id
    }
}

impl Eq for Category {

}

impl Category {
    /// The identifiers of the weaknesses that the category declares as members,
    /// in declaration order.
    pub open spec fn members(&self) -> Seq<i64> {
        Seq::new(
            self.relationships.has_members@.len(),
            |k: int| self.relationships.has_members@[k].cwe_id,
        )
    }

    /// A category with the given identifier and name, and no member.
    pub fn new(id: i64, name: String) -> (category: Category)
        ensures
            category.id == id,
            category.name@ == name@,
            category.status@ == Seq::<char>::empty(),
            category.summary@ == Seq::<char>::empty(),
            category.members() == Seq::<i64>::empty(),
    {
        let category = Category {
            id,
            name,
            status: String::new(),
            summary: String::new(),
            relationships: Relationships { has_members: Vec::new() },
        };
        proof {
            assert(category.members() =~= Seq::<i64>::empty());
        }
        category
    }

    /// The same category with weakness `cwe_id` declared a member in view
    /// `view_id`.
    pub fn with_member(self, cwe_id: i64, view_id: i64) -> (category: Category)
        ensures
            category == (Category { relationships: category.relationships, ..self }),
            category.relationships.has_members@ == self.relationships.has_members@.push(
                HasMember { cwe_id, view_id },
            ),
            category.members() == self.members().push(cwe_id),
    {
        let mut category = self;
        category.relationships.has_members.push(HasMember { cwe_id, view_id });
        proof {
            assert(category.members() =~= self.members().push(cwe_id));
        }
        category
    }
}

} // verus!
