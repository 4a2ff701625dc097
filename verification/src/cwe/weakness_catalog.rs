use crate::cwe::categories::{Categories, Category};
use crate::cwe::model::{catalog_categories, catalog_weaknesses};
use crate::cwe::external_references::ExternalReferences;
use crate::cwe::views::Views;
use crate::cwe::weaknesses::{Weakness, Weaknesses};
use std::rc::Rc;
use vstd::prelude::*;

verus! {

/// A named, versioned, dated container for what one source document declares.
#[derive(Debug)]
pub struct WeaknessCatalog {
    pub name: String,
    pub version: String,
    pub date: String,
    pub weaknesses: Option<Weaknesses>,
    pub categories: Option<Categories>,
    pub views: Option<Views>,
    pub external_references: Option<ExternalReferences>,
}

impl WeaknessCatalog {
    /// A catalog with the given name, version and date, and no content.
    pub fn new(name: String, version: String, date: String) -> (catalog: WeaknessCatalog)
        ensures
            catalog.name@ == name@,
            catalog.version@ == version@,
            catalog.date@ == date@,
            catalog.weaknesses is None,
            catalog.categories is None,
            catalog.views is None,
            catalog.external_references is None,
            catalog_weaknesses(catalog) == Seq::<Rc<Weakness>>::empty(),
            catalog_categories(catalog) == Seq::<Rc<Category>>::empty(),
    {
        WeaknessCatalog {
            name,
            version,
            date,
            weaknesses: None,
            categories: None,
            views: None,
            external_references: None,
        }
    }

    /// The same catalog with `weakness` as its last weakness.
    pub fn with_weakness(self, weakness: Weakness) -> (catalog: WeaknessCatalog)
        ensures
            catalog == (WeaknessCatalog { weaknesses: catalog.weaknesses, ..self }),
            catalog_weaknesses(catalog) == catalog_weaknesses(self).push(Rc::new(weakness)),
            catalog_categories(catalog) == catalog_categories(self),
    {
        let mut catalog = self;
        let mut list = match catalog.weaknesses {
            Some(weaknesses) => weaknesses.weaknesses,
            None => Vec::new(),
        };
        list.push(Rc::new(weakness));
        catalog.weaknesses = Some(Weaknesses { weaknesses: list });
        catalog
    }

    /// The same catalog with `category` as its last category.
    pub fn with_category(self, category: Category) -> (catalog: WeaknessCatalog)
        ensures
            catalog == (WeaknessCatalog { categories: catalog.categories, ..self }),
            catalog_weaknesses(catalog) == catalog_weaknesses(self),
            catalog_categories(catalog) == catalog_categories(self).push(Rc::new(category)),
    {
        let mut catalog = self;
        let mut list = match catalog.categories {
            Some(categories) => categories.categories,
            None => Vec::new(),
        };
        list.push(Rc::new(category));
        catalog.categories = Some(Categories { categories: list });
        catalog
    }

    /// How many weaknesses the catalog declares, none where the list is absent.
    pub fn weakness_count(&self) -> (count: usize)
        ensures
            count == catalog_weaknesses(*self).len(),
    {
        match &self.weaknesses {
            Some(weaknesses) => weaknesses.weaknesses.len(),
            None => 0,
        }
    }
}

} // verus!
