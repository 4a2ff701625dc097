use cwe_xml::cwe::categories::Category;
use cwe_xml::cwe::weakness_catalog::WeaknessCatalog;
use cwe_xml::cwe::weaknesses::{RelatedNature, Weakness};
use cwe_xml::errors::Error;
use cwe_xml::{CweDb, StructuredText, StructuredTextType};

#[test]
fn new_weakness_declares_nothing() {
    let w = Weakness::new(79, "XSS".to_string());
    assert_eq!(w.id, 79);
    assert_eq!(w.name, "XSS");
    assert!(w.related_weaknesses.is_none());
    assert!(w.direct_ancestors().is_empty());
}

#[test]
fn only_child_of_relations_name_ancestors() {
    let w = Weakness::new(79, "XSS".to_string())
        .with_relation(RelatedNature::PeerOf, 352, 1000)
        .child_of(74, 1000)
        .with_relation(RelatedNature::CanPrecede, 494, 1000)
        .child_of(137, 699)
        .with_relation(RelatedNature::ParentOf, 80, 1000);
    assert_eq!(w.direct_ancestors(), vec![74, 137]);
    let relations = &w.related_weaknesses.as_ref().unwrap().related_weaknesses;
    assert_eq!(relations.len(), 5);
    assert_eq!(relations[0].nature, RelatedNature::PeerOf);
    assert_eq!(relations[3].cwe_id, 137);
    assert_eq!(relations[3].view_id, 699);
}

#[test]
fn categories_are_equal_by_identifier() {
    let a = Category::new(1, "a".to_string()).with_member(5, 699);
    let b = Category::new(1, "b".to_string());
    let c = Category::new(2, "a".to_string());
    assert!(a == b);
    assert!(a != c);
    assert_eq!(a.relationships.has_members.len(), 1);
    assert_eq!(a.relationships.has_members[0].cwe_id, 5);
}

#[test]
fn catalog_counts_its_weaknesses() {
    let empty = WeaknessCatalog::new("n".to_string(), "v".to_string(), "d".to_string());
    assert_eq!(empty.weakness_count(), 0);
    assert!(empty.weaknesses.is_none());
    let two = empty
        .with_weakness(Weakness::new(1, "one".to_string()))
        .with_weakness(Weakness::new(2, "two".to_string()))
        .with_category(Category::new(9, "nine".to_string()));
    assert_eq!(two.weakness_count(), 2);
    assert_eq!(two.categories.as_ref().unwrap().categories.len(), 1);
    assert_eq!(two.name, "n");
    assert_eq!(two.version, "v");
    assert_eq!(two.date, "d");
}

#[test]
fn error_names_file_and_reason() {
    let e = Error::invalid_cwe_file("data/699.xml".to_string(), "missing field".to_string());
    assert_eq!(e.file(), "data/699.xml");
    assert_eq!(e.error(), "missing field");
    match e {
        Error::InvalidCweFile { file, error } => {
            assert_eq!(file, "data/699.xml");
            assert_eq!(error, "missing field");
        }
    }
}

#[test]
fn string_keyed_records_hold_what_they_are_given() {
    let catalog = cwe_xml::WeaknessCatalog {
        xmlns: "http://cwe.mitre.org/cwe-7".to_string(),
        xhtml: "http://www.w3.org/1999/xhtml".to_string(),
        xsi: "http://www.w3.org/2001/XMLSchema-instance".to_string(),
        schema_location: "cwe_schema_v7.0.xsd".to_string(),
        name: "CWE".to_string(),
        version: "4.12".to_string(),
        date: "2023-06-29".to_string(),
        weaknesses: None,
        categories: Some(cwe_xml::Categories { categories: vec![] }),
        views: None,
        external_references: None,
    };
    let db = CweDb { weakness_catalog: catalog };
    assert_eq!(db.weakness_catalog.name, "CWE");
    assert!(db.weakness_catalog.weaknesses.is_none());
    let text = StructuredText {
        descriptions: vec![StructuredTextType::P {
            children: vec![Box::new(StructuredTextType::String("text".to_string()))],
        }],
    };
    assert_eq!(text.descriptions.len(), 1);
}
