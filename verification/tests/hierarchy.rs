use cwe_xml::cwe::categories::Category;
use cwe_xml::cwe::weakness_catalog::WeaknessCatalog;
use cwe_xml::cwe::weaknesses::{RelatedNature, Weakness};
use cwe_xml::cwe::{CweDatabase, WeaknessVisitor};
use std::rc::Rc;

fn catalog(name: &str) -> WeaknessCatalog {
    WeaknessCatalog::new(name.to_string(), "4.12".to_string(), "2023-06-29".to_string())
}

fn weakness(id: i64, parents: &[i64]) -> Weakness {
    let mut w = Weakness::new(id, format!("weakness {}", id));
    for p in parents {
        w = w.child_of(*p, 1000);
    }
    w
}

fn ids(list: &[Rc<Weakness>]) -> Vec<i64> {
    list.iter().map(|w| w.id).collect()
}

fn sorted(mut v: Vec<i64>) -> Vec<i64> {
    v.sort();
    v
}

fn category_ids(list: &[Rc<Category>]) -> Vec<i64> {
    sorted(list.iter().map(|c| c.id).collect())
}

/// Root 1 with children 2 and 3; 4 below 2; 5 below 2 and 3.
fn sample() -> CweDatabase {
    let mut db = CweDatabase::new();
    let c = catalog("sample")
        .with_weakness(weakness(1, &[]))
        .with_weakness(weakness(2, &[1]))
        .with_weakness(weakness(3, &[1]))
        .with_weakness(weakness(4, &[2]))
        .with_weakness(weakness(5, &[2, 3]));
    db.import_weakness_catalog(c);
    db
}

struct Recorder {
    seen: Vec<(usize, i64)>,
    children_seen: Vec<usize>,
}

impl WeaknessVisitor for Recorder {
    fn visit(&mut self, db: &CweDatabase, level: usize, weakness: Rc<Weakness>) {
        self.seen.push((level, weakness.id));
        self.children_seen.push(db.weakness_children_by_cwe_id(weakness.id).len());
    }
}

#[test]
fn new_database_is_empty() {
    let db = CweDatabase::new();
    assert!(db.weakness_by_cwe_id(1).is_none());
    assert!(db.weakness_roots().is_empty());
    assert!(db.all_categories().is_empty());
    assert!(db.catalogs().is_empty());
    assert!(db.visit_order().is_empty());
}

#[test]
fn lookup_returns_the_record() {
    let db = sample();
    let w = db.weakness_by_cwe_id(4).expect("known");
    assert_eq!(w.id, 4);
    assert_eq!(w.name, "weakness 4");
    assert_eq!(w.direct_ancestors(), vec![2]);
}

#[test]
fn roots_are_the_weaknesses_without_parent() {
    let db = sample();
    assert_eq!(ids(&db.weakness_roots()), vec![1]);
    for id in 1..=5 {
        let w = db.weakness_by_cwe_id(id).unwrap();
        let is_root = db.weakness_roots().iter().any(|r| r.id == id);
        assert_eq!(is_root, w.direct_ancestors().is_empty());
    }
}

#[test]
fn children_are_listed_under_each_parent() {
    let db = sample();
    assert_eq!(ids(&db.weakness_children_by_cwe_id(1)), vec![2, 3]);
    assert_eq!(ids(&db.weakness_children_by_cwe_id(2)), vec![4, 5]);
    assert_eq!(ids(&db.weakness_children_by_cwe_id(3)), vec![5]);
    assert!(db.weakness_children_by_cwe_id(4).is_empty());
    assert!(db.weakness_children_by_cwe_id(5).is_empty());
}

#[test]
fn direct_ancestors_are_one_level_up() {
    let db = sample();
    assert_eq!(ids(&db.direct_ancestors_by_cwe_id(5)), vec![2, 3]);
    assert_eq!(ids(&db.direct_ancestors_by_cwe_id(4)), vec![2]);
    assert!(db.direct_ancestors_by_cwe_id(1).is_empty());
}

#[test]
fn direct_ancestors_skip_unknown_and_repeated_targets() {
    let mut db = CweDatabase::new();
    let w = Weakness::new(7, "seven".to_string())
        .child_of(99, 1000)
        .child_of(8, 1000)
        .child_of(8, 699)
        .with_relation(RelatedNature::PeerOf, 9, 1000);
    db.import_weakness_catalog(
        catalog("c").with_weakness(w).with_weakness(weakness(8, &[])).with_weakness(weakness(9, &[])),
    );
    assert_eq!(ids(&db.direct_ancestors_by_cwe_id(7)), vec![8]);
    assert_eq!(db.weakness_by_cwe_id(7).unwrap().direct_ancestors(), vec![99, 8, 8]);
    assert_eq!(ids(&db.weakness_children_by_cwe_id(8)), vec![7]);
    assert!(db.weakness_children_by_cwe_id(9).is_empty());
}

#[test]
fn subtree_holds_all_descendants_once() {
    let db = sample();
    assert_eq!(sorted(ids(&db.weakness_subtree_by_cwe_id(1))), vec![2, 3, 4, 5]);
    assert_eq!(sorted(ids(&db.weakness_subtree_by_cwe_id(2))), vec![4, 5]);
    assert_eq!(sorted(ids(&db.weakness_subtree_by_cwe_id(3))), vec![5]);
    assert!(db.weakness_subtree_by_cwe_id(5).is_empty());
}

#[test]
fn every_weakness_is_in_the_subtree_of_its_ancestors() {
    let db = sample();
    for id in 1..=5 {
        for a in db.direct_ancestors_by_cwe_id(id) {
            assert!(db.weakness_subtree_by_cwe_id(a.id).iter().any(|w| w.id == id));
        }
    }
}

#[test]
fn unknown_identifiers_give_empty_answers() {
    let db = sample();
    assert!(db.weakness_by_cwe_id(42).is_none());
    assert!(db.categories_by_cwe_id(42).is_empty());
    assert!(db.weakness_children_by_cwe_id(42).is_empty());
    assert!(db.direct_ancestors_by_cwe_id(42).is_empty());
    assert!(db.weakness_subtree_by_cwe_id(42).is_empty());
    assert!(db.category_by_id(42).is_none());
}

#[test]
fn dangling_parent_has_no_children_until_it_is_known() {
    let mut db = CweDatabase::new();
    db.import_weakness_catalog(catalog("first").with_weakness(weakness(2, &[1])));
    assert!(db.weakness_children_by_cwe_id(1).is_empty());
    assert!(db.weakness_roots().is_empty());
    assert!(db.direct_ancestors_by_cwe_id(2).is_empty());
    db.import_weakness_catalog(catalog("second").with_weakness(weakness(1, &[])));
    assert_eq!(ids(&db.weakness_children_by_cwe_id(1)), vec![2]);
    assert_eq!(ids(&db.weakness_roots()), vec![1]);
    assert_eq!(ids(&db.direct_ancestors_by_cwe_id(2)), vec![1]);
    assert_eq!(ids(&db.weakness_subtree_by_cwe_id(1)), vec![2]);
}

#[test]
fn importing_twice_changes_nothing() {
    let build = || {
        catalog("sample")
            .with_weakness(weakness(1, &[]))
            .with_weakness(weakness(2, &[1]))
            .with_weakness(weakness(3, &[1, 2]))
    };
    let mut once = CweDatabase::new();
    once.import_weakness_catalog(build());
    let mut twice = CweDatabase::new();
    twice.import_weakness_catalog(build());
    twice.import_weakness_catalog(build());
    for id in 0..5 {
        assert_eq!(
            once.weakness_by_cwe_id(id).map(|w| w.id),
            twice.weakness_by_cwe_id(id).map(|w| w.id)
        );
        assert_eq!(
            sorted(ids(&once.weakness_children_by_cwe_id(id))),
            sorted(ids(&twice.weakness_children_by_cwe_id(id)))
        );
    }
    assert_eq!(sorted(ids(&once.weakness_roots())), sorted(ids(&twice.weakness_roots())));
    assert_eq!(twice.catalogs().len(), 1);
}

#[test]
fn later_record_replaces_earlier_one() {
    let mut db = CweDatabase::new();
    db.import_weakness_catalog(
        catalog("a")
            .with_weakness(weakness(1, &[]))
            .with_weakness(weakness(2, &[]))
            .with_weakness(weakness(3, &[1])),
    );
    assert_eq!(sorted(ids(&db.weakness_roots())), vec![1, 2]);
    assert_eq!(ids(&db.weakness_children_by_cwe_id(1)), vec![3]);
    let renamed = Weakness::new(3, "three again".to_string()).child_of(2, 1000);
    db.import_weakness_catalog(
        catalog("b").with_weakness(renamed).with_weakness(weakness(2, &[1])),
    );
    assert_eq!(db.weakness_by_cwe_id(3).unwrap().name, "three again");
    assert_eq!(ids(&db.weakness_roots()), vec![1]);
    assert_eq!(ids(&db.weakness_children_by_cwe_id(1)), vec![2]);
    assert_eq!(ids(&db.weakness_children_by_cwe_id(2)), vec![3]);
    assert_eq!(db.catalogs().len(), 2);
}

#[test]
fn later_record_in_one_catalog_wins() {
    let mut db = CweDatabase::new();
    db.import_weakness_catalog(
        catalog("a")
            .with_weakness(weakness(1, &[]))
            .with_weakness(weakness(2, &[1]))
            .with_weakness(Weakness::new(2, "second two".to_string())),
    );
    assert_eq!(db.weakness_by_cwe_id(2).unwrap().name, "second two");
    assert_eq!(sorted(ids(&db.weakness_roots())), vec![1, 2]);
    assert!(db.weakness_children_by_cwe_id(1).is_empty());
}

#[test]
fn catalog_of_the_same_name_is_replaced() {
    let mut db = CweDatabase::new();
    db.import_weakness_catalog(catalog("one").with_weakness(weakness(1, &[])));
    db.import_weakness_catalog(catalog("two").with_weakness(weakness(2, &[])));
    let again = WeaknessCatalog::new("one".to_string(), "5.0".to_string(), "2024".to_string())
        .with_weakness(weakness(3, &[]))
        .with_weakness(weakness(4, &[]));
    db.import_weakness_catalog(again);
    let catalogs = db.catalogs();
    assert_eq!(catalogs.len(), 2);
    assert_eq!(catalogs[0].name, "one");
    assert_eq!(catalogs[0].version, "5.0");
    assert_eq!(catalogs[0].weakness_count(), 2);
    assert_eq!(catalogs[1].name, "two");
    assert_eq!(catalogs[1].weakness_count(), 1);
    assert_eq!(sorted(ids(&db.weakness_roots())), vec![1, 2, 3, 4]);
}

#[test]
fn visit_order_is_preorder() {
    let db = sample();
    let order: Vec<(usize, i64)> = db.visit_order().iter().map(|(l, w)| (*l, w.id)).collect();
    assert_eq!(order, vec![(0, 1), (1, 2), (2, 4), (2, 5), (1, 3), (2, 5)]);
}

#[test]
fn visitor_sees_every_step_and_may_query() {
    let db = sample();
    let mut recorder = Recorder { seen: Vec::new(), children_seen: Vec::new() };
    db.visit_weaknesses(&mut recorder);
    assert_eq!(recorder.seen, vec![(0, 1), (1, 2), (2, 4), (2, 5), (1, 3), (2, 5)]);
    assert_eq!(recorder.children_seen, vec![2, 2, 0, 0, 1, 0]);
}

#[test]
fn walk_takes_each_root_in_turn() {
    let mut db = CweDatabase::new();
    db.import_weakness_catalog(
        catalog("forest")
            .with_weakness(weakness(10, &[]))
            .with_weakness(weakness(20, &[]))
            .with_weakness(weakness(21, &[20]))
            .with_weakness(weakness(11, &[10])),
    );
    let order: Vec<(usize, i64)> = db.visit_order().iter().map(|(l, w)| (*l, w.id)).collect();
    assert_eq!(order, vec![(0, 10), (1, 11), (0, 20), (1, 21)]);
}

#[test]
fn walk_ends_on_a_cycle() {
    let mut db = CweDatabase::new();
    db.import_weakness_catalog(
        catalog("loop")
            .with_weakness(weakness(1, &[3]))
            .with_weakness(weakness(2, &[1]))
            .with_weakness(weakness(3, &[2]))
            .with_weakness(weakness(4, &[4])),
    );
    assert!(db.weakness_roots().is_empty());
    assert!(db.visit_order().is_empty());
    assert_eq!(sorted(ids(&db.weakness_subtree_by_cwe_id(1))), vec![2, 3]);
    assert_eq!(sorted(ids(&db.weakness_subtree_by_cwe_id(3))), vec![1, 2]);
    assert!(db.weakness_subtree_by_cwe_id(4).is_empty());
    assert_eq!(ids(&db.weakness_children_by_cwe_id(4)), vec![4]);
}

#[test]
fn declared_memberships_are_indexed() {
    let mut db = CweDatabase::new();
    let c = catalog("cats")
        .with_weakness(weakness(1, &[]))
        .with_weakness(weakness(2, &[1]))
        .with_category(Category::new(100, "Sec".to_string()).with_member(1, 699).with_member(1, 699))
        .with_category(Category::new(200, "Mem".to_string()).with_member(1, 699).with_member(77, 699));
    db.import_weakness_catalog(c);
    assert_eq!(category_ids(&db.categories_by_cwe_id(1)), vec![100, 200]);
    assert!(db.categories_by_cwe_id(2).is_empty());
    assert_eq!(category_ids(&db.categories_by_cwe_id(77)), vec![200]);
    assert_eq!(category_ids(&db.all_categories()), vec![100, 200]);
    assert_eq!(db.category_by_id(100).unwrap().name, "Sec");
}

#[test]
fn later_category_record_replaces_earlier_one() {
    let mut db = CweDatabase::new();
    db.import_weakness_catalog(
        catalog("a").with_category(Category::new(100, "Old".to_string()).with_member(1, 699)),
    );
    db.import_weakness_catalog(
        catalog("b").with_category(Category::new(100, "New".to_string()).with_member(2, 699)),
    );
    assert_eq!(db.categories_by_cwe_id(1)[0].name, "New");
    assert_eq!(db.categories_by_cwe_id(2)[0].name, "New");
    assert_eq!(db.all_categories().len(), 1);
}

#[test]
fn merge_adds_categories_to_one_weakness() {
    let mut db = sample();
    let sec = Rc::new(Category::new(100, "Sec".to_string()));
    let mem = Rc::new(Category::new(200, "Mem".to_string()));
    db.merge_categories_by_cwe_id(4, vec![sec.clone(), mem, sec]);
    assert_eq!(category_ids(&db.categories_by_cwe_id(4)), vec![100, 200]);
    assert!(db.categories_by_cwe_id(2).is_empty());
    db.merge_categories_by_cwe_id(4, vec![Rc::new(Category::new(200, "Mem".to_string()))]);
    assert_eq!(category_ids(&db.categories_by_cwe_id(4)), vec![100, 200]);
    assert_eq!(db.category_by_id(200).unwrap().name, "Mem");
    assert!(db.all_categories().is_empty());
}

#[test]
fn failed_parse_is_reported_and_changes_nothing() {
    let mut db = sample();
    let result = db.import_parsed_catalog("bad.xml".to_string(), Err("unexpected end".to_string()));
    let e = result.expect_err("a failure is handed on");
    assert_eq!(e.file(), "bad.xml");
    assert_eq!(e.error(), "unexpected end");
    assert_eq!(db.catalogs().len(), 1);
    assert_eq!(ids(&db.weakness_roots()), vec![1]);
    assert!(db.weakness_by_cwe_id(5).is_some());
}

#[test]
fn parsed_catalog_is_imported() {
    let mut db = CweDatabase::new();
    let result =
        db.import_parsed_catalog("".to_string(), Ok(catalog("ok").with_weakness(weakness(1, &[]))));
    assert!(result.is_ok());
    assert_eq!(ids(&db.weakness_roots()), vec![1]);
    assert_eq!(db.catalogs()[0].name, "ok");
}

#[test]
fn entered_again_a_weakness_is_filed_last() {
    let mut db = sample();
    assert_eq!(ids(&db.weakness_children_by_cwe_id(1)), vec![2, 3]);
    db.import_weakness_catalog(catalog("again").with_weakness(weakness(2, &[1])));
    assert_eq!(ids(&db.weakness_children_by_cwe_id(1)), vec![3, 2]);
    assert_eq!(ids(&db.weakness_children_by_cwe_id(2)), vec![4, 5]);
    db.import_weakness_catalog(
        catalog("roots").with_weakness(weakness(9, &[])).with_weakness(weakness(1, &[])),
    );
    assert_eq!(ids(&db.weakness_roots()), vec![9, 1]);
    let order: Vec<(usize, i64)> = db.visit_order().iter().map(|(l, w)| (*l, w.id)).collect();
    assert_eq!(order, vec![(0, 9), (0, 1), (1, 3), (2, 5), (1, 2), (2, 4), (2, 5)]);
}

#[test]
fn default_database_is_empty() {
    let db = CweDatabase::default();
    assert!(db.weakness_roots().is_empty());
    assert!(db.catalogs().is_empty());
}
