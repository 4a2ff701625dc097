use cwe_xml::cwe::categories::Category;
use cwe_xml::cwe::weakness_catalog::WeaknessCatalog;
use cwe_xml::cwe::weaknesses::Weakness;
use cwe_xml::cwe::CweDatabase;
use std::rc::Rc;

const X: i64 = 100;
const Y: i64 = 200;

fn node(id: i64, parents: &[i64]) -> Weakness {
    let mut w = Weakness::new(id, format!("w{}", id));
    for p in parents {
        w = w.child_of(*p, 1000);
    }
    w
}

/// A database with the given weaknesses `(id, parents)` and memberships
/// `(category, members)`.
fn database(weaknesses: &[(i64, &[i64])], categories: &[(i64, &str, &[i64])]) -> CweDatabase {
    let mut catalog =
        WeaknessCatalog::new("test".to_string(), "1".to_string(), "2024-01-01".to_string());
    for (id, parents) in weaknesses {
        catalog = catalog.with_weakness(node(*id, parents));
    }
    for (id, name, members) in categories {
        let mut category = Category::new(*id, name.to_string());
        for m in *members {
            category = category.with_member(*m, 699);
        }
        catalog = catalog.with_category(category);
    }
    let mut db = CweDatabase::new();
    db.import_weakness_catalog(catalog);
    db
}

fn cats(db: &CweDatabase, id: i64) -> Vec<i64> {
    let mut v: Vec<i64> = db.categories_by_cwe_id(id).iter().map(|c| c.id).collect();
    v.sort();
    v
}

fn names(list: &[Rc<Category>]) -> Vec<String> {
    let mut v: Vec<String> = list.iter().map(|c| c.name.clone()).collect();
    v.sort();
    v
}

#[test]
fn child_inherits_the_category_of_its_parent() {
    let mut db = database(&[(1, &[]), (2, &[1])], &[(X, "X", &[1])]);
    db.infer_categories_from_ancestors();
    assert_eq!(cats(&db, 2), vec![X]);
    assert_eq!(cats(&db, 1), vec![X]);
}

#[test]
fn inheritance_reaches_the_whole_subtree_and_unites() {
    let mut db = database(
        &[(1, &[]), (2, &[1]), (3, &[2]), (4, &[]), (5, &[4, 2])],
        &[(X, "X", &[1]), (Y, "Y", &[4, 3])],
    );
    db.infer_categories_from_ancestors();
    assert_eq!(cats(&db, 1), vec![X]);
    assert_eq!(cats(&db, 2), vec![X]);
    assert_eq!(cats(&db, 3), vec![X, Y]);
    assert_eq!(cats(&db, 4), vec![Y]);
    assert_eq!(cats(&db, 5), vec![X, Y]);
}

#[test]
fn inheritance_does_not_climb() {
    let mut db = database(&[(1, &[]), (2, &[1])], &[(X, "X", &[2])]);
    db.infer_categories_from_ancestors();
    assert!(cats(&db, 1).is_empty());
    assert_eq!(cats(&db, 2), vec![X]);
}

#[test]
fn unknown_member_hands_nothing_down() {
    let mut db = database(&[(2, &[1]), (3, &[2])], &[(X, "X", &[1])]);
    db.infer_categories_from_ancestors();
    assert_eq!(cats(&db, 1), vec![X]);
    assert!(cats(&db, 2).is_empty());
    assert!(cats(&db, 3).is_empty());
}

#[test]
fn parent_adopts_with_one_child_without_category() {
    let mut db =
        database(&[(1, &[]), (11, &[1]), (12, &[1]), (13, &[1])], &[(X, "X", &[11, 12])]);
    db.infer_categories_from_descendants();
    assert_eq!(cats(&db, 1), vec![X]);
    assert!(cats(&db, 13).is_empty());
}

#[test]
fn parent_adopts_the_union_where_children_differ() {
    let mut db = database(
        &[(1, &[]), (11, &[1]), (12, &[1]), (13, &[1])],
        &[(X, "X", &[11]), (Y, "Y", &[12])],
    );
    db.infer_categories_from_descendants();
    assert_eq!(cats(&db, 1), vec![X, Y]);
}

#[test]
fn parent_stays_without_category_with_two_children_without() {
    let mut db = database(&[(1, &[]), (11, &[1]), (12, &[1]), (13, &[1])], &[(X, "X", &[13])]);
    db.infer_categories_from_descendants();
    assert!(cats(&db, 1).is_empty());
    assert_eq!(cats(&db, 13), vec![X]);
}

#[test]
fn parent_with_a_category_is_left_alone() {
    let mut db = database(&[(1, &[]), (11, &[1]), (12, &[1])], &[(X, "X", &[11, 12]), (Y, "Y", &[1])]);
    db.infer_categories_from_descendants();
    assert_eq!(cats(&db, 1), vec![Y]);
}

#[test]
fn rounds_are_repeated_up_the_hierarchy() {
    let mut db = database(
        &[(1, &[]), (2, &[1]), (3, &[2]), (4, &[3]), (5, &[1])],
        &[(X, "X", &[4])],
    );
    db.infer_categories_from_descendants();
    assert_eq!(cats(&db, 3), vec![X]);
    assert_eq!(cats(&db, 2), vec![X]);
    assert_eq!(cats(&db, 1), vec![X]);
    assert!(cats(&db, 5).is_empty());
}

#[test]
fn a_round_judges_on_the_state_before_it() {
    let mut db = database(
        &[(1, &[]), (2, &[1]), (3, &[1]), (4, &[2]), (5, &[3])],
        &[(X, "X", &[4]), (Y, "Y", &[5])],
    );
    db.infer_categories_from_descendants();
    assert_eq!(cats(&db, 2), vec![X]);
    assert_eq!(cats(&db, 3), vec![Y]);
    assert_eq!(cats(&db, 1), vec![X, Y]);
}

#[test]
fn leaf_without_category_gains_nothing_from_below() {
    let mut db = database(&[(1, &[]), (2, &[1])], &[]);
    db.infer_categories_from_descendants();
    assert!(cats(&db, 1).is_empty());
    assert!(cats(&db, 2).is_empty());
}

#[test]
fn unknown_parent_adopts_nothing() {
    let mut db = database(&[(2, &[1]), (3, &[1])], &[(X, "X", &[2, 3])]);
    db.infer_categories_from_descendants();
    assert!(cats(&db, 1).is_empty());
}

#[test]
fn a_second_run_changes_nothing() {
    let mut db = database(
        &[(1, &[]), (2, &[1]), (3, &[2]), (4, &[2]), (5, &[1]), (6, &[5]), (7, &[5])],
        &[(X, "X", &[3]), (Y, "Y", &[6])],
    );
    db.infer_categories_from_descendants();
    let first: Vec<Vec<i64>> = (1..=7).map(|id| cats(&db, id)).collect();
    db.infer_categories_from_descendants();
    let second: Vec<Vec<i64>> = (1..=7).map(|id| cats(&db, id)).collect();
    assert_eq!(first, second);
    assert_eq!(first[1], vec![X]);
    assert_eq!(first[4], vec![Y]);
    assert_eq!(first[0], vec![X, Y]);
}

#[test]
fn inference_only_adds() {
    let mut db = database(
        &[(1, &[]), (2, &[1]), (3, &[2]), (4, &[1])],
        &[(X, "X", &[2]), (Y, "Y", &[3, 9])],
    );
    let before: Vec<Vec<i64>> = (1..=9).map(|id| cats(&db, id)).collect();
    db.infer_categories_from_descendants();
    db.infer_categories_from_ancestors();
    db.infer_categories_from_descendants();
    for id in 1..=9 {
        let after = cats(&db, id);
        for c in &before[(id - 1) as usize] {
            assert!(after.contains(c));
        }
    }
    assert_eq!(cats(&db, 9), vec![Y]);
    assert_eq!(cats(&db, 3), vec![X, Y]);
}

#[test]
fn both_passes_fill_a_chain() {
    let mut db = database(&[(1, &[]), (2, &[1]), (3, &[2])], &[(X, "Sec", &[2])]);
    db.infer_categories_from_ancestors();
    db.infer_categories_from_descendants();
    assert_eq!(names(&db.categories_by_cwe_id(3)), vec!["Sec".to_string()]);
    assert_eq!(names(&db.categories_by_cwe_id(1)), vec!["Sec".to_string()]);
    let roots: Vec<i64> = db.weakness_roots().iter().map(|w| w.id).collect();
    assert_eq!(roots, vec![1]);
    let mut subtree: Vec<i64> = db.weakness_subtree_by_cwe_id(1).iter().map(|w| w.id).collect();
    subtree.sort();
    assert_eq!(subtree, vec![2, 3]);
}

#[test]
fn both_passes_in_the_other_order() {
    let mut db = database(&[(1, &[]), (2, &[1]), (3, &[2])], &[(X, "Sec", &[2])]);
    db.infer_categories_from_descendants();
    db.infer_categories_from_ancestors();
    assert_eq!(cats(&db, 1), vec![X]);
    assert_eq!(cats(&db, 2), vec![X]);
    assert_eq!(cats(&db, 3), vec![X]);
}

#[test]
fn inference_ends_on_a_cycle() {
    let mut db = database(&[(1, &[2]), (2, &[1]), (3, &[2])], &[(X, "X", &[3])]);
    db.infer_categories_from_ancestors();
    assert!(cats(&db, 1).is_empty());
    db.infer_categories_from_descendants();
    assert_eq!(cats(&db, 2), vec![X]);
    assert_eq!(cats(&db, 1), vec![X]);
    db.infer_categories_from_ancestors();
    assert_eq!(cats(&db, 3), vec![X]);
}
