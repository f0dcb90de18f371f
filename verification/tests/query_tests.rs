//! Exercises hit-count aggregation: one row per item, ranked by how many of
//! the item's embeddings were hit, and the end-to-end catalog scenario.

use packrat::database::Database;
use packrat::errors::StoreError;
use packrat::ROOT_CONTAINER_ID;

fn embeds(n: usize) -> Vec<Vec<u8>> {
    (0..n).map(|k| vec![k as u8; 4]).collect()
}

fn stmts(parts: &[&str]) -> Vec<String> {
    parts.iter().map(|s| s.to_string()).collect()
}

fn item_embedding_ids(db: &Database, item_id: i64) -> Vec<i64> {
    db.embeddings.iter().filter(|e| e.item_id == item_id).map(|e| e.id).collect()
}

#[test]
fn query_aggregates_by_item_without_duplicates() {
    let mut db = Database::init();
    db.insert_item("One", &stmts(&["a", "b"]), &vec![], &vec![], ROOT_CONTAINER_ID, embeds(4))
        .unwrap(); // embeddings 1..=4
    db.insert_item("Two", &stmts(&["c"]), &vec![], &vec![], ROOT_CONTAINER_ID, embeds(3))
        .unwrap(); // embeddings 5..=7
    // two hits on item 1, one hit on item 2, interleaved
    let hits = vec![1, 5, 2];
    let rows = db.query(&hits).unwrap();
    assert_eq!(rows.len(), 2);
    assert_eq!(rows[0].id, 1);
    assert_eq!(rows[1].id, 2);
    assert_eq!(rows[0].name, "One");
    assert_eq!(rows[0].container_name, "ROOT");
    // never the same item twice
    assert_ne!(rows[0].id, rows[1].id);
}

#[test]
fn query_breaks_ties_by_first_occurrence() {
    let mut db = Database::init();
    db.insert_item("One", &stmts(&["a"]), &vec![], &vec![], ROOT_CONTAINER_ID, embeds(3))
        .unwrap(); // 1..=3
    db.insert_item("Two", &stmts(&["b"]), &vec![], &vec![], ROOT_CONTAINER_ID, embeds(3))
        .unwrap(); // 4..=6
    // one hit each; the nearer hit came first
    let rows = db.query(&vec![4, 1]).unwrap();
    assert_eq!(rows.len(), 2);
    assert_eq!(rows[0].id, 2);
    assert_eq!(rows[1].id, 1);
}

#[test]
fn query_unknown_embedding_is_not_found() {
    let db = Database::init();
    assert_eq!(db.query(&vec![1]).unwrap_err(), StoreError::NotFound);
    assert_eq!(db.query(&vec![]).unwrap().len(), 0);
}

#[test]
fn pocket_knife_scenario() {
    let mut db = Database::init();
    db.add_child_container("Drawer 1", ROOT_CONTAINER_ID).unwrap(); // container 2
    db.insert_item(
        "Pocket Knife",
        &stmts(&["Steel blade", "Wooden handle"]),
        &vec![1],
        &vec![2],
        2,
        embeds(4),
    )
    .unwrap(); // item 1
    db.insert_item("Desk Lamp", &stmts(&["Metal shade"]), &vec![3], &vec![4], 2, embeds(3))
        .unwrap(); // item 2

    let knife = item_embedding_ids(&db, 1);
    assert_eq!(knife.len(), 4);

    // a query matching the knife's name facet returns it
    let rows = db.query(&vec![knife[0]]).unwrap();
    assert_eq!(rows.len(), 1);
    assert_eq!(rows[0].name, "Pocket Knife");
    assert_eq!(rows[0].container_name, "Drawer 1");

    // a query matching two knife facets and one lamp facet ranks the knife
    // at least as high as the unrelated item
    let lamp = item_embedding_ids(&db, 2);
    let rows = db.query(&vec![knife[2], lamp[0], knife[1]]).unwrap();
    assert_eq!(rows[0].id, 1);

    // deleting the drawer removes the item; nothing is left to hit
    db.delete_container(2).unwrap();
    assert_eq!(db.get_item(1).unwrap_err(), StoreError::NotFound);
    assert_eq!(db.embeddings.len(), 0);
    assert_eq!(db.query(&vec![]).unwrap().len(), 0);
    // the old hit ids resolve to nothing any more
    assert_eq!(db.query(&vec![knife[0]]).unwrap_err(), StoreError::NotFound);
}

#[test]
fn old_embeddings_unreachable_after_update() {
    let mut db = Database::init();
    db.insert_item("X", &stmts(&["a"]), &vec![], &vec![], ROOT_CONTAINER_ID, embeds(3))
        .unwrap();
    let old = item_embedding_ids(&db, 1);
    db.update_item(1, "X", "a\nb", embeds(4)).unwrap();
    for id in old {
        assert_eq!(db.query(&vec![id]).unwrap_err(), StoreError::NotFound);
    }
    let fresh = item_embedding_ids(&db, 1);
    assert_eq!(fresh.len(), 4);
    let rows = db.query(&fresh).unwrap();
    assert_eq!(rows.len(), 1);
    assert_eq!(rows[0].id, 1);
}
