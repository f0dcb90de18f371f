//! Exercises the storage engine: container tree CRUD, item storage and the
//! regeneration of embedding rows.

use packrat::database::Database;
use packrat::errors::StoreError;
use packrat::strutil::{join_nl, split_nl, str_lex_le};
use packrat::ROOT_CONTAINER_ID;

fn embeds(n: usize) -> Vec<Vec<u8>> {
    (0..n).map(|k| vec![k as u8; 4]).collect()
}

#[test]
fn init_has_only_root() {
    let db = Database::init();
    assert_eq!(db.get_container_name(ROOT_CONTAINER_ID).unwrap(), "ROOT");
    assert!(db.get_container_parent(ROOT_CONTAINER_ID).is_err());
    assert_eq!(db.get_container_children(ROOT_CONTAINER_ID).unwrap().len(), 0);
    assert_eq!(db.get_container_items(ROOT_CONTAINER_ID).unwrap().len(), 0);
}

#[test]
fn added_child_has_given_parent_and_is_listed_once() {
    let mut db = Database::init();
    db.add_child_container("Shelf", ROOT_CONTAINER_ID).unwrap();
    // ids are assigned consecutively from 2
    assert_eq!(db.get_container_parent(2).unwrap(), ROOT_CONTAINER_ID);
    let children = db.get_container_children(ROOT_CONTAINER_ID).unwrap();
    assert_eq!(children.iter().filter(|c| **c == 2).count(), 1);
    assert_eq!(children, vec![2]);
}

#[test]
fn add_child_to_missing_parent_fails() {
    let mut db = Database::init();
    assert_eq!(db.add_child_container("Shelf", 77).unwrap_err(), StoreError::NotFound);
    assert_eq!(db.get_container_children(ROOT_CONTAINER_ID).unwrap().len(), 0);
}

#[test]
fn rename_container() {
    let mut db = Database::init();
    db.add_child_container("Shelf", ROOT_CONTAINER_ID).unwrap();
    db.set_container_name("Rack", 2).unwrap();
    assert_eq!(db.get_container_name(2).unwrap(), "Rack");
    assert_eq!(db.set_container_name("X", 99).unwrap_err(), StoreError::NotFound);
}

#[test]
fn item_listed_under_its_container_only() {
    let mut db = Database::init();
    db.add_child_container("Box A", ROOT_CONTAINER_ID).unwrap();
    db.add_child_container("Box B", ROOT_CONTAINER_ID).unwrap();
    let stmts = vec![String::from("Steel blade")];
    let id = db.insert_item("Knife", &stmts, &vec![1u8], &vec![2u8], 2, embeds(3)).unwrap();
    assert_eq!(id, 1);
    let in_a = db.get_container_items(2).unwrap();
    assert_eq!(in_a.len(), 1);
    assert_eq!(in_a[0].id, 1);
    assert_eq!(in_a[0].name, "Knife");
    assert_eq!(in_a[0].container_id, 2);
    assert_eq!(db.get_container_items(3).unwrap().len(), 0);
    assert_eq!(db.get_container_items(ROOT_CONTAINER_ID).unwrap().len(), 0);

    db.move_item(1, 3).unwrap();
    assert_eq!(db.get_container_items(2).unwrap().len(), 0);
    assert_eq!(db.get_container_items(3).unwrap().len(), 1);

    db.delete_item(1).unwrap();
    assert_eq!(db.get_container_items(3).unwrap().len(), 0);
    assert_eq!(db.delete_item(1).unwrap_err(), StoreError::NotFound);
}

#[test]
fn insert_item_into_missing_container_fails() {
    let mut db = Database::init();
    let stmts = vec![String::from("s")];
    let r = db.insert_item("X", &stmts, &vec![], &vec![], 9, embeds(3));
    assert_eq!(r.unwrap_err(), StoreError::NotFound);
}

#[test]
fn item_description_is_statements_joined_with_newlines() {
    let mut db = Database::init();
    let stmts = vec![String::from("Steel blade"), String::from("Wooden handle")];
    let id = db.insert_item("Knife", &stmts, &vec![], &vec![], ROOT_CONTAINER_ID, embeds(4)).unwrap();
    let item = db.get_item(id).unwrap();
    assert_eq!(item.description, "Steel blade\nWooden handle");
    assert_eq!(item.container_name, "ROOT");
    assert_eq!(item.container_id, ROOT_CONTAINER_ID);
}

#[test]
fn photos_stored_and_fetched() {
    let mut db = Database::init();
    let stmts = vec![String::from("s")];
    db.insert_item("X", &stmts, &vec![9, 9], &vec![7, 7, 7], ROOT_CONTAINER_ID, embeds(3))
        .unwrap();
    assert_eq!(db.get_small_image(1).unwrap(), vec![9, 9]);
    assert_eq!(db.get_large_image(1).unwrap(), vec![7, 7, 7]);
    assert_eq!(db.get_small_image(2).unwrap_err(), StoreError::NotFound);
    assert_eq!(db.get_large_image(2).unwrap_err(), StoreError::NotFound);
}

#[test]
fn insert_creates_one_embedding_per_facet() {
    let mut db = Database::init();
    let stmts = vec![String::from("a"), String::from("b")];
    let first = db.insert_item("X", &stmts, &vec![], &vec![], ROOT_CONTAINER_ID, embeds(4)).unwrap();
    assert_eq!(first, 1);
    // two statements, the name, and the joined description: four rows
    assert_eq!(db.embeddings.len(), 4);
    assert!(db.embeddings.iter().all(|e| e.item_id == first));
    // ids are handed out consecutively
    let second = db.insert_item("Y", &stmts, &vec![], &vec![], ROOT_CONTAINER_ID, embeds(4)).unwrap();
    assert_eq!(second, 2);
}

#[test]
fn update_item_regenerates_embeddings_exactly() {
    let mut db = Database::init();
    let stmts = vec![String::from("a"), String::from("b")];
    db.insert_item("X", &stmts, &vec![5], &vec![6], ROOT_CONTAINER_ID, embeds(4)).unwrap();
    let old_ids: Vec<i64> = db.embeddings.iter().map(|e| e.id).collect();
    // three statements after the update: five rows
    db.update_item(1, "Y", "p\nq\nr", embeds(5)).unwrap();
    let owned: Vec<&packrat::database::EmbeddingRow> =
        db.embeddings.iter().filter(|e| e.item_id == 1).collect();
    assert_eq!(owned.len(), 5);
    for e in &db.embeddings {
        assert!(!old_ids.contains(&e.id), "an old embedding row survived");
    }
    let item = db.get_item(1).unwrap();
    assert_eq!(item.name, "Y");
    assert_eq!(item.description, "p\nq\nr");
    // the item keeps its id, its container and its photos
    assert_eq!(db.get_small_image(1).unwrap(), vec![5]);
    assert_eq!(db.get_large_image(1).unwrap(), vec![6]);
}

#[test]
fn import_log_lifecycle() {
    let mut db = Database::init();
    let id = db.log_new_import("upload.zip", "Added to queue", ROOT_CONTAINER_ID).unwrap();
    assert_eq!(id, 1);
    assert_eq!(db.imports[0].status, "Added to queue");
    db.update_import(id, "Starting").unwrap();
    assert_eq!(db.imports[0].status, "Starting");
    db.cancel_import(id, None).unwrap();
    assert_eq!(db.imports[0].status, "FAILED");
    db.cancel_import(id, Some("bad archive")).unwrap();
    assert_eq!(db.imports[0].status, "bad archive");
    assert_eq!(db.update_import(9, "X").unwrap_err(), StoreError::NotFound);
    assert_eq!(db.cancel_import(9, None).unwrap_err(), StoreError::NotFound);
    assert_eq!(db.imports[0].source, "upload.zip");
}

#[test]
fn split_and_join_round_small_cases() {
    assert_eq!(split_nl(""), vec![String::new()]);
    assert_eq!(split_nl("a\nb"), vec![String::from("a"), String::from("b")]);
    assert_eq!(split_nl("a\n"), vec![String::from("a"), String::new()]);
    assert_eq!(join_nl(&vec![String::from("a"), String::from("b")]), "a\nb");
    assert_eq!(join_nl(&vec![]), "");
    assert_eq!(join_nl(&vec![String::from("x")]), "x");
}

#[test]
fn lexicographic_compare() {
    assert!(str_lex_le("apple", "banana"));
    assert!(!str_lex_le("banana", "apple"));
    assert!(str_lex_le("app", "apple"));
    assert!(str_lex_le("same", "same"));
}

#[test]
fn error_messages() {
    assert_eq!(StoreError::NotFound.message(), "not found");
    assert_eq!(StoreError::InvalidInput.message(), "invalid input");
    assert_eq!(StoreError::Storage.message(), "storage error");
}
