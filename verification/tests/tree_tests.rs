//! Exercises recursive deletion, cycle-free container moves, and the
//! rendered container tree.

use packrat::database::Database;
use packrat::errors::StoreError;
use packrat::ROOT_CONTAINER_ID;

fn embeds(n: usize) -> Vec<Vec<u8>> {
    (0..n).map(|k| vec![k as u8; 4]).collect()
}

fn stmts(parts: &[&str]) -> Vec<String> {
    parts.iter().map(|s| s.to_string()).collect()
}

#[test]
fn delete_container_removes_whole_subtree() {
    let mut db = Database::init();
    db.add_child_container("Room", ROOT_CONTAINER_ID).unwrap(); // id 2
    db.add_child_container("Shelf", 2).unwrap(); // id 3
    db.add_child_container("Box", 3).unwrap(); // id 4
    db.insert_item("A", &stmts(&["x"]), &vec![], &vec![], 3, embeds(3)).unwrap();
    db.insert_item("B", &stmts(&["y"]), &vec![], &vec![], 4, embeds(3)).unwrap();
    db.insert_item("Keep", &stmts(&["z"]), &vec![], &vec![], ROOT_CONTAINER_ID, embeds(3))
        .unwrap();

    db.delete_container(2).unwrap();

    for cid in [2, 3, 4] {
        assert_eq!(db.get_container_children(cid).unwrap_err(), StoreError::NotFound);
        assert_eq!(db.get_container_items(cid).unwrap_err(), StoreError::NotFound);
        assert_eq!(db.get_container_name(cid).unwrap_err(), StoreError::NotFound);
    }
    assert_eq!(db.get_item(1).unwrap_err(), StoreError::NotFound);
    assert_eq!(db.get_item(2).unwrap_err(), StoreError::NotFound);
    // the item outside the subtree survives, with its embeddings
    assert_eq!(db.get_item(3).unwrap().name, "Keep");
    assert_eq!(db.embeddings.iter().filter(|e| e.item_id == 3).count(), 3);
    assert_eq!(db.embeddings.len(), 3);
}

#[test]
fn delete_root_is_refused_and_missing_is_not_found() {
    let mut db = Database::init();
    assert_eq!(db.delete_container(ROOT_CONTAINER_ID).unwrap_err(), StoreError::InvalidInput);
    assert_eq!(db.delete_container(42).unwrap_err(), StoreError::NotFound);
    assert_eq!(db.get_container_name(ROOT_CONTAINER_ID).unwrap(), "ROOT");
}

#[test]
fn move_container_to_sibling() {
    let mut db = Database::init();
    db.add_child_container("A", ROOT_CONTAINER_ID).unwrap(); // 2
    db.add_child_container("B", ROOT_CONTAINER_ID).unwrap(); // 3
    db.move_container(3, 2).unwrap();
    assert_eq!(db.get_container_parent(3).unwrap(), 2);
    assert_eq!(db.get_container_parent(2).unwrap(), ROOT_CONTAINER_ID);
    assert_eq!(db.get_container_children(ROOT_CONTAINER_ID).unwrap(), vec![2]);
}

#[test]
fn move_container_under_own_descendant_splices_first() {
    let mut db = Database::init();
    db.add_child_container("A", ROOT_CONTAINER_ID).unwrap(); // 2
    db.add_child_container("B", 2).unwrap(); // 3, child of A
    db.add_child_container("C", 3).unwrap(); // 4, child of B
    // moving A under its descendant B must not create a cycle: B is first
    // spliced up to A's old parent (the root), then A goes under B
    db.move_container(2, 3).unwrap();
    assert_eq!(db.get_container_parent(3).unwrap(), ROOT_CONTAINER_ID);
    assert_eq!(db.get_container_parent(2).unwrap(), 3);
    assert_eq!(db.get_container_parent(4).unwrap(), 3);
    // walking parents from every container reaches the root
    for start in [2, 3, 4] {
        let mut cur = start;
        let mut steps = 0;
        while cur != ROOT_CONTAINER_ID {
            cur = db.get_container_parent(cur).unwrap();
            steps += 1;
            assert!(steps <= 4, "parent walk did not reach the root");
        }
    }
}

#[test]
fn move_container_refusals() {
    let mut db = Database::init();
    db.add_child_container("A", ROOT_CONTAINER_ID).unwrap(); // 2
    // moving onto itself changes nothing
    db.move_container(2, 2).unwrap();
    assert_eq!(db.get_container_parent(2).unwrap(), ROOT_CONTAINER_ID);
    assert_eq!(db.move_container(ROOT_CONTAINER_ID, 2).unwrap_err(), StoreError::InvalidInput);
    assert_eq!(db.move_container(9, 2).unwrap_err(), StoreError::NotFound);
    assert_eq!(db.move_container(2, 9).unwrap_err(), StoreError::NotFound);
}

#[test]
fn container_tree_sorts_children_case_insensitively() {
    let mut db = Database::init();
    db.add_child_container("banana", ROOT_CONTAINER_ID).unwrap(); // 2
    db.add_child_container("Apple", ROOT_CONTAINER_ID).unwrap(); // 3
    db.add_child_container("cherry", ROOT_CONTAINER_ID).unwrap(); // 4
    db.add_child_container("a", ROOT_CONTAINER_ID).unwrap(); // 5
    db.add_child_container("B", ROOT_CONTAINER_ID).unwrap(); // 6
    let tree = db.get_container_tree().unwrap();
    assert_eq!(tree.id, ROOT_CONTAINER_ID);
    assert_eq!(tree.name, "ROOT");
    let names: Vec<&str> = tree.containers.iter().map(|c| c.name.as_str()).collect();
    // case-insensitive: "a" before "Apple" before "B" before "banana"
    assert_eq!(names, vec!["a", "Apple", "B", "banana", "cherry"]);
}

#[test]
fn container_tree_nests_recursively() {
    let mut db = Database::init();
    db.add_child_container("Garage", ROOT_CONTAINER_ID).unwrap(); // 2
    db.add_child_container("Toolbox", 2).unwrap(); // 3
    db.add_child_container("Drawer", 3).unwrap(); // 4
    let tree = db.get_container_tree().unwrap();
    assert_eq!(tree.containers.len(), 1);
    let garage = &tree.containers[0];
    assert_eq!(garage.id, 2);
    assert_eq!(garage.containers.len(), 1);
    let toolbox = &garage.containers[0];
    assert_eq!(toolbox.id, 3);
    assert_eq!(toolbox.containers.len(), 1);
    assert_eq!(toolbox.containers[0].id, 4);
    assert_eq!(toolbox.containers[0].containers.len(), 0);
}
