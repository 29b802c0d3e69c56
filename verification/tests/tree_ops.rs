use todo_tree::item::ToDoItem;
use todo_tree::item::add_subitem;
use todo_tree::item::delete_item;
use todo_tree::item::get_nth_parent;
use todo_tree::item::get_nth_todo;
use todo_tree::item::push_item;
use todo_tree::item::set_status;

fn root() -> ToDoItem {
    ToDoItem::new("To Do List".to_string(), String::new(), String::new())
}

fn task(name: &str) -> ToDoItem {
    ToDoItem::new(name.to_string(), String::new(), String::new())
}

#[test]
fn empty_path_resolves_to_nothing() {
    let mut tree = root();
    push_item(&mut tree, task("A"));
    assert!(get_nth_todo(&mut tree, Vec::new()).is_none());
}

#[test]
fn valid_path_resolves_to_the_task() {
    let mut tree = root();
    push_item(&mut tree, task("A"));
    push_item(&mut tree, task("B"));
    assert!(add_subitem(&mut tree, vec![1], task("B1")));
    let found = get_nth_todo(&mut tree, vec![1, 0]).expect("path 2.1 should resolve");
    assert_eq!(found.name, "B1");
    assert!(!found.status);
}

#[test]
fn out_of_range_segment_resolves_to_nothing() {
    let mut tree = root();
    push_item(&mut tree, task("A"));
    assert!(get_nth_todo(&mut tree, vec![1]).is_none());
    assert!(get_nth_todo(&mut tree, vec![0, 0]).is_none());
}

#[test]
fn unquoted_words_split_into_fields() {
    // `add Buy eggs 2024-01-01` hands three separate tokens over: the
    // task is named "Buy" and "eggs" lands in the due field
    let mut tree = root();
    push_item(
        &mut tree,
        ToDoItem::new("Buy".to_string(), "eggs".to_string(), "2024-01-01".to_string()),
    );
    let t = get_nth_todo(&mut tree, vec![0]).unwrap();
    assert_eq!(t.name, "Buy");
    assert_eq!(t.due, "eggs");
    assert_eq!(t.description, "2024-01-01");
}

#[test]
fn add_check_resolve_round_trip() {
    let mut tree = root();
    push_item(&mut tree, task("Clean"));
    assert!(add_subitem(&mut tree, vec![0], task("Kitchen")));
    assert!(set_status(&mut tree, vec![0, 0], true));
    let t = get_nth_todo(&mut tree, vec![0, 0]).expect("path 1.1 should resolve");
    assert_eq!(t.name, "Kitchen");
    assert!(t.status);
    assert_eq!(t.due, "");
    assert_eq!(t.description, "");
    assert!(t.subitems.is_empty());
}

#[test]
fn uncheck_clears_the_mark() {
    let mut tree = root();
    push_item(&mut tree, task("A"));
    assert!(set_status(&mut tree, vec![0], true));
    assert!(set_status(&mut tree, vec![0], false));
    assert!(!get_nth_todo(&mut tree, vec![0]).unwrap().status);
}

#[test]
fn check_on_unresolved_path_changes_nothing() {
    let mut tree = root();
    push_item(&mut tree, task("A"));
    assert!(!set_status(&mut tree, vec![3], true));
    assert!(!get_nth_todo(&mut tree, vec![0]).unwrap().status);
    assert_eq!(tree.subitems.len(), 1);
}

#[test]
fn delete_renumbers_later_siblings() {
    let mut tree = root();
    push_item(&mut tree, task("A"));
    push_item(&mut tree, task("B"));
    assert!(delete_item(&mut tree, vec![0]));
    assert_eq!(tree.subitems.len(), 1);
    let t = get_nth_todo(&mut tree, vec![0]).unwrap();
    assert_eq!(t.name, "B");
}

#[test]
fn delete_last_child_then_resolve_fails() {
    let mut tree = root();
    push_item(&mut tree, task("A"));
    assert!(add_subitem(&mut tree, vec![0], task("K1")));
    assert!(add_subitem(&mut tree, vec![0], task("K2")));
    assert!(delete_item(&mut tree, vec![0, 1]));
    assert!(get_nth_todo(&mut tree, vec![0, 1]).is_none());
    // the earlier sibling still resolves as before
    let t = get_nth_todo(&mut tree, vec![0, 0]).unwrap();
    assert_eq!(t.name, "K1");
}

#[test]
fn delete_takes_the_whole_subtree() {
    let mut tree = root();
    push_item(&mut tree, task("A"));
    assert!(add_subitem(&mut tree, vec![0], task("K1")));
    assert!(add_subitem(&mut tree, vec![0, 0], task("deep")));
    assert!(delete_item(&mut tree, vec![0]));
    assert!(tree.subitems.is_empty());
    assert!(get_nth_todo(&mut tree, vec![0]).is_none());
}

#[test]
fn delete_out_of_range_is_a_no_op() {
    let mut tree = root();
    push_item(&mut tree, task("A"));
    assert!(!delete_item(&mut tree, vec![5]));
    assert!(!delete_item(&mut tree, Vec::new()));
    assert_eq!(tree.subitems.len(), 1);
}

#[test]
fn add_under_unresolved_path_changes_nothing() {
    let mut tree = root();
    push_item(&mut tree, task("A"));
    assert!(!add_subitem(&mut tree, vec![2], task("lost")));
    assert_eq!(tree.subitems.len(), 1);
    assert!(tree.subitems[0].subitems.is_empty());
}

#[test]
fn parent_of_one_segment_path_is_the_root() {
    let mut tree = root();
    push_item(&mut tree, task("A"));
    let (parent, k) = get_nth_parent(&mut tree, vec![0]).unwrap();
    assert_eq!(parent.name, "To Do List");
    assert_eq!(k, 0);
}

#[test]
fn parent_of_longer_path_is_the_enclosing_task() {
    let mut tree = root();
    push_item(&mut tree, task("A"));
    assert!(add_subitem(&mut tree, vec![0], task("K1")));
    let (parent, k) = get_nth_parent(&mut tree, vec![0, 4]).unwrap();
    assert_eq!(parent.name, "A");
    assert_eq!(k, 4);
    assert!(get_nth_parent(&mut tree, vec![7, 0]).is_none());
    assert!(get_nth_parent(&mut tree, Vec::new()).is_none());
}

#[test]
fn mutation_through_resolution_reaches_the_tree() {
    let mut tree = root();
    push_item(&mut tree, task("A"));
    if let Some(t) = get_nth_todo(&mut tree, vec![0]) {
        t.status = true;
    }
    assert!(tree.subitems[0].status);
}
