use todo_tree::item::ToDoItem;
use todo_tree::item::push_item;
use todo_tree::paths::convert_to_index_list;

#[test]
fn single_segment_becomes_zero_based() {
    assert_eq!(convert_to_index_list("1".to_string()), Some(vec![0]));
    assert_eq!(convert_to_index_list("12".to_string()), Some(vec![11]));
}

#[test]
fn dotted_path_splits_per_level() {
    assert_eq!(convert_to_index_list("2.1.3".to_string()), Some(vec![1, 0, 2]));
}

#[test]
fn leading_zeros_are_still_numbers() {
    assert_eq!(convert_to_index_list("01".to_string()), Some(vec![0]));
}

#[test]
fn malformed_segment_invalidates_the_path() {
    // a path like `1.x` is rejected whole, and because parsing fails
    // before any operation runs, the tree is left untouched
    let mut tree = ToDoItem::new("To Do List".to_string(), String::new(), String::new());
    push_item(
        &mut tree,
        ToDoItem::new("A".to_string(), String::new(), String::new()),
    );
    let parsed = convert_to_index_list("1.x".to_string());
    assert_eq!(parsed, None);
    assert_eq!(tree.subitems.len(), 1);
    assert_eq!(tree.subitems[0].name, "A");
}

#[test]
fn empty_and_dangling_segments_fail() {
    assert_eq!(convert_to_index_list(String::new()), None);
    assert_eq!(convert_to_index_list(".".to_string()), None);
    assert_eq!(convert_to_index_list("1.".to_string()), None);
    assert_eq!(convert_to_index_list(".1".to_string()), None);
    assert_eq!(convert_to_index_list("1..2".to_string()), None);
}

#[test]
fn zero_is_not_a_position() {
    assert_eq!(convert_to_index_list("0".to_string()), None);
    assert_eq!(convert_to_index_list("1.0".to_string()), None);
    assert_eq!(convert_to_index_list("00".to_string()), None);
}

#[test]
fn non_numeric_segments_fail() {
    assert_eq!(convert_to_index_list("x".to_string()), None);
    assert_eq!(convert_to_index_list("-1".to_string()), None);
    assert_eq!(convert_to_index_list("+1".to_string()), None);
    assert_eq!(convert_to_index_list("1 2".to_string()), None);
}

#[test]
fn oversized_segment_fails() {
    assert_eq!(
        convert_to_index_list("99999999999999999999999999999999".to_string()),
        None
    );
}
