use todo_tree::item::ToDoItem;
use todo_tree::item::add_subitem;
use todo_tree::item::push_item;
use todo_tree::item::set_status;
use todo_tree::render::calculate_lengths;
use todo_tree::render::digit_count;
use todo_tree::render::print_char_n_times;
use todo_tree::render::print_divider;
use todo_tree::render::print_header;
use todo_tree::render::print_todo_item;
use todo_tree::render::print_todo_list;
use todo_tree::render::usize_to_string;

fn root() -> ToDoItem {
    ToDoItem::new("To Do List".to_string(), String::new(), String::new())
}

fn task(name: &str) -> ToDoItem {
    ToDoItem::new(name.to_string(), String::new(), String::new())
}

#[test]
fn empty_tree_prints_header_between_dividers() {
    let tree = root();
    let out = print_todo_list(&tree).unwrap();
    let divider = "-".repeat(28);
    let expected = format!("{divider}\n| Name | Due | Description |\n{divider}\n");
    assert_eq!(out, expected);
}

#[test]
fn single_task_table() {
    let mut tree = root();
    push_item(&mut tree, task("A"));
    let out = print_todo_list(&tree).unwrap();
    let divider = "-".repeat(32);
    let expected = format!(
        "{divider}\n\
         | Name     | Due | Description |\n\
         {divider}\n\
         | 1. [ ] A |     |             |\n\
         {divider}\n"
    );
    assert_eq!(out, expected);
}

#[test]
fn nested_checked_task_aligns_with_its_parent() {
    let mut tree = root();
    push_item(&mut tree, task("Clean"));
    assert!(add_subitem(&mut tree, vec![0], task("Kitchen")));
    assert!(set_status(&mut tree, vec![0, 0], true));
    let out = print_todo_list(&tree).unwrap();
    let divider = "-".repeat(42);
    let expected = format!(
        "{divider}\n\
         | Name               | Due | Description |\n\
         {divider}\n\
         | 1. [ ] Clean       |     |             |\n\
         |     1. [x] Kitchen |     |             |\n\
         {divider}\n"
    );
    assert_eq!(out, expected);
}

#[test]
fn every_top_level_task_gets_its_own_divider() {
    let mut tree = root();
    push_item(&mut tree, task("A"));
    push_item(&mut tree, task("B"));
    let out = print_todo_list(&tree).unwrap();
    let divider_count = out.lines().filter(|l| l.chars().all(|c| c == '-') && !l.is_empty()).count();
    // one above the header, one before each of the two tasks, one at the end
    assert_eq!(divider_count, 4);
    let header_count = out.lines().filter(|l| l.starts_with("| Name ")).count();
    assert_eq!(header_count, 1);
}

#[test]
fn widths_grow_with_the_longest_fields() {
    let mut tree = root();
    push_item(
        &mut tree,
        ToDoItem::new(
            "Task".to_string(),
            "2024-01-01".to_string(),
            "weekly shopping trip".to_string(),
        ),
    );
    let (name_w, due_w, desc_w) = calculate_lengths(&tree.subitems, 0);
    assert_eq!((name_w, due_w, desc_w), (11, 10, 20));
}

#[test]
fn measurement_counts_indentation_and_labels() {
    let mut tree = root();
    push_item(&mut tree, task("Clean"));
    assert!(add_subitem(&mut tree, vec![0], task("Kitchen")));
    // "Kitchen" at depth 1: 7 + 4 + 1 + 6 = 18
    assert_eq!(calculate_lengths(&tree.subitems, 0), (18, 3, 11));
    // an empty tree keeps the header minimums
    assert_eq!(calculate_lengths(&root().subitems, 0), (4, 3, 11));
}

#[test]
fn tenth_entry_widens_by_its_second_digit() {
    let mut tree = root();
    for _ in 0..10 {
        push_item(&mut tree, task("A"));
    }
    // the tenth row label "10" needs one more column than "1".."9"
    assert_eq!(calculate_lengths(&tree.subitems, 0), (9, 3, 11));
    let out = print_todo_list(&tree).unwrap();
    assert!(out.contains("| 10. [ ] A |"));
    assert!(out.contains("| 9. [ ] A  |"));
}

#[test]
fn one_row_is_laid_out_against_given_widths() {
    let mut item = task("A");
    item.status = true;
    let row = print_todo_item(&item, 8, 3, 11, 2, 0);
    assert_eq!(row, "| 2. [x] A |     |             |\n");
    let nested = print_todo_item(&task("B"), 12, 3, 11, 1, 1);
    assert_eq!(nested, "|     1. [ ] B |     |             |\n");
}

#[test]
fn divider_and_header_building_blocks() {
    assert_eq!(print_divider(5), "-----\n");
    assert_eq!(print_header(4, 3, 11), "| Name | Due | Description |\n");
    assert_eq!(print_char_n_times('-', 3), "---");
    assert_eq!(print_char_n_times(' ', 0), "");
}

#[test]
fn numbers_print_in_decimal() {
    assert_eq!(usize_to_string(0), "0");
    assert_eq!(usize_to_string(7), "7");
    assert_eq!(usize_to_string(10), "10");
    assert_eq!(usize_to_string(345), "345");
    assert_eq!(usize_to_string(90210), "90210");
}

#[test]
fn digit_counts() {
    assert_eq!(digit_count(0), 1);
    assert_eq!(digit_count(9), 1);
    assert_eq!(digit_count(10), 2);
    assert_eq!(digit_count(345), 3);
    assert_eq!(digit_count(1000000), 7);
}
