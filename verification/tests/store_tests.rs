use todo_list::store::TodoApp;
use todo_list::task::TodoItem;

fn item(text: &str, completed: bool, due_date: Option<i64>) -> TodoItem {
    TodoItem { text: text.to_string(), completed, due_date }
}

fn texts(app: &TodoApp) -> Vec<String> {
    app.items.iter().map(|t| t.text.clone()).collect()
}

#[test]
fn sort_puts_incomplete_first_then_dated_ascending() {
    let mut app = TodoApp::new_at(
        vec![
            item("done-late", true, Some(50)),
            item("undated", false, None),
            item("soon", false, Some(10)),
            item("later", false, Some(20)),
            item("done-undated", true, None),
        ],
        2024,
        1,
        1,
    );
    app.sort_tasks();
    assert_eq!(texts(&app), vec!["soon", "later", "undated", "done-late", "done-undated"]);
}

#[test]
fn sort_is_stable_for_equal_keys() {
    let mut app = TodoApp::new_at(
        vec![
            item("b", false, Some(10)),
            item("a", false, Some(10)),
            item("c", false, None),
            item("d", false, None),
        ],
        2024,
        1,
        1,
    );
    app.sort_tasks();
    // Ties keep their original relative order.
    assert_eq!(texts(&app), vec!["b", "a", "c", "d"]);
}

#[test]
fn add_empty_text_changes_nothing() {
    let mut app = TodoApp::new_at(vec![item("x", false, None)], 2024, 1, 1);
    assert!(!app.add(String::new(), None));
    assert_eq!(app.items.len(), 1);
}

#[test]
fn add_whitespace_text_changes_nothing() {
    let mut app = TodoApp::new_at(vec![item("x", false, None)], 2024, 1, 1);
    assert!(!app.add("   ".to_string(), Some(5)));
    assert_eq!(app.items.len(), 1);
    assert!(!app.add("\t\n ".to_string(), None));
    // Unicode whitespace trims to nothing too.
    assert!(!app.add("\u{a0}\u{2003}\u{3000}".to_string(), None));
    assert_eq!(app.items.len(), 1);
}

#[test]
fn add_appends_incomplete_and_sorts() {
    let mut app = TodoApp::new_at(vec![item("x", false, Some(100))], 2024, 1, 1);
    assert!(app.add("y".to_string(), Some(50)));
    assert_eq!(texts(&app), vec!["y", "x"]);
    assert!(!app.items[0].completed);
}

#[test]
fn remove_out_of_bounds_changes_nothing() {
    let mut app = TodoApp::new_at(vec![item("x", false, None), item("y", true, None)], 2024, 1, 1);
    assert!(!app.remove(2));
    assert!(!app.remove(usize::MAX));
    assert_eq!(app.items.len(), 2);
    assert!(app.remove(1));
    assert_eq!(texts(&app), vec!["x"]);
}

#[test]
fn set_completed_out_of_bounds_changes_nothing() {
    let mut app = TodoApp::new_at(vec![item("x", false, None)], 2024, 1, 1);
    assert!(!app.set_completed(5, true));
    assert!(!app.items[0].completed);
    assert!(app.set_completed(0, true));
    assert!(app.items[0].completed);
}

#[test]
fn set_all_completed_flags_everything() {
    let mut app = TodoApp::new_at(
        vec![item("a", false, None), item("b", true, Some(3))],
        2024,
        1,
        1,
    );
    app.set_all_completed(true);
    assert!(app.items.iter().all(|t| t.completed));
    app.set_all_completed(false);
    assert!(app.items.iter().all(|t| !t.completed));
}

#[test]
fn remove_completed_keeps_order_of_rest() {
    let mut app = TodoApp::new_at(
        vec![
            item("a", true, None),
            item("b", false, Some(1)),
            item("c", true, Some(2)),
            item("d", false, None),
        ],
        2024,
        1,
        1,
    );
    app.remove_completed();
    assert_eq!(texts(&app), vec!["b", "d"]);
}

#[test]
fn submit_new_item_consumes_pending_entry() {
    let mut app = TodoApp::new_at(Vec::new(), 2024, 1, 1);
    app.new_item_text = "buy milk".to_string();
    app.new_item_date = Some(77);
    assert!(app.submit_new_item());
    assert_eq!(app.new_item_text, "");
    assert_eq!(app.new_item_date, None);
    assert_eq!(app.items.len(), 1);
    assert_eq!(app.items[0].text, "buy milk");
    assert_eq!(app.items[0].due_date, Some(77));
}

#[test]
fn picker_toggles_and_closes() {
    let mut app = TodoApp::new_at(Vec::new(), 2024, 1, 1);
    assert!(!app.show_date_picker);
    app.toggle_date_picker();
    assert!(app.show_date_picker);
    app.close_date_picker();
    assert!(!app.show_date_picker);
}
