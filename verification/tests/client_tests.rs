use live_wait::client::{App, ClientAction, Key};
use live_wait::student::{Student, Timestamp};

fn students(names: &[(&str, &str)]) -> Vec<Student> {
    names
        .iter()
        .map(|(n, c)| Student::new(n.to_string(), c.to_string(), Timestamp { secs: 0, nanos: 0 }))
        .collect()
}

#[test]
fn new_app_knows_nobody() {
    let app = App::new();
    assert_eq!(app.selected_row(), 0);
    assert!(app.names().is_empty());
    assert_eq!(app.info(), "No one's here yet!");
}

#[test]
fn j_and_k_move_within_the_list() {
    let mut app = App::new();
    app.set_students(students(&[("ann", "a?"), ("bob", "b?"), ("cy", "c?")]));
    assert!(matches!(app.handle_key(Key::Char('k')), ClientAction::Redraw));
    assert_eq!(app.selected_row(), 0);
    assert!(matches!(app.handle_key(Key::Char('j')), ClientAction::Redraw));
    assert_eq!(app.selected_row(), 1);
    assert_eq!(app.info(), "b?");
    app.handle_key(Key::Char('j'));
    app.handle_key(Key::Char('j'));
    assert_eq!(app.selected_row(), 2);
    app.handle_key(Key::Char('k'));
    assert_eq!(app.selected_row(), 1);
}

#[test]
fn j_on_an_empty_list_stays() {
    let mut app = App::new();
    assert!(matches!(app.handle_key(Key::Char('j')), ClientAction::Redraw));
    assert_eq!(app.selected_row(), 0);
}

#[test]
fn other_keys() {
    let mut app = App::new();
    app.set_students(students(&[("ann", ""), ("bob", "")]));
    app.handle_key(Key::Char('j'));
    assert!(matches!(app.handle_key(Key::Char('q')), ClientAction::Quit));
    assert!(matches!(app.handle_key(Key::Char('p')), ClientAction::Pop));
    match app.handle_key(Key::Char('R')) {
        ClientAction::Leave(name) => assert_eq!(name, "bob"),
        _ => panic!("R should ask bob to leave"),
    }
    assert!(matches!(app.handle_key(Key::Char('x')), ClientAction::Ignore));
    assert!(matches!(app.handle_key(Key::Other), ClientAction::Ignore));
    assert_eq!(app.selected_row(), 1);
}

#[test]
fn info_after_the_list_shrinks() {
    let mut app = App::new();
    app.set_students(students(&[("ann", "x"), ("bob", "y")]));
    app.handle_key(Key::Char('j'));
    app.set_students(students(&[("ann", "x")]));
    assert_eq!(app.selected_row(), 1);
    assert_eq!(app.info(), "No one's here yet!");
    assert_eq!(app.names(), vec!["ann".to_string()]);
}
