use doru::todo::{Todo, TodoStatus};
use doru::todo_manager::TodoManager;
use doru::TodoError;

#[test]
fn get_id() {
    let todo = Todo::new(42, "Lorem Ipsum");
    assert_eq!(todo.id(), 42);
}

#[test]
fn renders_fixed_width_line() {
    let mut todo = Todo::new(42, "Learn Rust");
    todo.set_status(TodoStatus::Done);

    assert_eq!(todo.render(), "[x] Learn Rust           [Done        ] (ID: 42)");

    let open = Todo::new(7, "A task content that is longer than the column");
    assert_eq!(
        open.render(),
        "[ ] A task content that is longer than the column [Open        ] (ID: 7)"
    );

    let mut busy = Todo::new(3, "cook");
    busy.set_status(TodoStatus::InProgress);
    assert_eq!(busy.render(), "[ ] cook                 [InProgress  ] (ID: 3)");
}

#[test]
fn new_from_empty_vec_is_empty() {
    let manager = TodoManager::new(vec![]);

    assert_eq!(manager.all_todos(), Vec::<&Todo>::new());
}

#[test]
fn new_from_empty_has_last_counter_0() {
    let manager = TodoManager::new(vec![]);

    assert_eq!(manager.id_counter(), 0);
}

#[test]
fn new_from_existing_is_filled() {
    let todos = vec![Todo::new(0, "Lorem"), Todo::new(1, "Ipsum")];

    let manager = TodoManager::new(todos.clone());

    assert_eq!(manager.all_todos(), todos.iter().collect::<Vec<&Todo>>());
}

#[test]
fn new_from_existing_has_correct_id_counter() {
    let todos = vec![
        Todo::new(0, "Lorem"),
        Todo::new(10, "Ipsum"),
        Todo::new(2, "Dolor"),
    ];

    let manager = TodoManager::new(todos.clone());

    assert_eq!(manager.id_counter(), 10);
}

#[test]
fn new_from_existing_continues_after_max_id() {
    let todos = vec![
        Todo::new(0, "Lorem"),
        Todo::new(10, "Ipsum"),
        Todo::new(2, "Dolor"),
    ];

    let mut manager = TodoManager::new(todos);

    assert_eq!(manager.add_todo("Sit"), 11);
}

#[test]
fn add_todo_adds_todo() {
    let mut manager = TodoManager::default();

    let content = "Lorem Ipsum";
    manager.add_todo(content);

    let todos = manager.all_todos();
    assert_eq!(todos.len(), 1);
    assert_eq!(todos[0].content().as_str(), content);
    assert_eq!(todos[0].status(), TodoStatus::Open)
}

#[test]
fn add_todo_returns_correct_id() {
    let mut manager = TodoManager::default();

    let new_id = manager.add_todo("content");
    assert_eq!(new_id, 1);

    let new_id = manager.add_todo("another");
    assert_eq!(new_id, 2);
}

#[test]
fn ids_increment() {
    let mut manager = TodoManager::default();

    manager.add_todo("Lorem");
    manager.add_todo("Ipsum");

    assert_eq!(manager.all_todos()[1].id(), 2);
}

#[test]
fn ids_are_not_reused_after_delete() {
    let mut manager = TodoManager::default();

    let first = manager.add_todo("Lorem");
    assert_eq!(first, 1);
    manager.delete_todo(first).unwrap();

    assert_eq!(manager.add_todo("Ipsum"), 2);
}

#[test]
fn get_open_todos() {
    let mut manager = TodoManager::default();
    manager.add_todo("Lorem");
    manager.add_todo("Ipsum");
    manager.add_todo("Dolor");

    manager.change_todo_status(3, TodoStatus::InProgress).unwrap();

    let open_todos = manager.todos_by_status(TodoStatus::Open);

    assert_eq!(open_todos.len(), 2);

    let all = manager.all_todos();
    assert_eq!(open_todos, vec![all[0], all[1]]);
}

#[test]
fn get_in_progress_todos() {
    let mut manager = TodoManager::default();
    manager.add_todo("Lorem");
    manager.add_todo("Ipsum");
    manager.add_todo("Dolor");

    manager.change_todo_status(2, TodoStatus::InProgress).unwrap();

    let in_progress = manager.todos_by_status(TodoStatus::InProgress);

    assert_eq!(in_progress.len(), 1);

    let all = manager.all_todos();
    assert_eq!(in_progress, vec![all[1]]);
}

#[test]
fn get_all_todos() {
    let mut manager = TodoManager::default();

    manager.add_todo("Lorem");
    manager.add_todo("Ipsum");
    manager.add_todo("Dolor");
    manager.add_todo("Sit");

    let todos = manager.all_todos();

    assert_eq!(todos.len(), 4)
}

#[test]
fn get_existing_todo_by_id() {
    let mut manager = TodoManager::default();

    manager.add_todo("This has id 1");
    manager.add_todo("This has id 2");
    let id = manager.add_todo("This has id 3");

    let todo = manager.todo_by_id(id);

    let all = manager.all_todos();
    assert_eq!(todo, Some(all[2]))
}

#[test]
fn try_getting_non_existent_todo_by_id() {
    let manager = TodoManager::default();

    let todo = manager.todo_by_id(42);

    assert!(todo.is_none())
}

#[test]
fn edit_existing_todo_content_succeeds() {
    let mut manager = TodoManager::default();

    let new_id = manager.add_todo("This is a nice TODO.");

    let test_content = "This is even better!";
    let result = manager.edit_todo_content(new_id, test_content);

    assert_eq!(result, Ok(()));

    let updated_content = manager.todo_by_id(new_id).unwrap().content();
    assert_eq!(updated_content.as_str(), test_content)
}

#[test]
fn edit_nonexistent_todo_content_fails() {
    let mut manager = TodoManager::default();

    let result = manager.edit_todo_content(1, "Some content.");
    assert_eq!(result, Err(TodoError::NotFound(1)))
}

#[test]
fn edit_nonexistent_todo_leaves_todos_unchanged() {
    let todos = vec![Todo::new(1, "Lorem"), Todo::new(2, "Ipsum")];
    let mut manager = TodoManager::new(todos.clone());

    let result = manager.edit_todo_content(7, "Nope.");

    assert_eq!(result, Err(TodoError::NotFound(7)));
    assert_eq!(manager.all_todos(), todos.iter().collect::<Vec<&Todo>>());
}

#[test]
fn change_existing_todo_status_succeeds() {
    let mut manager = TodoManager::default();
    let new_id = manager.add_todo("Good to do.");

    let new_state = TodoStatus::InProgress;

    let result = manager.change_todo_status(new_id, new_state);
    assert_eq!(result, Ok(()));

    let updated_state = manager.todo_by_id(new_id).unwrap().status();
    assert_eq!(updated_state, new_state);
}

#[test]
fn change_nonexistent_todo_status_fails() {
    let mut manager = TodoManager::default();

    let result = manager.change_todo_status(42, TodoStatus::Done);
    assert_eq!(result, Err(TodoError::NotFound(42)));
}

#[test]
fn delete_existing_todo_succeeds() {
    let mut manager = TodoManager::default();
    let new_id = manager.add_todo("Lorem Ipsum");

    let result = manager.delete_todo(new_id);
    assert_eq!(result, Ok(()));

    assert!(manager.all_todos().is_empty());
}

#[test]
fn delete_nonexistent_todo_fails() {
    let mut manager = TodoManager::default();

    let result = manager.delete_todo(42);
    assert_eq!(result, Err(TodoError::NotFound(42)));
}

#[test]
fn delete_keeps_relative_order_of_the_rest() {
    let mut manager = TodoManager::default();
    manager.add_todo("Lorem");
    manager.add_todo("Ipsum");
    manager.add_todo("Dolor");

    manager.delete_todo(2).unwrap();

    let todos = manager.all_todos();
    assert_eq!(todos.len(), 2);
    assert_eq!(todos[0].id(), 1);
    assert_eq!(todos[0].content().as_str(), "Lorem");
    assert_eq!(todos[1].id(), 3);
    assert_eq!(todos[1].content().as_str(), "Dolor");
}

#[test]
fn duplicate_ids_affect_only_the_first_match() {
    let todos = vec![
        Todo::new(5, "first"),
        Todo::new(5, "second"),
        Todo::new(3, "third"),
    ];
    let mut manager = TodoManager::new(todos);

    assert_eq!(manager.todo_by_id(5).unwrap().content().as_str(), "first");

    manager.edit_todo_content(5, "edited").unwrap();
    assert_eq!(manager.all_todos()[0].content().as_str(), "edited");
    assert_eq!(manager.all_todos()[1].content().as_str(), "second");

    manager.change_todo_status(5, TodoStatus::Done).unwrap();
    assert_eq!(manager.all_todos()[0].status(), TodoStatus::Done);
    assert_eq!(manager.all_todos()[1].status(), TodoStatus::Open);

    manager.delete_todo(5).unwrap();
    let rest = manager.all_todos();
    assert_eq!(rest.len(), 2);
    assert_eq!(rest[0].content().as_str(), "second");
    assert_eq!(rest[1].content().as_str(), "third");
}

#[test]
fn end_to_end_scenario() {
    let mut manager = TodoManager::default();

    assert_eq!(manager.add_todo("Write report"), 1);
    assert_eq!(manager.add_todo("Buy milk"), 2);

    assert_eq!(manager.change_todo_status(1, TodoStatus::InProgress), Ok(()));

    let open = manager.todos_by_status(TodoStatus::Open);
    assert_eq!(open.len(), 1);
    assert_eq!(open[0].id(), 2);
    assert_eq!(open[0].content().as_str(), "Buy milk");
    assert_eq!(open[0].status(), TodoStatus::Open);

    assert_eq!(manager.delete_todo(1), Ok(()));
    assert!(manager.todo_by_id(1).is_none());
}
