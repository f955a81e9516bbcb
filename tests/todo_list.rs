use todo_list::{TodoError, TodoList};

fn alice() -> String {
    "alice".to_string()
}

fn bob() -> String {
    "bob".to_string()
}

fn sorted(mut v: Vec<(u64, String, bool)>) -> Vec<(u64, String, bool)> {
    v.sort();
    v
}

#[test]
fn test_add_todo() {
    let mut contract = TodoList::new();
    contract.add_todo(&alice(), "Test todo".to_string());
    assert_eq!(contract.list_todos(&alice()).len(), 1);
}

#[test]
fn test_set_completed() {
    let mut contract = TodoList::new();
    contract.add_todo(&alice(), "Test todo".to_string());
    contract.set_completed(&alice(), 0).unwrap();
    let todos = contract.list_todos(&alice());
    assert_eq!(todos[0].2, true);
}

#[test]
fn test_delete_todo() {
    let mut contract = TodoList::new();
    contract.add_todo(&alice(), "Test todo".to_string());
    contract.delete_todo(&alice(), 0).unwrap();
    assert_eq!(contract.list_todos(&alice()).len(), 0);
}

#[test]
fn new_store_lists_nothing() {
    let contract = TodoList::new();
    assert!(contract.list_todos(&alice()).is_empty());
    assert!(contract.list_todos(&String::new()).is_empty());
    assert_eq!(contract.next_id(), 0);
}

#[test]
fn add_then_list_shows_one_new_entry() {
    let mut contract = TodoList::new();
    let a = contract.add_todo(&alice(), "first".to_string());
    let b = contract.add_todo(&bob(), "other".to_string());
    let c = contract.add_todo(&alice(), "second".to_string());
    assert_eq!((a, b, c), (0, 1, 2));
    assert_eq!(contract.next_id(), 3);
    assert_eq!(
        sorted(contract.list_todos(&alice())),
        vec![(0, "first".to_string(), false), (2, "second".to_string(), false)]
    );
    assert_eq!(contract.list_todos(&bob()), vec![(1, "other".to_string(), false)]);
}

#[test]
fn add_accepts_empty_text() {
    let mut contract = TodoList::new();
    let id = contract.add_todo(&alice(), String::new());
    assert_eq!(contract.list_todos(&alice()), vec![(id, String::new(), false)]);
}

#[test]
fn ids_not_reused_after_delete() {
    let mut contract = TodoList::new();
    let first = contract.add_todo(&alice(), "a".to_string());
    contract.delete_todo(&alice(), first).unwrap();
    let second = contract.add_todo(&alice(), "b".to_string());
    let third = contract.add_todo(&bob(), "c".to_string());
    assert_eq!(first, 0);
    assert_eq!(second, 1);
    assert_eq!(third, 2);
    assert_eq!(contract.list_todos(&alice()), vec![(1, "b".to_string(), false)]);
}

#[test]
fn complete_twice_is_idempotent() {
    let mut contract = TodoList::new();
    let id = contract.add_todo(&alice(), "task".to_string());
    assert_eq!(contract.set_completed(&alice(), id), Ok(()));
    assert_eq!(contract.set_completed(&alice(), id), Ok(()));
    assert_eq!(contract.list_todos(&alice()), vec![(id, "task".to_string(), true)]);
}

#[test]
fn owner_without_records_gets_not_found() {
    let mut contract = TodoList::new();
    assert_eq!(contract.set_completed(&alice(), 0), Err(TodoError::NotFound));
    assert_eq!(contract.delete_todo(&alice(), 0), Err(TodoError::NotFound));
    assert_eq!(contract.next_id(), 0);
}

#[test]
fn owner_whose_records_were_all_deleted_gets_not_found() {
    let mut contract = TodoList::new();
    let id = contract.add_todo(&alice(), "gone".to_string());
    assert_eq!(contract.delete_todo(&alice(), id), Ok(()));
    assert_eq!(contract.delete_todo(&alice(), id), Err(TodoError::NotFound));
    assert_eq!(contract.set_completed(&alice(), id), Err(TodoError::NotFound));
}

#[test]
fn complete_of_unknown_id_fails_but_delete_does_not() {
    let mut contract = TodoList::new();
    let id = contract.add_todo(&alice(), "keep".to_string());
    assert_eq!(contract.set_completed(&alice(), 42), Err(TodoError::NotFound));
    assert_eq!(contract.delete_todo(&alice(), 42), Ok(()));
    assert_eq!(contract.list_todos(&alice()), vec![(id, "keep".to_string(), false)]);
}

#[test]
fn records_are_isolated_per_owner() {
    let mut contract = TodoList::new();
    let id = contract.add_todo(&alice(), "x".to_string());
    assert_eq!(id, 0);
    assert_eq!(contract.set_completed(&bob(), 0), Err(TodoError::NotFound));
    assert_eq!(contract.delete_todo(&bob(), 0), Err(TodoError::NotFound));
    assert_eq!(contract.list_todos(&alice()), vec![(0, "x".to_string(), false)]);
    assert!(contract.list_todos(&bob()).is_empty());
}

#[test]
fn other_owner_cannot_delete_by_id() {
    let mut contract = TodoList::new();
    let a = contract.add_todo(&alice(), "mine".to_string());
    contract.add_todo(&bob(), "theirs".to_string());
    assert_eq!(contract.delete_todo(&bob(), a), Ok(()));
    assert_eq!(contract.list_todos(&alice()), vec![(a, "mine".to_string(), false)]);
}

#[test]
fn end_to_end_scenario() {
    let mut contract = TodoList::new();
    contract.add_todo(&alice(), "buy milk".to_string());
    contract.add_todo(&alice(), "walk dog".to_string());
    let todos = contract.list_todos(&alice());
    assert_eq!(todos.len(), 2);
    let milk = todos.iter().find(|t| t.1 == "buy milk").unwrap().0;
    let dog = todos.iter().find(|t| t.1 == "walk dog").unwrap().0;
    assert!(todos.iter().all(|t| !t.2));

    contract.set_completed(&alice(), milk).unwrap();
    assert_eq!(
        sorted(contract.list_todos(&alice())),
        sorted(vec![
            (milk, "buy milk".to_string(), true),
            (dog, "walk dog".to_string(), false),
        ])
    );

    contract.delete_todo(&alice(), dog).unwrap();
    assert_eq!(contract.list_todos(&alice()), vec![(milk, "buy milk".to_string(), true)]);
}

#[test]
fn records_round_trip_through_persistent_form() {
    let mut contract = TodoList::new();
    contract.add_todo(&alice(), "one".to_string());
    contract.add_todo(&bob(), "two".to_string());
    contract.add_todo(&alice(), "three".to_string());
    contract.set_completed(&alice(), 2).unwrap();
    contract.delete_todo(&alice(), 0).unwrap();
    let dump = contract.records();
    assert_eq!(
        dump,
        vec![
            ("bob".to_string(), 1, "two".to_string(), false),
            ("alice".to_string(), 2, "three".to_string(), true),
        ]
    );
    let mut restored = TodoList::from_records(&dump, contract.next_id()).unwrap();
    assert_eq!(restored.next_id(), 3);
    assert_eq!(restored.records(), dump);
    assert_eq!(restored.list_todos(&alice()), vec![(2, "three".to_string(), true)]);
    assert_eq!(restored.add_todo(&bob(), "four".to_string()), 3);
}

#[test]
fn from_records_rejects_ids_out_of_order() {
    let dump = vec![
        ("alice".to_string(), 4, "a".to_string(), false),
        ("bob".to_string(), 4, "b".to_string(), false),
    ];
    assert!(TodoList::from_records(&dump, 10).is_none());
    let dump = vec![
        ("alice".to_string(), 5, "a".to_string(), false),
        ("bob".to_string(), 2, "b".to_string(), false),
    ];
    assert!(TodoList::from_records(&dump, 10).is_none());
}

#[test]
fn from_records_rejects_ids_at_or_above_counter() {
    let dump = vec![("alice".to_string(), 3, "a".to_string(), false)];
    assert!(TodoList::from_records(&dump, 3).is_none());
    assert!(TodoList::from_records(&dump, 4).is_some());
    assert!(TodoList::from_records(&Vec::new(), 0).is_some());
}
