use todo_list::todo::TodoList;

#[test]
fn test_add() {
    let mut todo_list = TodoList::new();
    todo_list.add("title".to_string(), "description".to_string());
    assert_eq!(todo_list.get_all().len(), 1);
    assert_eq!(todo_list.get_all()[0].id, 0);
    assert_eq!(todo_list.get_all()[0].title, "title");
    assert_eq!(todo_list.get_all()[0].description, "description");
    assert_eq!(todo_list.get_all()[0].done, false);
}

#[test]
fn test_get() {
    let mut todo_list = TodoList::new();
    todo_list.add("title".to_string(), "description".to_string());
    let todo = todo_list.get(0);
    assert_eq!(todo.is_some(), true);
    let todo = todo.unwrap();
    assert_eq!(todo.id, 0);
    assert_eq!(todo.title, "title");
    assert_eq!(todo.description, "description");
    assert_eq!(todo.done, false);
}

#[test]
fn test_get_mut() {
    let mut todo_list = TodoList::new();
    todo_list.add("title".to_string(), "description".to_string());
    let todo = todo_list.get_mut(0);
    assert_eq!(todo.is_some(), true);
    let todo = todo.unwrap();
    assert_eq!(todo.id, 0);
    assert_eq!(todo.title, "title");
    assert_eq!(todo.description, "description");
    assert_eq!(todo.done, false);
}

#[test]
fn test_remove() {
    let mut todo_list = TodoList::new();
    todo_list.add("title".to_string(), "description".to_string());
    let todo = todo_list.remove(0);
    assert_eq!(todo.is_some(), true);
    let todo = todo.unwrap();
    assert_eq!(todo.id, 0);
    assert_eq!(todo.title, "title");
    assert_eq!(todo.description, "description");
    assert_eq!(todo.done, false);
    assert_eq!(todo_list.get_all().len(), 0);
}

#[test]
fn test_mark_done() {
    let mut todo_list = TodoList::new();
    todo_list.add("title".to_string(), "description".to_string());
    let todo = todo_list.mark_done(0);
    assert_eq!(todo.is_some(), true);
    let todo = todo.unwrap();
    assert_eq!(todo.id, 0);
    assert_eq!(todo.title, "title");
    assert_eq!(todo.description, "description");
    assert_eq!(todo.done, true);
}

#[test]
fn test_mark_undone() {
    let mut todo_list = TodoList::new();
    todo_list.add("title".to_string(), "description".to_string());
    let todo = todo_list.mark_undone(0);
    assert_eq!(todo.is_some(), true);
    let todo = todo.unwrap();
    assert_eq!(todo.id, 0);
    assert_eq!(todo.title, "title");
    assert_eq!(todo.description, "description");
    assert_eq!(todo.done, false);
}

#[test]
fn sequential_ids_from_fresh_store() {
    let mut list = TodoList::new();
    list.add("a".to_string(), "1".to_string());
    list.add("b".to_string(), "2".to_string());
    list.add("c".to_string(), "3".to_string());
    assert_eq!(list.get_all()[0].id, 0);
    assert_eq!(list.get_all()[1].id, 1);
    assert_eq!(list.get_all()[2].id, 2);
}

#[test]
fn get_absent_id_is_none() {
    let mut list = TodoList::new();
    list.add("a".to_string(), "1".to_string());
    assert!(list.get(7).is_none());
    assert!(list.get_mut(7).is_none());
}

#[test]
fn remove_absent_id_leaves_store_unchanged() {
    let mut list = TodoList::new();
    list.add("a".to_string(), "1".to_string());
    list.add("b".to_string(), "2".to_string());
    assert!(list.remove(5).is_none());
    assert_eq!(list.get_all().len(), 2);
    assert_eq!(list.get_all()[0].title, "a");
    assert_eq!(list.get_all()[1].title, "b");
}

#[test]
fn remove_decreases_count_by_one() {
    let mut list = TodoList::new();
    list.add("a".to_string(), "1".to_string());
    list.add("b".to_string(), "2".to_string());
    let removed = list.remove(0).unwrap();
    assert_eq!(removed.id, 0);
    assert_eq!(removed.title, "a");
    assert_eq!(list.get_all().len(), 1);
}

#[test]
fn removed_tasks_are_not_renumbered() {
    let mut list = TodoList::new();
    list.add("first".to_string(), "1".to_string());
    list.add("second".to_string(), "2".to_string());
    let removed = list.remove(0).unwrap();
    assert_eq!(removed.id, 0);
    assert_eq!(list.get_all().len(), 1);
    assert_eq!(list.get_all()[0].id, 1);
    assert_eq!(list.get_all()[0].title, "second");
}

#[test]
fn mark_done_then_undone_restores_all_but_done() {
    let mut list = TodoList::new();
    list.add("a".to_string(), "1".to_string());
    list.add("b".to_string(), "2".to_string());
    {
        let t = list.mark_done(1).unwrap();
        assert_eq!(t.done, true);
    }
    {
        let t = list.mark_undone(1).unwrap();
        assert_eq!(t.id, 1);
        assert_eq!(t.title, "b");
        assert_eq!(t.description, "2");
        assert_eq!(t.done, false);
    }
    assert_eq!(list.get_all()[0].done, false);
    assert!(list.mark_done(9).is_none());
    assert!(list.mark_undone(9).is_none());
}

#[test]
fn count_based_ids_can_collide_after_removal() {
    let mut list = TodoList::new();
    list.add("a".to_string(), "1".to_string());
    list.add("b".to_string(), "2".to_string());
    list.remove(0);
    // the next id is the current count, so it duplicates the surviving task's
    list.add("c".to_string(), "3".to_string());
    assert_eq!(list.get_all()[0].id, 1);
    assert_eq!(list.get_all()[1].id, 1);
    // lookups and removal act on the first match only
    assert_eq!(list.get(1).unwrap().title, "b");
    let removed = list.remove(1).unwrap();
    assert_eq!(removed.title, "b");
    assert_eq!(list.get_all().len(), 1);
    assert_eq!(list.get_all()[0].title, "c");
}

#[test]
fn add_buy_milk_scenario() {
    let mut list = TodoList::new();
    list.add("Buy milk".to_string(), "2L".to_string());
    assert_eq!(list.get_all().len(), 1);
    let t = &list.get_all()[0];
    assert_eq!(t.id, 0);
    assert_eq!(t.title, "Buy milk");
    assert_eq!(t.description, "2L");
    assert_eq!(t.done, false);
}
