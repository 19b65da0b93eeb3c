use ic_todo_crud_backend::{StoreError, Task, TaskStore};

fn task(title: &str, description: &str, status: &str) -> Task {
    Task {
        title: title.to_string(),
        description: description.to_string(),
        status: status.to_string(),
    }
}

fn numbered(store: &mut TaskStore, count: usize) -> Vec<Task> {
    let mut tasks = Vec::new();
    for i in 0..count {
        let t = task(
            &format!("Task {}", i + 1),
            &format!("Description {}", i + 1),
            "Todo",
        );
        store.add_task(t.clone());
        tasks.push(t);
    }
    tasks
}

#[test]
fn test_add_task() {
    let mut store = TaskStore::new();
    let task = Task {
        title: "Test Task".to_string(),
        description: "Test Description".to_string(),
        status: "Todo".to_string(),
    };

    let task_id = store.add_task(task.clone());
    assert_eq!(task_id, "task_1");

    assert_eq!(store.len(), 1);
    assert_eq!(store.get(&task_id).unwrap(), &task);
}

#[test]
fn test_get_tasks() {
    let mut store = TaskStore::new();
    let tasks = vec![
        Task {
            title: "Task 1".to_string(),
            description: "Description 1".to_string(),
            status: "Todo".to_string(),
        },
        Task {
            title: "Task 2".to_string(),
            description: "Description 2".to_string(),
            status: "InProgress".to_string(),
        },
    ];

    for (i, task) in tasks.iter().enumerate() {
        assert_eq!(store.add_task(task.clone()), format!("task_{}", i + 1));
    }

    let retrieved_tasks: Vec<Task> = store.get_tasks();
    for task in &tasks {
        assert!(
            retrieved_tasks.iter().any(|t| t == task),
            "Task not found: {:?}",
            task
        );
    }
    assert_eq!(retrieved_tasks, tasks);
}

#[test]
fn test_change_task_status() {
    let mut store = TaskStore::new();
    let task = Task {
        title: "Test Task".to_string(),
        description: "Test Description".to_string(),
        status: "Todo".to_string(),
    };

    let task_id = store.add_task(task.clone());

    let result = store.change_task_status(task_id.clone(), "Done".to_string());
    assert_eq!(result.ok(), Some("done.".to_string()));

    let updated_task = store.get(&task_id).unwrap().clone();
    assert_eq!(updated_task.status, "Done");
}

#[test]
fn test_get_tasks_with_pagination() {
    let mut store = TaskStore::new();
    let tasks = vec![
        Task {
            title: "Task 1".to_string(),
            description: "Description 1".to_string(),
            status: "Todo".to_string(),
        },
        Task {
            title: "Task 2".to_string(),
            description: "Description 2".to_string(),
            status: "InProgress".to_string(),
        },
        Task {
            title: "Task 3".to_string(),
            description: "Description 3".to_string(),
            status: "Done".to_string(),
        },
        Task {
            title: "Task 4".to_string(),
            description: "Description 4".to_string(),
            status: "Done".to_string(),
        },
    ];

    for (i, task) in tasks.iter().enumerate() {
        assert_eq!(store.add_task(task.clone()), format!("task_{}", i + 1));
    }

    let paginated_tasks: Vec<Task> = store.get_task_with_pagination(1, 2).unwrap();
    assert_eq!(paginated_tasks, vec![tasks[0].clone(), tasks[1].clone()]);
    let paginated_tasks: Vec<Task> = store.get_task_with_pagination(2, 1).unwrap();
    assert_eq!(paginated_tasks, vec![tasks[1].clone()]);
    let paginated_tasks: Vec<Task> = store.get_task_with_pagination(2, 2).unwrap();
    assert_eq!(paginated_tasks, vec![tasks[2].clone(), tasks[3].clone()]);
}

#[test]
fn test_update_todo_description() {
    let mut store = TaskStore::new();
    let task = Task {
        title: "Test Task".to_string(),
        description: "Test Description".to_string(),
        status: "Todo".to_string(),
    };

    let task_id = store.add_task(task.clone());

    let result = store.update_task_description(task_id.clone(), "Updated Description".to_string());
    assert_eq!(result.ok(), Some("done.".to_string()));

    let updated_task = store.get(&task_id).unwrap().clone();
    assert_eq!(updated_task.description, "Updated Description");
}

#[test]
fn test_delete_todo_by_id() {
    let mut store = TaskStore::new();
    let task = Task {
        title: "Test Task".to_string(),
        description: "Test Description".to_string(),
        status: "Todo".to_string(),
    };

    let task_id = store.add_task(task.clone());

    let result = store.delete_task_by_id(task_id.clone());
    assert_eq!(result.ok(), Some("done.".to_string()));

    assert_eq!(store.get(&task_id), None);
}

#[test]
fn new_store_is_empty() {
    let store = TaskStore::new();
    assert_eq!(store.len(), 0);
    assert_eq!(store.issued(), 0);
    assert_eq!(store.get_tasks(), Vec::<Task>::new());
    assert_eq!(store.get("task_1"), None);
}

#[test]
fn identifiers_count_up_from_one() {
    let mut store = TaskStore::new();
    for n in 1..=12u64 {
        let id = store.add_task(task("t", "", "Todo"));
        assert_eq!(id, format!("task_{}", n));
        assert_eq!(store.issued(), n);
    }
    assert_eq!(store.len(), 12);
}

#[test]
fn identifiers_are_not_reused_after_deletes() {
    let mut store = TaskStore::new();
    assert_eq!(store.add_task(task("a", "", "Todo")), "task_1");
    assert_eq!(store.add_task(task("b", "", "Todo")), "task_2");
    assert_eq!(store.delete_task_by_id("task_1".to_string()), Ok("done.".to_string()));
    assert_eq!(store.add_task(task("c", "", "Todo")), "task_3");
    assert_eq!(store.delete_task_by_id("task_3".to_string()), Ok("done.".to_string()));
    assert_eq!(store.delete_task_by_id("task_2".to_string()), Ok("done.".to_string()));
    assert_eq!(store.len(), 0);
    assert_eq!(store.add_task(task("d", "", "Todo")), "task_4");
    assert_eq!(store.issued(), 4);
    assert_eq!(store.get("task_1"), None);
    assert_eq!(store.get("task_2"), None);
    assert_eq!(store.get("task_3"), None);
    assert_eq!(store.get("task_4"), Some(&task("d", "", "Todo")));
}

#[test]
fn identifiers_strictly_increase_under_interleaving() {
    let mut store = TaskStore::new();
    let mut handed_out: Vec<u64> = Vec::new();
    for round in 0..30u64 {
        let id = store.add_task(task("x", "", "Todo"));
        let n: u64 = id.strip_prefix("task_").unwrap().parse().unwrap();
        if let Some(last) = handed_out.last() {
            assert!(n > *last);
        }
        assert!(!handed_out.contains(&n));
        handed_out.push(n);
        if round % 3 == 0 {
            assert_eq!(store.delete_task_by_id(id), Ok("done.".to_string()));
        }
        if round % 5 == 0 {
            let _ = store.change_task_status(format!("task_{}", round), "Done".to_string());
        }
    }
    assert_eq!(handed_out, (1..=30).collect::<Vec<u64>>());
}

#[test]
fn added_task_is_found_as_added() {
    let mut store = TaskStore::new();
    numbered(&mut store, 3);
    let t = task("", "", "");
    let id = store.add_task(t.clone());
    assert_eq!(id, "task_4");
    assert_eq!(store.get(&id), Some(&t));
    assert_eq!(store.get_tasks().last(), Some(&t));
    let rich = task("Title \u{1F600}", "line one\nline two", "Backlog");
    let id = store.add_task(rich.clone());
    assert_eq!(store.get(&id), Some(&rich));
    assert_eq!(store.get_tasks().last(), Some(&rich));
    assert_eq!(store.len(), 5);
}

#[test]
fn listing_is_in_order_of_identifiers() {
    let mut store = TaskStore::new();
    let tasks = numbered(&mut store, 6);
    assert_eq!(store.get_tasks(), tasks);
    assert_eq!(store.delete_task_by_id("task_2".to_string()), Ok("done.".to_string()));
    assert_eq!(store.delete_task_by_id("task_5".to_string()), Ok("done.".to_string()));
    let late = task("late", "", "Todo");
    assert_eq!(store.add_task(late.clone()), "task_7");
    assert_eq!(
        store.get_tasks(),
        vec![tasks[0].clone(), tasks[2].clone(), tasks[3].clone(), tasks[5].clone(), late]
    );
}

#[test]
fn change_after_delete_is_not_found() {
    let mut store = TaskStore::new();
    numbered(&mut store, 3);
    let before = store.get_tasks();
    assert_eq!(store.delete_task_by_id("task_2".to_string()), Ok("done.".to_string()));
    assert_eq!(
        store.change_task_status("task_2".to_string(), "Done".to_string()),
        Err(StoreError::NotFound)
    );
    assert_eq!(
        store.update_task_description("task_2".to_string(), "x".to_string()),
        Err(StoreError::NotFound)
    );
    assert_eq!(store.get_tasks(), vec![before[0].clone(), before[2].clone()]);
}

#[test]
fn second_delete_is_not_found() {
    let mut store = TaskStore::new();
    numbered(&mut store, 2);
    assert_eq!(store.delete_task_by_id("task_1".to_string()), Ok("done.".to_string()));
    assert_eq!(store.delete_task_by_id("task_1".to_string()), Err(StoreError::NotFound));
    assert_eq!(store.len(), 1);
    assert_eq!(store.issued(), 2);
}

#[test]
fn unknown_identifiers_are_not_found() {
    let mut store = TaskStore::new();
    let tasks = numbered(&mut store, 2);
    for key in [
        "", "task_", "task_0", "task_3", "task_01", "task_+1", "task_-1", "task_1 ", " task_1",
        "Task_1", "task1", "1", "task_1a", "task_1.0", "task_\u{0661}", "task_\u{FF11}",
        "task_18446744073709551615", "task_18446744073709551616",
        "task_99999999999999999999999999999999999999999999",
    ] {
        assert_eq!(store.get(key), None, "{:?}", key);
        assert_eq!(
            store.change_task_status(key.to_string(), "Done".to_string()),
            Err(StoreError::NotFound),
            "{:?}",
            key
        );
        assert_eq!(
            store.update_task_description(key.to_string(), "x".to_string()),
            Err(StoreError::NotFound),
            "{:?}",
            key
        );
        assert_eq!(
            store.delete_task_by_id(key.to_string()),
            Err(StoreError::NotFound),
            "{:?}",
            key
        );
    }
    assert_eq!(store.get_tasks(), tasks);
    assert_eq!(store.issued(), 2);
}

#[test]
fn status_change_keeps_title_and_description() {
    let mut store = TaskStore::new();
    let id = store.add_task(task("Test Task", "Test Description", "Todo"));
    assert_eq!(store.change_task_status(id, "Done".to_string()), Ok("done.".to_string()));
    assert_eq!(store.get_tasks(), vec![task("Test Task", "Test Description", "Done")]);
}

#[test]
fn description_change_keeps_title_and_status() {
    let mut store = TaskStore::new();
    let id = store.add_task(task("Test Task", "Test Description", "Todo"));
    assert_eq!(
        store.update_task_description(id, "Updated Description".to_string()),
        Ok("done.".to_string())
    );
    assert_eq!(store.get_tasks(), vec![task("Test Task", "Updated Description", "Todo")]);
}

#[test]
fn changes_touch_only_the_named_task() {
    let mut store = TaskStore::new();
    let tasks = numbered(&mut store, 5);
    assert_eq!(store.delete_task_by_id("task_2".to_string()), Ok("done.".to_string()));
    assert_eq!(
        store.change_task_status("task_4".to_string(), "InProgress".to_string()),
        Ok("done.".to_string())
    );
    assert_eq!(
        store.update_task_description("task_5".to_string(), "".to_string()),
        Ok("done.".to_string())
    );
    assert_eq!(
        store.get_tasks(),
        vec![
            tasks[0].clone(),
            tasks[2].clone(),
            task("Task 4", "Description 4", "InProgress"),
            task("Task 5", "", "Todo"),
        ]
    );
    assert_eq!(store.issued(), 5);
}

#[test]
fn status_is_free_text() {
    let mut store = TaskStore::new();
    let id = store.add_task(task("t", "d", "Todo"));
    for status in ["Backlog", "", "not a status", "DONE", "\u{2713}"] {
        assert_eq!(
            store.change_task_status(id.clone(), status.to_string()),
            Ok("done.".to_string())
        );
        assert_eq!(store.get(&id).unwrap().status, status);
    }
}

#[test]
fn delete_then_list_is_empty() {
    let mut store = TaskStore::new();
    let id = store.add_task(task("Test Task", "Test Description", "Todo"));
    assert_eq!(store.delete_task_by_id(id.clone()), Ok("done.".to_string()));
    assert_eq!(store.get_tasks(), Vec::<Task>::new());
    assert_eq!(
        store.update_task_description(id, "x".to_string()),
        Err(StoreError::NotFound)
    );
}

#[test]
fn lookup_finds_every_live_task_among_gaps() {
    let mut store = TaskStore::new();
    let tasks = numbered(&mut store, 60);
    for n in (1..=60).filter(|n| n % 2 == 1 || n % 7 == 0) {
        assert_eq!(store.delete_task_by_id(format!("task_{}", n)), Ok("done.".to_string()));
    }
    for n in 1..=60usize {
        let found = store.get(&format!("task_{}", n));
        if n % 2 == 1 || n % 7 == 0 {
            assert_eq!(found, None);
        } else {
            assert_eq!(found, Some(&tasks[n - 1]));
        }
    }
    assert_eq!(store.get("task_61"), None);
}

#[test]
fn default_task_is_blank() {
    assert_eq!(Task::default(), task("", "", ""));
}

#[test]
fn clone_of_task_is_equal() {
    let t = task("a", "b", "c");
    assert_eq!(t.clone(), t);
}
