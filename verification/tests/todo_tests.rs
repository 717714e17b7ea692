use ws_chat::todo_list::{parse_todos, Todo, TodoList};
use ws_chat::todo_selector::{drawing_line_height, select_down, select_up};

#[test]
fn push_len_and_is_empty() {
    let mut list = TodoList::new();
    assert!(list.is_empty());
    assert_eq!(list.len(), 0);
    list.push(Todo { content: "Eat Food".to_string(), deadline: Some("2023-10-05".to_string()) });
    list.push(Todo { content: "Sleep".to_string(), deadline: None });
    assert!(!list.is_empty());
    assert_eq!(list.len(), 2);
    assert_eq!(list.iter()[0].content, "Eat Food");
    assert_eq!(list.iter()[1].content, "Sleep");
}

#[test]
fn remove_keeps_order_of_the_rest() {
    let mut list = TodoList::new();
    list.push(Todo { content: "a".to_string(), deadline: None });
    list.push(Todo { content: "b".to_string(), deadline: None });
    list.push(Todo { content: "c".to_string(), deadline: None });
    list.remove(1);
    assert_eq!(list.len(), 2);
    assert_eq!(list.iter()[0].content, "a");
    assert_eq!(list.iter()[1].content, "c");
}

#[test]
fn mutate_rewrites_one_entry() {
    let mut list = TodoList::new();
    list.push(Todo { content: "old".to_string(), deadline: None });
    list.mutate(0, |mut t| {
        t.content = "new".to_string();
        t.deadline = Some("2024-01-01".to_string());
        t
    });
    assert_eq!(list.iter()[0].content, "new");
    assert_eq!(list.iter()[0].deadline, Some("2024-01-01".to_string()));
}

#[test]
fn parse_todos_reads_content_and_deadline_pairs() {
    let bytes = "Eat Food\n2023-10-05\nSleep\nN/A\n".as_bytes().to_vec();
    let list = parse_todos(bytes);
    assert_eq!(list.len(), 2);
    assert_eq!(list.iter()[0].content, "Eat Food");
    assert_eq!(list.iter()[0].deadline, Some("2023-10-05".to_string()));
    assert_eq!(list.iter()[1].content, "Sleep");
    assert_eq!(list.iter()[1].deadline, None);
}

#[test]
fn parse_todos_accepts_crlf_line_endings() {
    let bytes = "Task\r\nN/A\r\n".as_bytes().to_vec();
    let list = parse_todos(bytes);
    assert_eq!(list.len(), 1);
    assert_eq!(list.iter()[0].content, "Task");
    assert_eq!(list.iter()[0].deadline, None);
}

#[test]
fn parse_todos_of_empty_file_is_empty() {
    let list = parse_todos(Vec::new());
    assert!(list.is_empty());
}

#[test]
fn cursor_moves_stay_inside_the_list() {
    let mut list = TodoList::new();
    list.push(Todo { content: "a".to_string(), deadline: None });
    list.push(Todo { content: "b".to_string(), deadline: None });

    let mut cursor: usize = 0;
    select_up(&mut cursor);
    assert_eq!(cursor, 0);
    select_down(&mut cursor, &list);
    assert_eq!(cursor, 1);
    select_down(&mut cursor, &list);
    assert_eq!(cursor, 1);
    select_up(&mut cursor);
    assert_eq!(cursor, 0);
}

#[test]
fn drawing_height_counts_two_rows_per_entry_plus_frame() {
    let mut list = TodoList::new();
    assert_eq!(drawing_line_height(&list), 3);
    list.push(Todo { content: "a".to_string(), deadline: None });
    list.push(Todo { content: "b".to_string(), deadline: None });
    assert_eq!(drawing_line_height(&list), 7);
}
