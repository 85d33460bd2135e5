use listem::models::{NewTodo, Todo, TodoForm};
use listem::routes::{
    check_new_todo, check_todo_form, db_err, db_not_found, delete_outcome, home_page,
    todolist_page, STATUS_INTERNAL_SERVER_ERROR, STATUS_NOT_FOUND, STATUS_OK,
    STATUS_UNPROCESSABLE_ENTITY,
};

fn todo(id: i32, title: &str, importance: &str, completed: bool) -> Todo
{
    Todo {
        id,
        title: title.to_owned(),
        description: String::new(),
        importance: importance.to_owned(),
        completed,
        created_at: chrono::NaiveDateTime::default(),
    }
}

fn ids(todos: &[Todo]) -> Vec<i32>
{
    todos.iter().map(|t| t.id).collect()
}

fn sample() -> Vec<Todo>
{
    vec![
        todo(1, "banana", "low", false),
        todo(2, "Apple", "high", true),
        todo(3, "cherry", "medium", false),
        todo(4, "apple", "urgent", true),
        todo(5, "Banana", "high", false),
    ]
}

#[test]
fn todolist_without_sort_keeps_database_order()
{
    let page = todolist_page(sample(), None);
    assert_eq!(page.sort, "none");
    assert_eq!(ids(&page.todos), vec![1, 2, 3, 4, 5]);
    assert_eq!(page.total_completed, 2);
    assert_eq!(page.total_remaining, 3);

    let page = todolist_page(sample(), Some("date".to_owned()));
    assert_eq!(page.sort, "date");
    assert_eq!(ids(&page.todos), vec![1, 2, 3, 4, 5]);
}

#[test]
fn todolist_sorts_by_title_ignoring_case_and_stably()
{
    let page = todolist_page(sample(), Some("title".to_owned()));
    assert_eq!(page.sort, "title");
    assert_eq!(ids(&page.todos), vec![2, 4, 1, 5, 3]);
    assert_eq!(page.total_completed, 2);
    assert_eq!(page.total_remaining, 3);
}

#[test]
fn todolist_sorts_by_importance_high_first()
{
    let page = todolist_page(sample(), Some("importance".to_owned()));
    assert_eq!(ids(&page.todos), vec![2, 5, 3, 1, 4]);
}

#[test]
fn todolist_title_order_is_by_code_point()
{
    let todos = vec![todo(1, "zeta", "low", false), todo(2, "Éclair", "low", false), todo(3, "eclair", "low", true)];
    let page = todolist_page(todos, Some("title".to_owned()));
    assert_eq!(ids(&page.todos), vec![3, 1, 2]);
    assert_eq!(page.total_completed, 1);
}

#[test]
fn todolist_of_nothing()
{
    let page = todolist_page(Vec::new(), Some("title".to_owned()));
    assert!(page.todos.is_empty());
    assert_eq!(page.total_completed, 0);
    assert_eq!(page.total_remaining, 0);
}

#[test]
fn delete_of_no_row_is_not_found()
{
    let err = delete_outcome(0).unwrap_err();
    assert_eq!(err.status, STATUS_NOT_FOUND);
    assert_eq!(err.message, "todo not found");
    assert_eq!(delete_outcome(1).unwrap(), STATUS_OK);
    assert_eq!(delete_outcome(3).unwrap(), 200);
}

#[test]
fn database_errors_are_internal_errors()
{
    let err = db_err();
    assert_eq!(err.status, STATUS_INTERNAL_SERVER_ERROR);
    assert_eq!(err.status, 500);
    assert_eq!(err.message, "database error");
    let missing = db_not_found();
    assert_eq!(missing.status, 404);
    assert_eq!(missing.message, "todo not found");
}

#[test]
fn invalid_new_todo_is_unprocessable()
{
    let form = NewTodo { title: "   ".to_owned(), description: String::new(), importance: "low".to_owned() };
    let err = check_new_todo(&form).unwrap_err();
    assert_eq!(err.status, STATUS_UNPROCESSABLE_ENTITY);
    assert_eq!(err.status, 422);
    assert!(err.message.contains("title cannot be empty"));
    let ok = NewTodo { title: "csrf ok".to_owned(), description: String::new(), importance: "low".to_owned() };
    assert!(check_new_todo(&ok).is_ok());
}

#[test]
fn edit_with_bad_importance_is_unprocessable()
{
    let form = TodoForm {
        id:          1,
        title:       "after".to_owned(),
        description: String::new(),
        importance:  "urgent".to_owned(),
        completed:   false,
    };
    let err = check_todo_form(&form).unwrap_err();
    assert_eq!(err.status, 422);
    assert!(err.message.contains("importance must be low, medium or high"));
}

#[test]
fn home_page_shows_app_name()
{
    let page = home_page(&"Listem".to_owned());
    assert!(page.name.contains("Listem"));
}
