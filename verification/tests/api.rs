use listem::api::{task_description, task_item_template, CheckValidInput, Html, TaskInput};

#[test]
fn checked_box_marks_task_done()
{
    let checked = CheckValidInput { complete: true, value: Some("on".to_owned()) };
    let unchecked = CheckValidInput { complete: true, value: None };
    assert!(checked.marks_done());
    assert!(!unchecked.marks_done());
}

#[test]
fn task_item_template_follows_done_state()
{
    assert_eq!(task_item_template(true), "task/item_checked");
    assert_eq!(task_item_template(false), "task/item_unchecked");
}

#[test]
fn task_description_defaults_to_empty()
{
    let input = TaskInput { title: "t".to_owned(), description: None, due_date: None };
    assert_eq!(task_description(&input.description), "");
    let input = TaskInput { title: "t".to_owned(), description: Some("d".to_owned()), due_date: Some("2024-01-01".to_owned()) };
    assert_eq!(task_description(&input.description), "d");
    let html = Html("3".to_owned());
    assert_eq!(html.0, "3");
}
