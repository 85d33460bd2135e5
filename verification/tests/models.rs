use listem::models::{NewTodo, TodoForm, MAX_DESCRIPTION_BYTES, MAX_TITLE_BYTES};

fn new_todo(title: &str, description: &str, importance: &str) -> NewTodo
{
    NewTodo {
        title:       title.to_owned(),
        description: description.to_owned(),
        importance:  importance.to_owned(),
    }
}

#[test]
fn new_todo_rejects_bad_input()
{
    let cases = [
        (
            NewTodo {
                title:       "  ".to_owned(),
                description: String::new(),
                importance:  "low".to_owned(),
            },
            false,
        ),
        (
            NewTodo {
                title:       "x".repeat(101),
                description: String::new(),
                importance:  "low".to_owned(),
            },
            false,
        ),
        (
            NewTodo {
                title:       "ok".to_owned(),
                description: "y".repeat(501),
                importance:  "low".to_owned(),
            },
            false,
        ),
        (
            NewTodo {
                title:       "ok".to_owned(),
                description: String::new(),
                importance:  "urgent".to_owned(),
            },
            false,
        ),
    ];

    for (form, expected) in cases
    {
        assert_eq!(form.validate().is_ok(), expected);
    }
}

#[test]
fn validation_messages_follow_rule_order()
{
    assert_eq!(new_todo(" \t ", "", "low").validate(), Err("title cannot be empty".to_string()));
    assert_eq!(
        new_todo(&"x".repeat(101), &"y".repeat(501), "urgent").validate(),
        Err("title must be 100 characters or less".to_string())
    );
    assert_eq!(
        new_todo("ok", &"y".repeat(501), "urgent").validate(),
        Err("description must be 500 characters or less".to_string())
    );
    assert_eq!(
        new_todo("ok", "", "urgent").validate(),
        Err("importance must be low, medium or high".to_string())
    );
    assert_eq!(new_todo("ok", "", "High").validate().is_ok(), false);
}

#[test]
fn valid_forms_are_accepted()
{
    for importance in ["low", "medium", "high"] {
        assert_eq!(new_todo("buy milk", "two bottles", importance).validate(), Ok(()));
    }
    assert_eq!(new_todo(&"x".repeat(MAX_TITLE_BYTES), &"y".repeat(MAX_DESCRIPTION_BYTES), "low").validate(), Ok(()));
}

#[test]
fn title_length_counts_bytes_after_trimming()
{
    let padded = format!("   {}   ", "x".repeat(100));
    assert_eq!(new_todo(&padded, "", "low").validate(), Ok(()));
    let accented = "é".repeat(50);
    assert_eq!(accented.len(), 100);
    assert_eq!(new_todo(&accented, "", "low").validate(), Ok(()));
    let longer = "é".repeat(51);
    assert!(new_todo(&longer, "", "low").validate().is_err());
    let description = "€".repeat(167);
    assert_eq!(description.len(), 501);
    assert!(new_todo("ok", &description, "low").validate().is_err());
}

#[test]
fn unicode_whitespace_is_trimmed()
{
    assert!(new_todo("\u{3000}\u{00A0}\u{2028}", "", "low").validate().is_err());
    assert_eq!(new_todo("\u{3000}a\u{205F}", "", "low").validate(), Ok(()));
    assert_eq!(new_todo("\u{200B}", "", "low").validate(), Ok(()));
}

#[test]
fn edit_form_rejects_bad_importance()
{
    let form = TodoForm {
        id:          7,
        title:       "after".to_owned(),
        description: String::new(),
        importance:  "urgent".to_owned(),
        completed:   false,
    };
    assert_eq!(form.validate(), Err("importance must be low, medium or high".to_string()));
    let ok = TodoForm { importance: "high".to_owned(), ..form.clone() };
    assert_eq!(ok.validate(), Ok(()));
}
