//! The todo records and the validation of the forms that create and edit them.
use crate::text::{
    chars_of, is_whitespace_spec, lemma_trim_padding, lemma_trim_unchanged, trim_end, trim_start, str_eq, trim, trim_bounds, utf8_len,
    utf8_len_exceeds,
};
use vstd::prelude::*;
use vstd::string::StringExecFns;

verus! {

/// chrono's `NaiveDateTime`, the creation time of a todo. It is carried
/// through unread, so nothing about it is stated.
#[verifier::external_type_specification]
#[verifier::external_body]
pub struct ExNaiveDateTime(chrono::NaiveDateTime);

/// Longest accepted title, in bytes of UTF-8, after trimming.
pub const MAX_TITLE_BYTES: usize = 100;

/// Longest accepted description, in bytes of UTF-8.
pub const MAX_DESCRIPTION_BYTES: usize = 500;

/// A stored todo.
#[derive(Debug)]
pub struct Todo {
    pub id: i32,
    pub title: String,
    pub description: String,
    pub importance: String,
    pub completed: bool,
    pub created_at: chrono::NaiveDateTime,
}

/// The form that creates a todo.
#[derive(Debug)]
pub struct NewTodo {
    pub title: String,
    pub description: String,
    pub importance: String,
}

/// The form that edits a todo.
#[derive(Debug, Clone)]
pub struct TodoForm {
    pub id: i32,
    pub title: String,
    pub description: String,
    pub importance: String,
    pub completed: bool,
}

/// The three importance levels a todo can have.
pub open spec fn is_importance(s: Seq<char>) -> bool {
    s == "low"@ || s == "medium"@ || s == "high"@
}

/// The message of the first rule that the form's fields break, in the order
/// the rules are checked, or `None` when the fields are acceptable.
pub open spec fn form_error(title: Seq<char>, description: Seq<char>, importance: Seq<char>) -> Option<
    Seq<char>,
> {
    if trim(title).len() == 0 {
        Some("title cannot be empty"@)
    } else if utf8_len(trim(title)) > MAX_TITLE_BYTES {
        Some("title must be 100 characters or less"@)
    } else if utf8_len(description) > MAX_DESCRIPTION_BYTES {
        Some("description must be 500 characters or less"@)
    } else if !is_importance(importance) {
        Some("importance must be low, medium or high"@)
    } else {
        None
    }
}

/// How a validation outcome relates to the rules: `Ok` exactly when no rule
/// is broken, and otherwise the message of the first broken rule.
pub open spec fn validation_matches(
    res: Result<(), String>,
    title: Seq<char>,
    description: Seq<char>,
    importance: Seq<char>,
) -> bool {
    match res {
        Ok(_) => form_error(title, description, importance) is None,
        Err(msg) => form_error(title, description, importance) == Some(msg@),
    }
}

/// Checks the fields shared by both forms.
pub fn validate_fields(title: &str, description: &str, importance: &str) -> (res: Result<
    (),
    String,
>)
    ensures
        validation_matches(res, title@, description@, importance@),
{
    let title_chars = chars_of(title);
    let (start, end) = trim_bounds(&title_chars);
    if start == end {
        return Err(String::from_str("title cannot be empty"));
    }
    if utf8_len_exceeds(&title_chars, start, end, MAX_TITLE_BYTES) {
        return Err(String::from_str("title must be 100 characters or less"));
    }
    let description_chars = chars_of(description);
    let all = description_chars.len();
    proof {
        assert(description_chars@.subrange(0, all as int) =~= description@);
    }
    if utf8_len_exceeds(&description_chars, 0, all, MAX_DESCRIPTION_BYTES) {
        return Err(String::from_str("description must be 500 characters or less"));
    }
    if str_eq(importance, "low") || str_eq(importance, "medium") || str_eq(importance, "high") {
        Ok(())
    } else {
        Err(String::from_str("importance must be low, medium or high"))
    }
}

impl NewTodo {
    /// Returns `Err` with a message if the form data is invalid.
    pub fn validate(&self) -> (res: Result<(), String>)
        ensures
            validation_matches(res, self.title@, self.description@, self.importance@),
    {
        validate_fields(self.title.as_str(), self.description.as_str(), self.importance.as_str())
    }
}

impl TodoForm {
    /// Returns `Err` with a message if the form data is invalid.
    pub fn validate(&self) -> (res: Result<(), String>)
        ensures
            validation_matches(res, self.title@, self.description@, self.importance@),
    {
        validate_fields(self.title.as_str(), self.description.as_str(), self.importance.as_str())
    }
}


/// A form is accepted exactly when its trimmed title is not empty and at most
/// `MAX_TITLE_BYTES` bytes long, its description at most
/// `MAX_DESCRIPTION_BYTES` bytes long, and its importance one of low, medium
/// and high.
pub proof fn accepted_forms(title: Seq<char>, description: Seq<char>, importance: Seq<char>)
    ensures
        form_error(title, description, importance) is None <==> {
            &&& trim(title).len() > 0
            &&& utf8_len(trim(title)) <= MAX_TITLE_BYTES
            &&& utf8_len(description) <= MAX_DESCRIPTION_BYTES
            &&& is_importance(importance)
        },
{
}

/// Whitespace around a title changes nothing in how the form is judged.
pub proof fn title_padding_is_ignored(
    before: Seq<char>,
    title: Seq<char>,
    after: Seq<char>,
    description: Seq<char>,
    importance: Seq<char>,
)
    requires
        forall|i: int| 0 <= i < before.len() ==> is_whitespace_spec(#[trigger] before[i]),
        forall|i: int| 0 <= i < after.len() ==> is_whitespace_spec(#[trigger] after[i]),
    ensures
        form_error(before + title + after, description, importance) == form_error(
            title,
            description,
            importance,
        ),
{
    lemma_trim_padding(before, title, after);
}

/// A new-todo form and an edit form with the same title, description and
/// importance are judged alike: both accepted, or both refused with the same
/// message.
pub proof fn forms_validate_alike(new_todo: NewTodo, form: TodoForm, res: Result<(), String>)
    requires
        new_todo.title@ == form.title@,
        new_todo.description@ == form.description@,
        new_todo.importance@ == form.importance@,
    ensures
        validation_matches(res, new_todo.title@, new_todo.description@, new_todo.importance@)
            <==> validation_matches(res, form.title@, form.description@, form.importance@),
{
}


/// Only the three levels low, medium and high are accepted as importance:
/// a form is never accepted with any other text there, the empty one
/// included, and a form whose title and description pass is accepted exactly
/// when its importance is one of them, and otherwise refused with the
/// importance message.
pub proof fn importance_must_be_a_level(title: Seq<char>, description: Seq<char>, importance: Seq<char>)
    ensures
        form_error(title, description, importance) is None ==> (importance == "low"@ || importance
            == "medium"@ || importance == "high"@),
        form_error(title, description, "low"@) is None ==> {
            &&& (form_error(title, description, importance) is None <==> (importance == "low"@
                || importance == "medium"@ || importance == "high"@))
            &&& !(importance == "low"@ || importance == "medium"@ || importance == "high"@)
                ==> form_error(title, description, importance) == Some(
                "importance must be low, medium or high"@,
            )
        },
{
}

proof fn lemma_all_whitespace_trims_away(s: Seq<char>)
    requires
        forall|i: int| 0 <= i < s.len() ==> is_whitespace_spec(#[trigger] s[i]),
    ensures
        trim(s).len() == 0,
{
    lemma_trim_padding(s, Seq::<char>::empty(), Seq::<char>::empty());
    assert(s + Seq::<char>::empty() + Seq::<char>::empty() =~= s);
    assert(trim_start(Seq::<char>::empty()) == Seq::<char>::empty());
    assert(trim_end(Seq::<char>::empty()) == Seq::<char>::empty());
}

/// A title of whitespace only, the empty one included, is refused as empty,
/// whatever the other fields.
pub proof fn blank_title_is_refused(title: Seq<char>, description: Seq<char>, importance: Seq<char>)
    requires
        forall|i: int| 0 <= i < title.len() ==> is_whitespace_spec(#[trigger] title[i]),
    ensures
        form_error(title, description, importance) == Some("title cannot be empty"@),
{
    lemma_all_whitespace_trims_away(title);
}

proof fn lemma_ascii_utf8_len(s: Seq<char>)
    requires
        vstd::utf8::is_ascii_chars(s),
    ensures
        utf8_len(s) == s.len(),
{
    vstd::utf8::is_ascii_chars_encode_utf8(s);
}

/// For an ASCII title that does not start or end with whitespace, the title
/// rules come down to its length: more than 100 characters is refused with
/// the length message; from 1 to 100 the form is judged as if the title were
/// `"a"`.
pub proof fn ascii_title_length_rule(title: Seq<char>, description: Seq<char>, importance: Seq<char>)
    requires
        title.len() > 0,
        vstd::utf8::is_ascii_chars(title),
        !is_whitespace_spec(title[0]),
        !is_whitespace_spec(title.last()),
    ensures
        title.len() > 100 ==> form_error(title, description, importance) == Some(
            "title must be 100 characters or less"@,
        ),
        title.len() <= 100 ==> form_error(title, description, importance) == form_error(
            "a"@,
            description,
            importance,
        ),
{
    reveal_strlit("a");
    lemma_trim_unchanged(title);
    lemma_ascii_utf8_len(title);
    let a = "a"@;
    assert(a.len() == 1 && a[0] == 'a');
    lemma_trim_unchanged(a);
    assert(vstd::utf8::is_ascii_chars(a));
    lemma_ascii_utf8_len(a);
}

/// For an ASCII description, the description rule comes down to its length:
/// once the title passes, more than 500 characters is refused with the
/// description message, and up to 500 the form is judged as if the
/// description were empty.
pub proof fn ascii_description_length_rule(title: Seq<char>, description: Seq<char>, importance: Seq<char>)
    requires
        vstd::utf8::is_ascii_chars(description),
    ensures
        description.len() <= 500 ==> form_error(title, description, importance) == form_error(
            title,
            Seq::<char>::empty(),
            importance,
        ),
        description.len() > 500 && form_error(title, Seq::<char>::empty(), "low"@) is None
            ==> form_error(title, description, importance) == Some(
            "description must be 500 characters or less"@,
        ),
{
    lemma_ascii_utf8_len(description);
    assert(utf8_len(Seq::<char>::empty()) == 0);
}

} // verus!
