//! What the request handlers compute: the pages they render, the arrangement
//! of the todo list and the errors they answer with. Reading and writing the
//! database, and rendering, happen around these functions.
use crate::models::{form_error, NewTodo, Todo, TodoForm};
use crate::sorting::{
    count_matching, is_stable_arrangement, is_stable_sort_of, lemma_count_complement,
    lemma_count_is_filter_len, lex_le, sort_by_keys,
};
use crate::text::{chars_of, str_eq, to_lowercase, unicode_lowercase};
use vstd::prelude::*;
use vstd::string::StringExecFns;

verus! {

/// HTTP status 200 OK.
pub const STATUS_OK: u16 = 200;

/// HTTP status 404 Not Found.
pub const STATUS_NOT_FOUND: u16 = 404;

/// HTTP status 422 Unprocessable Entity.
pub const STATUS_UNPROCESSABLE_ENTITY: u16 = 422;

/// HTTP status 500 Internal Server Error.
pub const STATUS_INTERNAL_SERVER_ERROR: u16 = 500;

/// The error answer of a handler: a status and a message for the body.
#[derive(Debug)]
pub struct ApiError {
    pub status: u16,
    pub message: String,
}

/// The answer to a failure of the database or of its connection pool.
pub fn db_err() -> (err: ApiError)
    ensures
        err.status == STATUS_INTERNAL_SERVER_ERROR,
        err.message@ == "database error"@,
{
    ApiError { status: STATUS_INTERNAL_SERVER_ERROR, message: String::from_str("database error") }
}

/// The answer when the todo a request names does not exist.
pub fn db_not_found() -> (err: ApiError)
    ensures
        err.status == STATUS_NOT_FOUND,
        err.message@ == "todo not found"@,
{
    ApiError { status: STATUS_NOT_FOUND, message: String::from_str("todo not found") }
}

/// The answer to form fields that break a rule: 422 and the rule's message,
/// present exactly when `form_error` names a broken rule.
pub open spec fn form_answer(res: Result<(), ApiError>, title: Seq<char>, description: Seq<char>, importance: Seq<char>) -> bool {
    match res {
        Ok(_) => form_error(title, description, importance) is None,
        Err(e) => e.status == STATUS_UNPROCESSABLE_ENTITY && form_error(
            title,
            description,
            importance,
        ) == Some(e.message@),
    }
}

/// The check `add_todo` makes before it stores a new todo.
pub fn check_new_todo(form: &NewTodo) -> (res: Result<(), ApiError>)
    ensures
        form_answer(res, form.title@, form.description@, form.importance@),
{
    match form.validate() {
        Ok(()) => Ok(()),
        Err(message) => Err(ApiError { status: STATUS_UNPROCESSABLE_ENTITY, message }),
    }
}

/// The check `edit_todo` makes before it stores an edited todo.
pub fn check_todo_form(form: &TodoForm) -> (res: Result<(), ApiError>)
    ensures
        form_answer(res, form.title@, form.description@, form.importance@),
{
    match form.validate() {
        Ok(()) => Ok(()),
        Err(message) => Err(ApiError { status: STATUS_UNPROCESSABLE_ENTITY, message }),
    }
}

/// The answer of `delete_todo` once the database has reported how many rows
/// it deleted: 404 when none was, 200 otherwise.
pub fn delete_outcome(deleted: usize) -> (res: Result<u16, ApiError>)
    ensures
        deleted == 0 ==> (res matches Err(e) && e.status == STATUS_NOT_FOUND && e.message@
            == "todo not found"@),
        deleted != 0 ==> res == Ok::<u16, ApiError>(STATUS_OK),
{
    if deleted == 0 {
        return Err(db_not_found());
    }
    Ok(STATUS_OK)
}

/// The 404 page.
pub struct NotFoundTemplate {}

/// The about page.
pub struct AboutTemplate {}

/// The home page, which shows the application's name.
pub struct HomeTemplate {
    pub name: String,
}

/// One todo, as shown in the list.
pub struct TodoTemplate {
    pub todo: Todo,
}

/// The form that edits one todo.
pub struct EditTodoTemplate {
    pub todo: Todo,
}

/// The todo list page.
pub struct TodoListTemplate {
    pub todos: Vec<Todo>,
    pub total_completed: i64,
    pub total_remaining: i64,
    pub sort: String,
}

/// The home page for an application of the given name.
pub fn home_page(app_name: &String) -> (page: HomeTemplate)
    ensures
        page.name@ == app_name@,
{
    HomeTemplate { name: app_name.clone() }
}

/// How the todo list is ordered.
#[derive(Clone, Copy, Debug, PartialEq, Eq, Structural)]
pub enum SortOrder {
    /// By title, ignoring case.
    Title,
    /// High, then medium, then everything else.
    Importance,
    /// In the order the database returned.
    Unsorted,
}

/// The order that the `sort` query parameter asks for.
pub open spec fn sort_order(sort: Seq<char>) -> SortOrder {
    if sort == "title"@ {
        SortOrder::Title
    } else if sort == "importance"@ {
        SortOrder::Importance
    } else {
        SortOrder::Unsorted
    }
}

/// Rank of an importance level in the list: high first, medium next, any
/// other value last.
pub open spec fn importance_rank(importance: Seq<char>) -> u32 {
    if importance == "high"@ {
        0
    } else if importance == "medium"@ {
        1
    } else {
        2
    }
}

/// The code points of a character sequence.
pub open spec fn code_points(s: Seq<char>) -> Seq<u32> {
    Seq::new(s.len(), |i: int| s[i] as u32)
}

/// The key a todo is sorted by: its lowercased title, compared by code
/// points, or its importance rank.
pub open spec fn sort_key(order: SortOrder, todo: Todo) -> Seq<u32> {
    match order {
        SortOrder::Title => code_points(unicode_lowercase(todo.title@)),
        SortOrder::Importance => seq![importance_rank(todo.importance@)],
        SortOrder::Unsorted => Seq::empty(),
    }
}

/// How many of the todos are completed.
pub open spec fn count_completed(todos: Seq<Todo>) -> nat {
    count_matching(todos, |t: Todo| t.completed)
}

/// String order on whole character sequences: `a` is a prefix of `b`, or at
/// the first position where they differ `a` has the smaller code point. This
/// is how `String`s compare.
pub open spec fn string_le(a: Seq<char>, b: Seq<char>) -> bool {
    ||| (a.len() <= b.len() && a == b.take(a.len() as int))
    ||| exists|k: int|
        0 <= k < a.len() && k < b.len() && a.take(k) == b.take(k) && (a[k] as u32) < (
        b[k] as u32)
}

proof fn lemma_code_points_drop_first(a: Seq<char>)
    requires
        a.len() > 0,
    ensures
        code_points(a).drop_first() == code_points(a.drop_first()),
        code_points(a)[0] == a[0] as u32,
{
    assert(code_points(a).drop_first() =~= code_points(a.drop_first()));
}

/// Comparing the code points of two sequences is comparing them as strings.
pub proof fn lemma_code_point_order(a: Seq<char>, b: Seq<char>)
    ensures
        lex_le(code_points(a), code_points(b)) <==> string_le(a, b),
    decreases a.len(),
{
    if a.len() == 0 {
        assert(a =~= b.take(0));
    } else if b.len() == 0 {
        if string_le(a, b) {
            let k = choose|k: int|
                0 <= k < a.len() && k < b.len() && a.take(k) == b.take(k) && (a[k] as u32) < (
                b[k] as u32);
        }
    } else {
        lemma_code_points_drop_first(a);
        lemma_code_points_drop_first(b);
        let (x, y) = (a[0] as u32, b[0] as u32);
        if x < y {
            assert(a.take(0) =~= b.take(0));
        } else if x > y {
            if string_le(a, b) {
                if a.len() <= b.len() && a == b.take(a.len() as int) {
                    assert(a[0] == b.take(a.len() as int)[0]);
                } else {
                    let k = choose|k: int|
                        0 <= k < a.len() && k < b.len() && a.take(k) == b.take(k) && (a[k]
                            as u32) < (b[k] as u32);
                    if k > 0 {
                        assert(a.take(k)[0] == b.take(k)[0]);
                    }
                }
            }
        } else {
            vstd::utf8::char_u32_cast(a[0], x);
            vstd::utf8::char_u32_cast(b[0], y);
            assert(a[0] == b[0]);
            let (a1, b1) = (a.drop_first(), b.drop_first());
            lemma_code_point_order(a1, b1);
            if string_le(a1, b1) {
                if a1.len() <= b1.len() && a1 == b1.take(a1.len() as int) {
                    assert forall|i: int| 0 <= i < a.len() implies #[trigger] a[i] == b[i] by {
                        if i > 0 {
                            assert(a[i] == a1[i - 1]);
                            assert(b1.take(a1.len() as int)[i - 1] == b[i]);
                        }
                    }
                    assert(a =~= b.take(a.len() as int));
                } else {
                    let k = choose|k: int|
                        0 <= k < a1.len() && k < b1.len() && a1.take(k) == b1.take(k) && (a1[k]
                            as u32) < (b1[k] as u32);
                    assert(a.take(k + 1) =~= b.take(k + 1)) by {
                        assert forall|i: int| 0 <= i < k + 1 implies #[trigger] a[i] == b[i] by {
                            if i > 0 {
                                assert(a1.take(k)[i - 1] == b1.take(k)[i - 1]);
                            }
                        }
                    }
                    assert(a[k + 1] == a1[k] && b[k + 1] == b1[k]);
                }
            }
            if string_le(a, b) {
                if a.len() <= b.len() && a == b.take(a.len() as int) {
                    assert(a1 =~= b1.take(a1.len() as int)) by {
                        assert forall|i: int| 0 <= i < a1.len() implies #[trigger] a1[i] == b1[i] by {
                            assert(a[i + 1] == b.take(a.len() as int)[i + 1]);
                        }
                    }
                } else {
                    let k = choose|k: int|
                        0 <= k < a.len() && k < b.len() && a.take(k) == b.take(k) && (a[k]
                            as u32) < (b[k] as u32);
                    assert(k != 0);
                    assert(a1.take(k - 1) =~= b1.take(k - 1)) by {
                        assert forall|i: int| 0 <= i < k - 1 implies #[trigger] a1[i] == b1[i] by {
                            assert(a.take(k)[i + 1] == b.take(k)[i + 1]);
                        }
                    }
                    assert(a1[k - 1] == a[k] && b1[k - 1] == b[k]);
                }
            }
        }
    }
}

/// Sorting by title compares whole lowercased titles as strings: one todo's
/// key comes first exactly when its lowercased title is at most the other's
/// in string order, and two keys are equal exactly when the lowercased titles
/// are.
pub proof fn title_keys_compare_whole_titles(a: Todo, b: Todo)
    ensures
        lex_le(sort_key(SortOrder::Title, a), sort_key(SortOrder::Title, b)) <==> string_le(
            unicode_lowercase(a.title@),
            unicode_lowercase(b.title@),
        ),
        sort_key(SortOrder::Title, a) == sort_key(SortOrder::Title, b) <==> unicode_lowercase(
            a.title@,
        ) == unicode_lowercase(b.title@),
{
    let (la, lb) = (unicode_lowercase(a.title@), unicode_lowercase(b.title@));
    lemma_code_point_order(la, lb);
    if code_points(la) == code_points(lb) {
        assert forall|i: int| 0 <= i < la.len() implies la[i] == lb[i] by {
            assert(code_points(la)[i] == code_points(lb)[i]);
            vstd::utf8::char_u32_cast(la[i], la[i] as u32);
            vstd::utf8::char_u32_cast(lb[i], lb[i] as u32);
        }
        assert(la =~= lb);
    }
}

/// `out` is `inp` rearranged so that items that are `same` keep their
/// original relative order.
pub open spec fn keeps_order_among(
    out: Seq<Todo>,
    inp: Seq<Todo>,
    same: spec_fn(Todo, Todo) -> bool,
) -> bool {
    exists|p: Seq<int>|
        {
            &&& crate::sorting::is_permutation(p, inp.len())
            &&& out.len() == inp.len()
            &&& forall|k: int| 0 <= k < out.len() ==> #[trigger] out[k] == inp[p[k]]
            &&& forall|k: int, l: int|
                0 <= k < l < out.len() && same(#[trigger] out[k], #[trigger] out[l]) ==> p[k]
                    < p[l]
        }
}

/// The importance levels in list order: high first, then medium, then
/// anything else.
pub open spec fn importance_before(a: Seq<char>, b: Seq<char>) -> bool {
    a == "high"@ || (b != "high"@ && (a == "medium"@ || b != "medium"@))
}

/// Sorting by importance looks at the importance alone: todos of equal
/// importance have equal keys whatever their other fields, and one key comes
/// first exactly when high precedes medium precedes the rest.
pub proof fn importance_keys_follow_importance_alone(a: Todo, b: Todo)
    ensures
        a.importance@ == b.importance@ ==> sort_key(SortOrder::Importance, a) == sort_key(
            SortOrder::Importance,
            b,
        ),
        lex_le(sort_key(SortOrder::Importance, a), sort_key(SortOrder::Importance, b))
            <==> importance_before(a.importance@, b.importance@),
{
    reveal_strlit("high");
    reveal_strlit("medium");
    let (ka, kb) = (sort_key(SortOrder::Importance, a), sort_key(SortOrder::Importance, b));
    assert(ka.drop_first() =~= Seq::<u32>::empty());
    assert(kb.drop_first() =~= Seq::<u32>::empty());
    assert(lex_le(Seq::<u32>::empty(), Seq::<u32>::empty()));
    assert(lex_le(ka, kb) <==> ka[0] <= kb[0]);
}

/// The completed total counts exactly the todos whose `completed` flag is
/// set, and the rest are the remaining ones.
pub proof fn completed_count_is_completed_todos(todos: Seq<Todo>)
    ensures
        count_completed(todos) == todos.filter(|t: Todo| t.completed).len(),
        todos.len() - count_completed(todos) == todos.filter(|t: Todo| !t.completed).len(),
{
    lemma_count_is_filter_len(todos, |t: Todo| t.completed);
    lemma_count_complement(todos, |t: Todo| t.completed);
    assert((|t: Todo| !t.completed) =~= (|x: Todo| !(|t: Todo| t.completed)(x)));
}

fn parse_sort_order(sort: &str) -> (order: SortOrder)
    ensures
        order == sort_order(sort@),
{
    if str_eq(sort, "title") {
        SortOrder::Title
    } else if str_eq(sort, "importance") {
        SortOrder::Importance
    } else {
        SortOrder::Unsorted
    }
}

fn key_of(order: SortOrder, todo: &Todo) -> (key: Vec<u32>)
    ensures
        key@ == sort_key(order, *todo),
{
    match order {
        SortOrder::Title => {
            let lower = to_lowercase(todo.title.as_str());
            let chars = chars_of(lower.as_str());
            let mut key: Vec<u32> = Vec::new();
            for i in 0..chars.len()
                invariant
                    chars@ == unicode_lowercase(todo.title@),
                    key@ == code_points(chars@).take(i as int),
            {
                key.push(chars[i] as u32);
                assert(code_points(chars@).take(i + 1) =~= code_points(chars@).take(i as int).push(
                    chars@[i as int] as u32,
                ));
            }
            assert(code_points(chars@).take(chars@.len() as int) =~= code_points(chars@));
            key
        },
        SortOrder::Importance => {
            let importance = todo.importance.as_str();
            let rank: u32 = if str_eq(importance, "high") {
                0
            } else if str_eq(importance, "medium") {
                1
            } else {
                2
            };
            let mut key: Vec<u32> = Vec::new();
            key.push(rank);
            assert(key@ =~= seq![rank]);
            key
        },
        SortOrder::Unsorted => {
            let key: Vec<u32> = Vec::new();
            assert(key@ =~= Seq::<u32>::empty());
            key
        },
    }
}

fn count_completed_exec(todos: &Vec<Todo>) -> (count: usize)
    ensures
        count == count_completed(todos@),
        count <= todos@.len(),
{
    let mut count: usize = 0;
    for i in 0..todos.len()
        invariant
            count == count_completed(todos@.take(i as int)),
            count <= i,
    {
        assert(todos@.take(i + 1).drop_last() =~= todos@.take(i as int));
        if todos[i].completed {
            count = count + 1;
        }
    }
    assert(todos@.take(todos@.len() as int) =~= todos@);
    count
}

/// The todo list page: the todos ordered as the `sort` parameter asks
/// (`"none"` when it is absent), with the counts of completed and remaining
/// todos.
pub fn todolist_page(todos: Vec<Todo>, sort: Option<String>) -> (page: TodoListTemplate)
    requires
        todos@.len() <= i64::MAX,
    ensures
        page.sort@ == (match sort {
            Some(s) => s@,
            None => "none"@,
        }),
        sort_order(page.sort@) == SortOrder::Unsorted ==> page.todos@ == todos@,
        sort_order(page.sort@) != SortOrder::Unsorted ==> is_stable_sort_of(
            page.todos@,
            todos@,
            |t: Todo| sort_key(sort_order(page.sort@), t),
        ),
        sort_order(page.sort@) == SortOrder::Title ==> {
            &&& forall|i: int, j: int|
                0 <= i < j < page.todos@.len() ==> string_le(
                    unicode_lowercase((#[trigger] page.todos@[i]).title@),
                    unicode_lowercase((#[trigger] page.todos@[j]).title@),
                )
            &&& keeps_order_among(
                page.todos@,
                todos@,
                |a: Todo, b: Todo| unicode_lowercase(a.title@) == unicode_lowercase(b.title@),
            )
        },
        sort_order(page.sort@) == SortOrder::Importance ==> {
            &&& forall|i: int, j: int|
                0 <= i < j < page.todos@.len() ==> importance_before(
                    (#[trigger] page.todos@[i]).importance@,
                    (#[trigger] page.todos@[j]).importance@,
                )
            &&& keeps_order_among(
                page.todos@,
                todos@,
                |a: Todo, b: Todo| a.importance@ == b.importance@,
            )
        },
        page.total_completed == count_completed(page.todos@),
        page.total_completed == count_completed(todos@),
        page.total_remaining == page.todos@.len() - count_completed(page.todos@),
        page.total_completed == todos@.filter(|t: Todo| t.completed).len(),
        page.total_remaining == todos@.filter(|t: Todo| !t.completed).len(),
{
    let sort = match sort {
        Some(s) => s,
        None => String::from_str("none"),
    };
    let order = parse_sort_order(sort.as_str());
    let ghost todos_in = todos@;
    let mut todos = todos;
    if order != SortOrder::Unsorted {
        let ghost key = |t: Todo| sort_key(order, t);
        let mut keys: Vec<Vec<u32>> = Vec::new();
        for i in 0..todos.len()
            invariant
                keys@.len() == i,
                forall|t: Todo| #[trigger] key(t) == sort_key(order, t),
                forall|k: int| 0 <= k < i ==> (#[trigger] keys@[k])@ == key(todos@[k]),
        {
            keys.push(key_of(order, &todos[i]));
        }
        sort_by_keys(&mut todos, &mut keys, Ghost(key));
        proof {
            let out = todos@;
            let p = choose|p: Seq<int>| is_stable_arrangement(out, todos_in, key, p);
            if order == SortOrder::Title {
                assert forall|i: int, j: int| 0 <= i < j < out.len() implies string_le(
                    unicode_lowercase((#[trigger] out[i]).title@),
                    unicode_lowercase((#[trigger] out[j]).title@),
                ) by {
                    title_keys_compare_whole_titles(out[i], out[j]);
                }
                let same = |a: Todo, b: Todo| unicode_lowercase(a.title@) == unicode_lowercase(
                    b.title@,
                );
                assert forall|k: int, l: int|
                    0 <= k < l < out.len() && same(#[trigger] out[k], #[trigger] out[l]) implies p[k]
                    < p[l] by {
                    title_keys_compare_whole_titles(out[k], out[l]);
                }
                assert(keeps_order_among(out, todos_in, same));
            } else {
                assert forall|i: int, j: int| 0 <= i < j < out.len() implies importance_before(
                    (#[trigger] out[i]).importance@,
                    (#[trigger] out[j]).importance@,
                ) by {
                    importance_keys_follow_importance_alone(out[i], out[j]);
                }
                let same = |a: Todo, b: Todo| a.importance@ == b.importance@;
                assert forall|k: int, l: int|
                    0 <= k < l < out.len() && same(#[trigger] out[k], #[trigger] out[l]) implies p[k]
                    < p[l] by {
                    importance_keys_follow_importance_alone(out[k], out[l]);
                }
                assert(keeps_order_among(out, todos_in, same));
            }
        }
    }
    let completed = count_completed_exec(&todos);
    let total_completed = completed as i64;
    let total_remaining = todos.len() as i64 - total_completed;
    proof {
        lemma_count_is_filter_len(todos_in, |t: Todo| t.completed);
        lemma_count_complement(todos_in, |t: Todo| t.completed);
        assert((|t: Todo| !t.completed) =~= (|x: Todo| !(|t: Todo| t.completed)(x)));
    }
    TodoListTemplate { todos, total_completed, total_remaining, sort }
}

} // verus!
