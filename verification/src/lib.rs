//! Verified core of the Listem todo-list web application: CSRF checks,
//! form validation and the arrangement of the todo list.
pub mod api;
pub mod csrf;
pub mod models;
pub mod routes;
pub mod sorting;
pub mod text;
