//! A personal task-graph engine: a small text language for tasks and their
//! dependencies, the dependency graph, and a deadline-aware scheduler.

pub mod errors;
pub mod sorted;
pub mod graph;
pub mod scheduler;
pub mod text;
pub mod washer;
pub mod time;
pub mod request;
pub mod lexer;
pub mod search;
pub mod command;
pub mod batch;
pub mod parser;
pub mod clock;
pub mod acceptor;
pub mod windows;
pub mod sorter;
pub mod tasks;
pub mod pattern;
pub mod filter;
pub mod render;
pub mod reparse;
pub mod reread;
pub mod research;
pub mod requery;
pub mod written;
pub mod same;
