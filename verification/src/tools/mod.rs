//! The agent's tools.

pub mod todo;
pub mod todo_laws;
pub mod todo_markdown;
pub mod todo_reading_laws;
pub mod todo_run;
pub mod edit;
pub mod edit_laws;
pub mod edit_report;
pub mod edit_report_laws;
pub mod selector;
pub mod selector_laws;
pub mod read;
pub mod read_laws;
pub mod output;
pub mod approval;
pub mod bash_stream;
pub mod bash_run_laws;
pub mod bash;
pub mod bash_laws;
pub mod write;
pub mod targets;
pub mod grep;
pub mod grep_laws;
pub mod glob;
pub mod glob_laws;
pub mod ls;
pub mod ls_laws;
pub mod calls;
pub mod registry;
pub mod argument_laws;
pub mod answer_laws;
