//! Rules of the command line: arguments, episode rows and reports.

pub mod args;
pub mod args_laws;
pub mod attributes;
pub mod draft_laws;
pub mod laws;
pub mod number;
pub mod refusal_laws;
pub mod report;
pub mod report_laws;
pub mod rows;
pub mod statement_add;
pub mod statement_flag_laws;
pub mod statement_laws;
pub mod statement_report;
pub mod statement_report_laws;
pub mod statements;
