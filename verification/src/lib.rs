pub mod args;
pub mod body_laws;
pub mod build_laws;
pub mod context_laws;
pub mod cut_laws;
pub mod database;
pub mod expr;
pub mod grammar;
pub mod input;
pub mod input_laws;
pub mod interp_laws;
pub mod list_laws;
pub mod parse_laws;
pub mod placeholders;
pub mod plan_laws;
pub mod query_interp;
pub mod resolve_laws;
pub mod rewrite;
pub mod rewrite_laws;
pub mod spans;
pub mod text;
pub mod token_laws;
pub mod tokens;
pub mod view_laws;
