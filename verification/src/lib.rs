//! A small web-site toolkit: a lenient JSON reader, a template splitter,
//! the tokenizer and parser of the template expression language, and the
//! HTTP response and request logic of the site.
pub mod text;
pub mod json;
pub mod template;
pub mod http;
pub mod lang;
pub mod parser;
pub mod request;
pub mod env;
pub mod repo;
