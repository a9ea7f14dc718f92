pub mod html_parser;
pub mod attributes;
pub mod dom;
