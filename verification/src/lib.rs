pub mod config;
pub mod excel;
pub mod header_template;
pub mod mixer;
pub mod model;
pub mod parser;
pub mod shell;
pub mod strutil;
pub mod textscan;
pub mod validator;
pub mod writer;
