pub mod models;
pub mod pool;
pub mod reader;
pub mod resolver;
pub mod strings_to_csv;
pub mod warnings;
pub mod writer;
