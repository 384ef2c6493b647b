//! The renderers of matches.
pub mod compact;
pub mod json_printer;
pub mod only_printer;
pub mod path_printer;
pub mod printer_node;
