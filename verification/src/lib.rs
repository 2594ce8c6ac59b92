pub mod collections;
pub mod diagram_formatting;
pub mod file_tree;
pub mod path_finders;
pub mod paths;
pub mod text;
