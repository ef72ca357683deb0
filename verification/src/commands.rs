pub mod cat_file;
pub mod clone;
pub mod commit_tree;
pub mod git_init;
pub mod hash_object;
pub mod ls_tree;
pub mod write_tree;
