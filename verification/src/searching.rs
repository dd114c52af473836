#[allow(non_snake_case)]
pub mod BST;
