pub mod steps;
pub mod stack;
pub mod list;
pub mod linked_list;
