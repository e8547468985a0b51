pub mod align;
pub mod bump;
pub mod linked_list;
