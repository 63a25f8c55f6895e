pub mod attribute;
pub mod delimiter;
pub mod kdl;
pub mod marker;
pub mod structural;
pub mod task;
pub mod tree;
pub mod fold;
