mod node;
pub mod lengths;
mod shape;
mod rbtree;
mod rotate;
mod insert;
mod fix_insert;
mod text;
mod insert_tree;
pub mod piece_tree;
mod nav;
mod delete;
mod fix_delete;
mod range_delete;
mod inspect;
mod validate;
mod report;

pub use node::NodeInfo;
pub use piece_tree::PieceTree;
