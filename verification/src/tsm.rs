//! The columnar blocks that the memory tier exchanges with the file tier.

pub mod block;
pub mod merge;

pub use block::BlockView;
pub use block::DataBlock;
