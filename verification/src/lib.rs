pub mod builder;
pub mod laws;
pub mod model;

pub use builder::BuildError;
pub use builder::build_outline;
pub use builder::consume_block;
pub use builder::consume_headers;
pub use builder::items_to_nodes;
pub use model::Block;
pub use model::Item;
pub use model::Node;
