//! A request router: static routes by path and method, and routes with
//! typed parameters in a compacted trie.

pub mod dump_tree;
pub mod fast_routing_table;
pub mod literal_index;
pub mod methods;
pub mod routing_trie;
pub mod scalar;
pub mod table_laws;
pub mod table_model;
pub mod text;
pub mod trie_laws;
pub mod trie_model;
pub mod types;
pub mod uuid_text;

pub use crate::dump_tree::DumpNode;
pub use crate::fast_routing_table::FastRoutingTable;
pub use crate::fast_routing_table::UsageError;
pub use crate::methods::Methods;
pub use crate::routing_trie::RoutingTrie;
pub use crate::types::ParamParseResult;
pub use crate::types::ParamRouteDecl;
pub use crate::types::ParamRouteKey;
pub use crate::types::ParamType;
pub use crate::types::PathPart;
pub use crate::types::RouteDecl;
pub use crate::types::StaticRouteDecl;
pub use crate::types::StaticRouteKey;
