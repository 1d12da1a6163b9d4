pub mod bitmap;
pub mod key_order;
pub mod node;
pub mod slice_pool;
pub mod trie_map;

pub use node::TrieNode;
pub use slice_pool::SlicePool;
pub use trie_map::TrieMap;
