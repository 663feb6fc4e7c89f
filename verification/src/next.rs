pub mod core_trie;
pub mod hash_cache;
pub mod hashing;
pub mod iter;
pub mod load;
pub mod mutation;
pub mod node;
pub mod node_arena;
pub mod path_bits;
pub mod persistence;
pub mod storage_iteration_cache;
