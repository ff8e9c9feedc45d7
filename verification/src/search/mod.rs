pub mod bloom;
pub mod classifier;
pub mod depq;
pub mod engine;
pub mod fuzzy;
pub mod huffman;
pub mod suffix_array;
pub mod trie;
