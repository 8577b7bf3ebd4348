pub mod bit_writer;
pub mod tables;
pub mod huffman;
pub mod pm;
pub mod order;
pub mod std_num;
pub mod lz77;
pub mod index;
pub mod dynamic;
pub mod encoding;
pub mod fixed;
pub mod dynamic_block;
pub mod ids;
pub mod error;
pub mod profile;
pub mod blocks;
pub mod stream;
pub mod dictionary;
pub mod plan;
pub mod engine;
pub mod perm;
pub mod scheduler;
pub mod pipeline;
pub mod io;
pub mod buffers;
pub mod harness;
pub mod predictive;
pub mod corpus;
pub mod inflate;
