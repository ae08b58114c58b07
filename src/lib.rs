pub mod chained_hash_table;
pub mod lz77;
pub mod output_writer;
pub mod token_stream;
