pub mod node_handle;
pub mod node_reader;
pub mod node_store_config;
pub mod node_store_reader;
pub mod node_store_writer;
pub mod node_writer;
