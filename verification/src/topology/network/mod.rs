pub mod list_shape;
pub mod network_config;
pub mod network_reader;
pub mod network_writer;
pub mod synapse_handle;
pub mod synapse_reader;
pub mod synapse_writer;
