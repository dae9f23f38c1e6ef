pub mod mem_metadata_reader;
pub mod mem_metadata_writer;
