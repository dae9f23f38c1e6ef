pub mod bitmap;
pub mod entry_handle;
pub mod entry_reader;
pub mod entry_store_config;
pub mod entry_store_def;
pub mod entry_store_reader;
pub mod entry_store_writer;
pub mod entry_writer;
pub mod mem_zone_reader;
pub mod mem_zone_writer;
pub mod ring_buffer;
pub mod simple_free_list;
pub mod slot;
pub mod slot_allocator;
pub mod staging_buffer_reader;
pub mod staging_buffer_writer;
pub mod tb_reader;
pub mod tb_writer;
pub mod tb_zone_reader;
pub mod tb_zone_view;
pub mod tb_zone_writer;
pub mod triple_buffer_def;
pub mod triple_buffer_reader;
pub mod triple_buffer_writer;
pub mod types;
pub mod triple_buffer_reader_registry;
pub mod triple_buffer_writer_registry;
pub mod lut_def;
pub mod lut_reader;
pub mod lut_writer;
pub mod lut_reader_registry;
pub mod lut_writer_registry;
pub mod entry_store_reader_registry;
pub mod entry_store_writer_registry;
