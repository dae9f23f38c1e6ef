pub mod free_list_error;
pub mod kernel_error;
pub mod ring_buffer_error;
pub mod slot_allocator_error;
