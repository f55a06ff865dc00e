pub mod measure;
pub mod atoms;
pub mod subtree;
pub mod btree;
pub mod piece_table;
pub mod line_tracker;
pub mod line_ending;
pub mod object_pool;
pub mod cursor;
pub mod history;
pub mod text_buffer;
pub mod pool_node;
pub mod byte_window;
pub mod in_order;
pub mod leaf_delete;
