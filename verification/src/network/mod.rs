pub mod bits;
pub mod hpack;
pub mod http_connection;
pub mod huffman;
pub mod server;
