//! Readers for the containers and codecs of a console disc toolchain: byte
//! sources, a seekable cursor, the LZ11 codec, U8 archives and WBFS images.
pub mod arc;
pub mod bytes;
pub mod bytesource;
pub mod cursor;
pub mod lz11;
pub mod vfs;
pub mod wbfs;
