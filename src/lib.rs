//! Core pieces of a JPEG XL decoder: the container demultiplexer, the bit
//! reader, the layout of a frame's sections and the reads that start its HF
//! global section, and the matrix transpose that the block transforms use.

pub mod bit_reader;
pub mod container;
pub mod error;
pub mod frame;
pub mod section;
pub mod transpose;
