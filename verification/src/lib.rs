//! Text chunking, markdown export and content-stream font utilities for PDF
//! processing, with their behaviour stated as contracts and proved.

pub mod chunk_laws;
pub mod collections;
pub mod content_stream;
pub mod element;
pub mod export;
pub mod graph;
pub mod hybrid_chunking;
pub mod objects;
pub mod rag;
pub mod rewrite_laws;
pub mod semantic_chunking;
pub mod shading;
pub mod text;
pub mod token_counter;
