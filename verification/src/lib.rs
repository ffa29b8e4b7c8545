//! Axon, a container for the weights of models.
//!
//! A file holds a header, a manifest, a table of descriptors and the bytes of the
//! tensors. [`builder`] writes such files and [`container`] reads them;
//! [`runtime`] gives access to single tensors, [`lora`] layers adapters over them,
//! and [`convert`], [`safetensors`], [`gguf`] and [`ollama`] bring other formats in
//! and out. [`model`], [`transformer`] and [`gemma4`] read the weights of language
//! models and lay out their forward passes as steps; [`sampling`] and [`chat`]
//! draw replies. [`ffi`] and [`cli`] are what the C interface and the command line
//! compute.
//!
//! Numbers with a fraction are carried by their bits.

pub mod builder;
pub mod bytes;
pub mod chat;
pub mod cli;
pub mod container;
pub mod convert;
pub mod descriptor;
pub mod dtype;
pub mod elements;
pub mod error;
pub mod ffi;
pub mod gemma4;
pub mod gguf;
pub mod json;
pub mod json_codec;
pub mod kv_cache;
pub mod lora;
pub mod manifest;
pub mod meaning;
pub mod model;
pub mod ollama;
pub mod ops;
pub mod plan;
pub mod quantized;
pub mod runtime;
pub mod safetensors;
pub mod sampling;
pub mod slice;
pub mod slices;
pub mod stats;
pub mod store;
pub mod tensor;
pub mod tensor_cache;
pub mod text;
pub mod transformer;
pub mod unicode;
