//! Remote execution of compiler invocations.
pub mod argument_laws;
pub mod component_laws;
pub mod config;
pub mod console;
pub mod digest;
pub mod digits;
pub mod dir_builder;
pub mod disk;
pub mod endpoint;
pub mod environment;
pub mod error;
pub mod execution;
pub mod execution_laws;
pub mod executor;
pub mod fields;
pub mod input_laws;
pub mod local_path;
pub mod mapper;
pub mod mapper_laws;
pub mod messages;
pub mod metadata;
pub mod names;
pub mod os_text;
pub mod outputs;
pub mod path_laws;
pub mod place_laws;
pub mod platform;
pub mod prepare;
pub mod prepare_laws;
pub mod probe_laws;
pub mod probes;
pub mod program;
pub mod protocol_laws;
pub mod response;
pub mod response_laws;
pub mod rewrite;
pub mod rewrite_laws;
pub mod sorted;
pub mod tables;
pub mod text;
pub mod text_laws;
pub mod transfer;
pub mod tree_laws;
pub mod upload;
pub mod uploads;
pub mod wire;
pub mod wire_laws;
