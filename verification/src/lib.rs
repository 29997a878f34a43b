//! A verified codec between schema-less JSON documents and maps of tagged
//! parameter values, for a lightweight actor-messaging convention: named
//! actors exchange documents carrying `parameters`, `virtual_parameters`,
//! `function_parameters`, `to_user_message` and `function_component`
//! fields.
//!
//! The decoder turns one top-level object of a document into a name-ordered
//! map of tagged values under a fixed type-inference policy; the encoder
//! turns such a map back into a document, standalone or merged into an
//! existing one. Malformed input text and non-finite floats are the only
//! errors; missing keys, wrong shapes and unsupported member values are
//! absorbed silently. Parsing and serialization are done by `serde_json`
//! behind a small trusted boundary (`text`); everything else is verified
//! against a mathematical document model (`json`).

pub mod codec;
pub mod json;
pub mod params;
pub mod text;

pub use codec::CodecError;
pub use codec::actor_function_request;
pub use codec::add_actor_function_request;
pub use codec::add_message_to_user;
pub use codec::add_parameters_map_to_json;
pub use codec::add_virtual_parameters_map_to_json;
pub use codec::arguments_json_to_map;
pub use codec::get_actor_name;
pub use codec::message_to_user;
pub use codec::parameters_json_to_map;
pub use codec::parameters_map_to_json;
pub use codec::virtual_parameters_json_to_map;
pub use codec::virtual_parameters_map_to_json;
pub use params::ParamMap;
pub use params::ParametersType;
