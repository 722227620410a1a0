//! ProtoCache runtime: zero-copy readers over word buffers, encoders that
//! write into a reverse-growing buffer, a perfect-hash index for map keys and
//! a small run-length compressor.

pub mod utils;
pub mod buffer;
pub mod words;
pub mod access;
pub mod hash;
pub mod perfect_hash;
pub mod serialize;
pub mod roundtrip;
pub mod byte_strings;
pub mod field_offsets;
pub mod compression;
pub mod mutable;
pub mod naming;
pub mod reflection;
pub mod codegen_types;
pub mod codegen_registry;
pub mod codegen;
pub mod plugin_types;
pub mod plugin;
pub mod response;

pub use access::{
    ArrayView, BoolArray, FieldDecode, FieldView, GeneratedDescriptor, GeneratedMessage, MapKey, MapView, MessageView, PairView,
    ScalarArray, StringView, ViewArray, ViewMap,
};
pub use buffer::Buffer;
pub use compression::{compress, compress_into, decompress, decompress_into};
pub use mutable::{
    copy_words, MutableArray, MutableArrayElement, MutableError, MutableField, MutableMap,
    MutableMapKey, MutableMapKeyKind, MutableMessage,
};
pub use perfect_hash::{
    build_perfect_hash_index, build_perfect_hash_index_with_positions, PerfectHashView,
};
pub use serialize::{
    fold_field, serialize_array, serialize_array_at, serialize_array_at_mut, serialize_bool, serialize_bytes,
    serialize_map, serialize_map_at, serialize_map_at_mut, serialize_message, serialize_message_at, serialize_scalar,
    serialize_str, Segment, Unit,
};
pub use utils::{CorruptionKind, EnumValue, ReadError, Scalar, word_size};
