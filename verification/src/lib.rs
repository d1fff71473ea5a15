pub mod afc;
pub mod afc_path;
pub mod byte_order;
pub mod notification_proxy;
pub mod opack;
pub mod pairing_file;
pub mod opack_decoded;
pub mod opack_encode;
pub mod opack_format;
pub mod opack_laws;
pub mod opack_trailing;
pub mod plist_model;
pub mod text;
