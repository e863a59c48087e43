//! Factory images of FiberHome AN758x optical network terminals.

pub mod bytes;
pub mod calibration;
pub mod codec;
pub mod codec_laws;
pub mod conf;
pub mod conf_laws;
pub mod crc;
pub mod editor;
pub mod editor_laws;
pub mod font;
pub mod font_laws;
pub mod identity;
pub mod import;
pub mod jffs2;
pub mod jffs2_laws;
pub mod keys;
pub mod laws;
pub mod lzo;
pub mod lzo_laws;
pub mod model;
pub mod names;
pub mod order;
pub mod part_laws;
pub mod paths;
pub mod save_laws;
pub mod text;
pub mod text_laws;
pub mod tree;
pub mod tree_laws;
pub mod ubi;
pub mod ubi_laws;
pub mod ubifs;
pub mod ubifs_laws;
pub mod wording;
pub mod wording_laws;

