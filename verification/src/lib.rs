//! Verified reading and writing of Java deobfuscation mapping files.
pub mod bytemap;
pub mod bytes;
pub mod cursor;
pub mod element;
pub mod enigma;
pub mod enigma_roundtrip;
pub mod error;
pub mod escape;
pub mod io;
pub mod names;
pub mod proguard;
pub mod ser;
pub mod strs;
pub mod text;
pub mod tiny1;
pub mod tiny1_roundtrip;
pub mod tiny2;
pub mod tiny2_roundtrip;
pub mod visitor;
