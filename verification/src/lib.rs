//! Path translation and headgear slot extraction for Ragnarok Online GRF archives.
pub mod text;
pub mod keyset;
pub mod archive;
pub mod headgear_slots;
pub mod translate;
