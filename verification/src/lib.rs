//! Byte-layout model of foreign structures: classes of typed fields, the
//! padding that keeps their offsets, and the flat, name-addressed project
//! form that the model is saved to and rebuilt from.

pub mod class;
pub mod field;
pub mod loading;
pub mod naming;
pub mod project;
pub mod resolution;
pub mod sorting;
pub mod theorems;
