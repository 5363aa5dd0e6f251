//! Verified core of a universal file converter: conversion routing and path
//! rules, structured-data and subtitle conversions, text extraction from
//! markup, document watermarking that keeps the format, and the integer side
//! of the invisible image signature.
use vstd::prelude::*;

pub mod archive;
pub mod audio;
pub mod commands;
pub mod data;
pub mod docs;
pub mod json;
pub mod layout;
pub mod naming;
pub mod package;
pub mod paths;
pub mod rtf;
pub mod stego;
pub mod subtitles;
pub mod tag_laws;
pub mod text;
pub mod watermark;
pub mod wmdocs;
pub mod xml;

verus! {

} // verus!
