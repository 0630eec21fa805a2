//! Preparing Dynon SkyView USB drives: which downloaded databases and plate
//! archives are current, which drives are SkyView drives, and what an
//! update run does to each of them.

pub mod text;
pub mod scan;
pub mod checker;
pub mod drive;
pub mod job;
pub mod ui;
