//! Storage engine of a day-per-file inbox journal: items in a flat text,
//! an active and an archived region, and counts over all the daily files.

pub mod text;
pub mod scan;
pub mod archive;
pub mod items;
pub mod item_laws;
pub mod region_laws;
pub mod order;
pub mod journal;
pub mod titles;
pub mod ledger;
