pub mod commands;
pub mod model;
pub mod stable_order;
pub mod positions;
pub mod laws;
pub mod history;
pub mod selection;
pub mod editing;
pub mod geometry;
pub mod raster;
pub mod storage;
