pub mod assignment;
pub mod gravity;
pub mod metric;
pub mod population;
pub mod solution;
pub mod whales;
