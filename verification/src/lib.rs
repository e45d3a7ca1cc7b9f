pub mod fixed;
pub mod model;
pub mod date_data;
pub mod day_range;
pub mod version_sort;
pub mod dashboard;
pub mod graph;
pub mod nll;
pub mod commit_lookup;
pub mod route;
pub mod store;
pub mod encode;
pub mod info;
