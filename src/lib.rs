pub mod combinatorics;
pub mod jenks;
pub mod quantile;
pub mod ranges;
