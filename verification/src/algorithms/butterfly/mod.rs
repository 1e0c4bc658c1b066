//! Butterfly-style identity insertion and gate-pair taxonomy.
pub mod blocks;
pub mod chained;
pub mod compress;
pub mod mixing;
pub mod pairs;
pub mod replace;
