pub mod blocks;
pub mod edges;
pub mod periods;
pub mod qspi;
pub mod qspi_stats;
pub mod readout;
pub mod shown;
pub mod signal;
pub mod source;
pub mod state;
pub mod summary;
pub mod viewport;
