pub mod partition;
