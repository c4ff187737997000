pub mod aggregator;
pub mod bag;
pub mod batch_commit;
pub mod generator;
pub mod laws;
pub mod leaves;
pub mod single_commit;
pub mod traverse;
pub mod unique;
