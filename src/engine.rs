pub mod storage;
pub mod join;
pub mod delta;
pub mod stratify;
pub mod semi_naive;
pub mod query;
pub mod datalog;
