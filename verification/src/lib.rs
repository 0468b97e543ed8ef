pub mod campaign;
pub mod coverage;
pub mod demo;
pub mod estimators;
pub mod mapping;
pub mod record;
pub mod report;
pub mod text;
