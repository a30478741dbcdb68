pub mod passfile;
pub mod setup;
pub mod source;
