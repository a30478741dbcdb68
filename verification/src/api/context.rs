pub use crate::api::rate::Context;
