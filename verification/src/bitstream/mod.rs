//! Integer and entropy coding.
pub mod fault_laws;
pub mod model_laws;
pub mod syntax;
pub mod v1;
pub mod value_laws;
