pub mod canonical;
pub mod constants;
pub mod montgomery;
pub mod reference;
