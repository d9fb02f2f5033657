pub mod domain;
pub mod use_cases;
