pub mod descriptor;
pub mod digest;
pub mod plan;
pub mod text;
pub mod versions;
