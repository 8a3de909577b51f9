pub mod aggregate;
pub mod extract;
pub mod html;
pub mod laws;
pub mod present;
pub mod query;
pub mod source;
pub mod text;
