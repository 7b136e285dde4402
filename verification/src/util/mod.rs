pub mod buffer;
pub mod mp;
pub mod stamp;
