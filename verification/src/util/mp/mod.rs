pub mod mc;
