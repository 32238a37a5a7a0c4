pub mod globals;
