pub mod all;
