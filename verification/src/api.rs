pub mod gfm;
