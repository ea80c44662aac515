pub mod two_opt;
