pub mod route;
pub mod stop;
pub mod vehicle;
