pub mod distance_service;
pub mod plan;
pub mod plan_laws;
pub mod route_service;
