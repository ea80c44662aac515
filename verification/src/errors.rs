use vstd::prelude::*;

verus! {

/// A load was refused because it would have taken a vehicle past its capacity.
#[derive(Clone, Copy, Debug, PartialEq, Eq, Structural)]
pub struct VehicleOverloadError {
    /// The vehicle that refused the load.
    pub vehicle_id: u32,
    /// The load that was refused.
    pub load: u32,
}

/// Why a stop could not be assigned to a route.
#[derive(Clone, Copy, Debug, PartialEq, Eq, Structural)]
pub enum AssignmentError {
    /// No route belongs to a vehicle of the given identity.
    UnknownVehicle,
    /// No stop of the given identity is in the pool.
    StopNotAvailable,
    /// The distance from the route's last stop to the stop is not known.
    UnknownDistance,
    /// The vehicle cannot take the stop's demand.
    VehicleOverload(VehicleOverloadError),
}

} // verus!
