use vstd::prelude::*;
use crate::errors::VehicleOverloadError;

verus! {

/// What a vehicle is to the contracts: its identity, its capacity and the
/// load it carries.
pub struct VehicleView {
    pub id: u32,
    pub capacity: u32,
    pub usage: u32,
}

impl VehicleView {
    /// The load does not exceed the capacity.
    pub open spec fn within_capacity(self) -> bool {
        self.usage <= self.capacity
    }

    /// Whether `load` more would still fit.
    pub open spec fn supports(self, load: u32) -> bool {
        self.usage + load <= self.capacity
    }

    /// The vehicle with `load` more on board.
    pub open spec fn loaded(self, load: u32) -> VehicleView {
        VehicleView { usage: (self.usage + load) as u32, ..self }
    }
}

/// A vehicle: an identity, a capacity, and the load it carries so far.
///
/// The load changes through [`Vehicle::load`] alone, which refuses what
/// would exceed the capacity, so that no vehicle ever carries more than
/// its capacity.
#[derive(Clone, Copy, Debug)]
pub struct Vehicle {
    id: u32,
    capacity: u32,
    usage: u32,
}

impl View for Vehicle {
    type V = VehicleView;

    closed spec fn view(&self) -> VehicleView {
        VehicleView { id: self.id, capacity: self.capacity, usage: self.usage }
    }
}

impl Vehicle {
    /// Holds of every vehicle at all times.
    #[verifier::type_invariant]
    pub open spec fn load_within_capacity(&self) -> bool {
        self@.within_capacity()
    }

    /// An empty vehicle.
    pub fn new(id: u32, capacity: u32) -> (vehicle: Vehicle)
        ensures
            vehicle@ == (VehicleView { id, capacity, usage: 0 }),
    {
        Vehicle { id, capacity, usage: 0 }
    }

    /// The identity.
    pub fn get_id(&self) -> (id: u32)
        ensures
            id == self@.id,
    {
        self.id
    }

    /// The capacity.
    pub fn get_capacity(&self) -> (capacity: u32)
        ensures
            capacity == self@.capacity,
    {
        self.capacity
    }

    /// The load on board, which is never more than the capacity.
    pub fn get_usage(&self) -> (usage: u32)
        ensures
            usage == self@.usage,
            self@.within_capacity(),
    {
        proof {
            use_type_invariant(self);
        }
        self.usage
    }

    /// Whether `load` more would still fit.
    pub fn can_support_load(&self, load: u32) -> (fits: bool)
        ensures
            fits == self@.supports(load),
            self@.within_capacity(),
    {
        proof {
            use_type_invariant(self);
        }
        load <= self.capacity - self.usage
    }

    /// Takes `load` on board if it fits, and refuses it otherwise, leaving
    /// the vehicle as it was.
    pub fn load(&mut self, load: u32) -> (result: Result<(), VehicleOverloadError>)
        ensures
            final(self)@.within_capacity(),
            result is Ok <==> old(self)@.supports(load),
            result is Ok ==> final(self)@ == old(self)@.loaded(load),
            result is Err ==> *final(self) == *old(self) && result == Err::<
                (),
                VehicleOverloadError,
            >(VehicleOverloadError { vehicle_id: old(self)@.id, load }),
    {
        proof {
            use_type_invariant(&*self);
        }
        if !self.can_support_load(load) {
            return Err(VehicleOverloadError { vehicle_id: self.id, load });
        }
        self.usage = self.usage + load;
        Ok(())
    }
}

} // verus!
