use vstd::prelude::*;
use crate::domain::stop::{
    Stop, total_usage, exchanged, lemma_prefix_usage, lemma_total_usage_push,
    lemma_total_usage_swap,
};
use crate::domain::vehicle::{Vehicle, VehicleView};
use crate::errors::VehicleOverloadError;
use crate::services::distance_service::{DistanceService, path_known, path_length};

verus! {

/// What a route is to the contracts: its stops in order, its vehicle, and
/// the distance recorded for it.
pub struct RouteView {
    pub stops: Seq<Stop>,
    pub vehicle: VehicleView,
    pub total_distance: u128,
}

impl RouteView {
    /// The vehicle carries at least the demand of the route's stops and no
    /// more than its capacity, and the recorded distance is one that a
    /// path of so many stops can have.
    pub open spec fn wf(self) -> bool {
        &&& self.vehicle.within_capacity()
        &&& total_usage(self.stops) <= self.vehicle.usage
        &&& self.total_distance <= self.stops.len() * u64::MAX
    }

    /// Whether the recorded distance is the length of the route's path
    /// under `distances`.
    pub open spec fn measured_by(self, distances: Map<(u32, u32), u64>) -> bool {
        &&& path_known(distances, self.stops)
        &&& self.total_distance == path_length(distances, self.stops)
    }

    /// Whether `stop` can follow the route's last stop: the route has a
    /// stop, the vehicle can take the demand, and the distance from the
    /// last stop is known.
    pub open spec fn reaches(self, distances: Map<(u32, u32), u64>, stop: Stop) -> bool {
        &&& self.stops.len() > 0
        &&& self.vehicle.supports(stop.usage)
        &&& distances.contains_key((self.stops.last().id, stop.id))
    }

    /// Whether `a` comes before `b` as the next stop: it is nearer to the
    /// route's last stop, or as near and of smaller identity.
    pub open spec fn prefers(self, distances: Map<(u32, u32), u64>, a: Stop, b: Stop) -> bool {
        let to_a = distances[(self.stops.last().id, a.id)];
        let to_b = distances[(self.stops.last().id, b.id)];
        to_a < to_b || (to_a == to_b && a.id < b.id)
    }

    /// The route with `stop` appended, reached over `distance`.
    pub open spec fn with_stop(self, stop: Stop, distance: u64) -> RouteView {
        RouteView {
            stops: self.stops.push(stop),
            vehicle: self.vehicle.loaded(stop.usage),
            total_distance: (self.total_distance + distance) as u128,
        }
    }
}

/// The stops that one vehicle visits, in order, with the distance
/// travelled along them so far.
pub struct Route {
    pub stops: Vec<Stop>,
    pub vehicle: Vehicle,
    total_distance: u128,
}

impl View for Route {
    type V = RouteView;

    closed spec fn view(&self) -> RouteView {
        RouteView {
            stops: self.stops@,
            vehicle: self.vehicle@,
            total_distance: self.total_distance,
        }
    }
}

impl Route {
    /// See [`RouteView::wf`].
    pub open spec fn wf(&self) -> bool {
        self@.wf()
    }

    /// See [`RouteView::measured_by`].
    pub open spec fn measured_by(&self, distances: Map<(u32, u32), u64>) -> bool {
        self@.measured_by(distances)
    }

    /// A route without stops for `vehicle`.
    pub fn new(vehicle: Vehicle) -> (route: Route)
        ensures
            route@ == (RouteView {
                stops: Seq::<Stop>::empty(),
                vehicle: vehicle@,
                total_distance: 0,
            }),
            route.wf(),
    {
        proof {
            use_type_invariant(&vehicle);
        }
        Route { vehicle, stops: Vec::new(), total_distance: 0 }
    }

    /// The stops, in order.
    pub fn get_stops(&self) -> (stops: &Vec<Stop>)
        ensures
            stops@ == self@.stops,
    {
        &self.stops
    }

    /// The vehicle as it is loaded now.
    pub fn get_vehicle(&self) -> (vehicle: &Vehicle)
        ensures
            vehicle@ == self@.vehicle,
    {
        &self.vehicle
    }

    /// The last stop of the route, if it has one.
    pub fn get_current_stop(&self) -> (current: Option<&Stop>)
        ensures
            self@.stops.len() == 0 ==> current is None,
            self@.stops.len() > 0 ==> current == Some(&self@.stops.last()),
    {
        if self.stops.len() == 0 {
            None
        } else {
            Some(&self.stops[self.stops.len() - 1])
        }
    }

    /// Whether the vehicle could still take `stop` on board.
    pub fn can_add_stop(&self, stop: &Stop) -> (fits: bool)
        ensures
            fits == self@.vehicle.supports(stop.usage),
    {
        self.vehicle.can_support_load(stop.usage)
    }

    /// Appends `stop`, reached over `distance` from the stop before it, if
    /// the vehicle can take its demand; refuses it otherwise and leaves the
    /// route as it was.
    pub fn add_stop(&mut self, stop: Stop, distance: u64) -> (result: Result<
        (),
        VehicleOverloadError,
    >)
        requires
            old(self).wf(),
        ensures
            final(self).wf(),
            result is Ok <==> old(self)@.vehicle.supports(stop.usage),
            result is Ok ==> final(self)@ == old(self)@.with_stop(stop, distance),
            result is Err ==> {
                &&& *final(self) == *old(self)
                &&& result == Err::<(), VehicleOverloadError>(
                    VehicleOverloadError { vehicle_id: old(self)@.vehicle.id, load: stop.usage },
                )
            },
    {
        if let Err(e) = self.vehicle.load(stop.usage) {
            return Err(e);
        }
        self.stops.push(stop);
        proof {
            lemma_total_usage_push(old(self).stops@, stop);
            assert(self.stops@.len() == self.stops.len() <= usize::MAX <= u64::MAX);
            assert(self.total_distance + distance <= self.stops@.len() * u64::MAX)
                by (nonlinear_arith)
                requires
                    self.total_distance <= (self.stops@.len() - 1) * u64::MAX,
                    distance <= u64::MAX,
            ;
            assert(self.stops@.len() * u64::MAX <= u128::MAX) by (nonlinear_arith)
                requires
                    self.stops@.len() <= u64::MAX,
            ;
        }
        self.total_distance = self.total_distance + distance as u128;
        Ok(())
    }

    /// The distance recorded for the route.
    pub fn total_distance(&self) -> (total: u128)
        ensures
            total == self@.total_distance,
    {
        self.total_distance
    }

    /// Takes `saving` off the recorded distance, as far as that goes: the
    /// distance is not lowered below zero.
    pub(crate) fn lower_total_distance(&mut self, saving: u128)
        ensures
            final(self)@ == (RouteView {
                total_distance: if saving <= old(self)@.total_distance {
                    (old(self)@.total_distance - saving) as u128
                } else {
                    0
                },
                ..old(self)@
            }),
    {
        self.total_distance = self.total_distance.saturating_sub(saving);
    }

    /// Exchanges the stops at two positions. The recorded distance stays as
    /// it is.
    pub fn swap_stops(&mut self, index1: usize, index2: usize)
        requires
            index1 < old(self)@.stops.len(),
            index2 < old(self)@.stops.len(),
        ensures
            final(self)@ == (RouteView {
                stops: exchanged(old(self)@.stops, index1 as int, index2 as int),
                ..old(self)@
            }),
            old(self).wf() ==> final(self).wf(),
    {
        let aux = self.stops[index1];
        let other = self.stops[index2];
        self.stops.set(index1, other);
        self.stops.set(index2, aux);
        proof {
            lemma_total_usage_swap(old(self).stops@, index1 as int, index2 as int);
        }
    }

    /// Whether the route is well-formed; see [`RouteView::wf`].
    pub fn is_well_formed(&self) -> (well_formed: bool)
        ensures
            well_formed == self.wf(),
    {
        let usage = self.vehicle.get_usage();
        let mut demand: u64 = 0;
        let mut k: usize = 0;
        while k < self.stops.len()
            invariant
                k <= self.stops@.len(),
                demand == total_usage(self.stops@.take(k as int)),
                demand <= usage,
                usage == self@.vehicle.usage,
            decreases self.stops@.len() - k,
        {
            proof {
                assert(self.stops@.take(k as int).push(self.stops@[k as int]) =~= self.stops@.take(
                    k + 1,
                ));
                lemma_total_usage_push(self.stops@.take(k as int), self.stops@[k as int]);
                lemma_prefix_usage(self.stops@, k + 1);
            }
            demand = demand + self.stops[k].usage as u64;
            if demand > usage as u64 {
                return false;
            }
            k = k + 1;
        }
        proof {
            assert(self.stops@.take(k as int) =~= self.stops@);
            assert(self.stops@.len() * u64::MAX == self.stops.len() as u128 * u64::MAX as u128)
                by (nonlinear_arith)
                requires
                    self.stops@.len() == self.stops.len(),
                    self.stops.len() <= u64::MAX,
            ;
        }
        self.total_distance <= self.stops.len() as u128 * u64::MAX as u128
    }

    /// Whether the recorded distance is the length of the route's path
    /// under the distances of `distance_service`.
    pub fn is_measured_by(&self, distance_service: &DistanceService) -> (measured: bool)
        ensures
            measured == self.measured_by(distance_service@),
    {
        match distance_service.get_path_length(self.stops.as_slice()) {
            Some(length) => length == self.total_distance,
            None => false,
        }
    }
}

impl Clone for Route {
    fn clone(&self) -> (copy: Route)
        ensures
            copy@ == self@,
    {
        let stops = vstd::slice::slice_to_vec(self.stops.as_slice());
        Route { stops, vehicle: self.vehicle, total_distance: self.total_distance }
    }
}

} // verus!
