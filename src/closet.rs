use vstd::prelude::*;

verus! {

/// Marks a type as a model's configuration data.
pub trait IsEnv {}

/// Marks a type as a snapshot of measured quantities.
pub trait IsObs: Clone {}

/// A physical configuration that can be weakly measured.
pub trait IsState: Clone {
    type Obs: IsObs;

    /// Measures the state without changing it.
    fn get_obs(&self) -> Self::Obs;
}

/// A measurement taken at simulated time `t`, counted in ticks.
#[derive(Clone)]
pub struct Result<D: IsObs> {
    pub t: i64,
    pub obs: D,
}

/// A physical system: a state, its configuration and a simulated clock.
///
/// The system continues exactly while its time lies below its horizon, and
/// every step moves the time strictly forward, so that a run ends.
pub trait IsSystem: Clone + Sized {
    type State: IsState;
    type Env: IsEnv;

    /// The current simulated time, in ticks.
    ///
    /// A model states its clock here. The spec functions of this trait have
    /// bodies only so that models written in plain Rust, which cannot state
    /// them, still compile; for those, nothing is known of the values and
    /// nothing can be proved of their runs.
    closed spec fn time(&self) -> int {
        arbitrary()
    }

    /// The time at which the simulation stops.
    closed spec fn horizon(&self) -> int {
        arbitrary()
    }

    /// What `get` reports: the current time and a measurement of the state.
    closed spec fn observed(&self) -> Result<<Self::State as IsState>::Obs> {
        arbitrary()
    }

    /// Whether the system, as it stands after a step, asks to be recorded.
    closed spec fn stores(&self) -> bool {
        arbitrary()
    }

    /// Builds a system from `e`, or from the model's defaults.
    fn new(e: Option<Self::Env>) -> Self;

    /// The current time paired with a measurement of the current state.
    fn get(&self) -> (r: Result<<Self::State as IsState>::Obs>)
        ensures
            r == self.observed(),
            r.t == self.time(),
    ;

    /// One stochastic transition: time always advances, the state may change.
    fn step(&mut self)
        requires
            old(self).time() < old(self).horizon(),
        ensures
            final(self).time() > old(self).time(),
            final(self).horizon() == old(self).horizon(),
    ;

    /// Whether the simulation goes on.
    fn cond(&self) -> (r: bool)
        ensures
            r == (self.time() < self.horizon()),
    ;

    /// Whether the state reached by the last step is recorded.
    fn store_cond(&mut self) -> (r: bool)
        ensures
            r == old(self).stores(),
            final(self).time() == old(self).time(),
            final(self).horizon() == old(self).horizon(),
    ;
}

} // verus!
