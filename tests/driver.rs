use kmc::closet::{IsEnv, IsObs, IsState, IsSystem, Result};
use kmc::engine::simulate;

#[derive(Clone, Debug, PartialEq)]
struct Count(u32);

impl IsObs for Count {}

#[derive(Clone)]
struct Counter(u32);

impl IsState for Counter {
    type Obs = Count;
    fn get_obs(&self) -> Count {
        Count(self.0)
    }
}

struct Horizon {
    start: i64,
    stride: i64,
    end: i64,
    every: u32,
}

impl IsEnv for Horizon {}

#[derive(Clone)]
struct Clock {
    state: Counter,
    t: i64,
    stride: i64,
    end: i64,
    every: u32,
}

impl IsSystem for Clock {
    type State = Counter;
    type Env = Horizon;

    fn new(e: Option<Horizon>) -> Self {
        let e = e.unwrap_or(Horizon {
            start: 0,
            stride: 1,
            end: 5,
            every: 1,
        });
        Clock {
            state: Counter(0),
            t: e.start,
            stride: e.stride,
            end: e.end,
            every: e.every,
        }
    }

    fn get(&self) -> Result<Count> {
        Result {
            t: self.t,
            obs: self.state.get_obs(),
        }
    }

    fn step(&mut self) {
        self.t += self.stride;
        self.state = Counter(self.state.0 + 1);
    }

    fn cond(&self) -> bool {
        self.t < self.end
    }

    fn store_cond(&mut self) -> bool {
        self.state.0 % self.every == 0
    }
}

#[test]
fn trajectory_starts_at_initial_time() {
    let mut sys = Clock::new(Some(Horizon {
        start: 7,
        stride: 3,
        end: 20,
        every: 1,
    }));
    let res = simulate(&mut sys);
    let times: Vec<i64> = res.iter().map(|r| r.t).collect();
    assert_eq!(times, vec![7, 10, 13, 16, 19, 22]);
    assert_eq!(res[0].obs, Count(0));
    assert_eq!(res[5].obs, Count(5));
    assert!(!sys.cond());
}

#[test]
fn driver_stops_at_first_failing_check() {
    let mut sys = Clock::new(None);
    let res = simulate(&mut sys);
    assert_eq!(res.len(), 6);
    assert_eq!(res.last().unwrap().t, 5);
    assert!(!sys.cond());
}

#[test]
fn system_already_past_horizon_records_once() {
    let mut sys = Clock::new(Some(Horizon {
        start: 10,
        stride: 1,
        end: 3,
        every: 1,
    }));
    let res = simulate(&mut sys);
    assert_eq!(res.len(), 1);
    assert_eq!(res[0].t, 10);
}

#[test]
fn subsampled_trajectory_keeps_first_record() {
    let mut sys = Clock::new(Some(Horizon {
        start: 0,
        stride: 2,
        end: 12,
        every: 3,
    }));
    let res = simulate(&mut sys);
    let times: Vec<i64> = res.iter().map(|r| r.t).collect();
    assert_eq!(times, vec![0, 6, 12]);
    for w in res.windows(2) {
        assert!(w[0].t < w[1].t);
    }
}
