use vstd::prelude::*;

use crate::closet::{IsEnv, IsState, IsSystem, Result};

verus! {

/// How far a system still is from its horizon; zero once it has stopped.
pub open spec fn time_left<Y: IsSystem>(sys: Y) -> nat {
    if sys.time() < sys.horizon() {
        (sys.horizon() - sys.time()) as nat
    } else {
        0
    }
}

/// The system as it stands before round `k` of a run from `start`.
///
/// Round `k` of `rounds` holds the system right after its step and the
/// system after the decision whether to record it.
pub open spec fn before<Y: IsSystem>(start: Y, rounds: Seq<(Y, Y)>, k: int) -> Y {
    if k == 0 {
        start
    } else {
        rounds[k - 1].1
    }
}

/// `rounds` is a run of the driver from `start` that leaves the system as
/// `fin`: each round begins on a system below its horizon, steps it forward
/// in time, then asks whether to record it; the run ends on the first
/// system at or past its horizon.
pub open spec fn is_run<Y: IsSystem>(start: Y, rounds: Seq<(Y, Y)>, fin: Y) -> bool {
    &&& forall|k: int|
        0 <= k < rounds.len() ==> {
            let b = #[trigger] before(start, rounds, k);
            &&& b.time() < b.horizon()
            &&& rounds[k].0.time() > b.time()
            &&& rounds[k].0.horizon() == b.horizon()
            &&& rounds[k].1.time() == rounds[k].0.time()
            &&& rounds[k].1.horizon() == rounds[k].0.horizon()
        }
    &&& fin == before(start, rounds, rounds.len() as int)
    &&& fin.time() >= fin.horizon()
}

/// What a run records after its first observation: in order, the
/// observation of each round whose system asked to be recorded.
pub open spec fn recorded<Y: IsSystem>(rounds: Seq<(Y, Y)>) -> Seq<
    Result<<Y::State as IsState>::Obs>,
>
    decreases rounds.len(),
{
    if rounds.len() == 0 {
        Seq::empty()
    } else {
        let rest = recorded(rounds.drop_last());
        if rounds.last().0.stores() {
            rest.push(rounds.last().1.observed())
        } else {
            rest
        }
    }
}

/// Where every step asks to be recorded, a run records one observation per
/// step, in order: the `k`-th is that of the system after the `k`-th step.
pub proof fn lemma_record_every_step<Y: IsSystem>(rounds: Seq<(Y, Y)>)
    requires
        forall|k: int| 0 <= k < rounds.len() ==> (#[trigger] rounds[k]).0.stores(),
    ensures
        recorded(rounds).len() == rounds.len(),
        forall|k: int|
            0 <= k < rounds.len() ==> #[trigger] recorded(rounds)[k] == rounds[k].1.observed(),
    decreases rounds.len(),
{
    if rounds.len() > 0 {
        let rest = rounds.drop_last();
        assert forall|k: int| 0 <= k < rest.len() implies (#[trigger] rest[k]).0.stores() by {
            assert(rest[k] == rounds[k]);
        }
        lemma_record_every_step(rest);
        assert(rounds.last() == rounds[rounds.len() - 1]);
        assert forall|k: int| 0 <= k < rounds.len() implies #[trigger] recorded(rounds)[k]
            == rounds[k].1.observed() by {
            if k < rest.len() {
                assert(rest[k] == rounds[k]);
            }
        }
    }
}

/// Runs `sys` to its horizon and returns what it recorded.
///
/// The first record is the observation of the system as it was handed in;
/// after that, while the system is below its horizon, it is stepped and,
/// where it asks for it, observed again. Times strictly increase along the
/// trajectory, and on return the system no longer continues. A system that
/// starts at or past its horizon is left untouched and gives one record.
pub fn simulate<S: IsState, E: IsEnv, Y: IsSystem<State = S, Env = E>>(sys: &mut Y) -> (res: Vec<
    Result<S::Obs>,
>)
    ensures
        res@.len() >= 1,
        res@[0] == old(sys).observed(),
        res@[0].t == old(sys).time(),
        exists|rounds: Seq<(Y, Y)>|
            #[trigger] is_run(*old(sys), rounds, *final(sys)) && res@ == seq![
                old(sys).observed(),
            ] + recorded(rounds),
        forall|i: int, j: int| 0 <= i < j < res@.len() ==> res@[i].t < res@[j].t,
        forall|i: int| 0 <= i < res@.len() ==> res@[i].t <= final(sys).time(),
        final(sys).time() >= final(sys).horizon(),
        final(sys).horizon() == old(sys).horizon(),
        old(sys).time() >= old(sys).horizon() ==> res@.len() == 1 && *final(sys) == *old(sys),
{
    let ghost start = *sys;
    let ghost mut rounds: Seq<(Y, Y)> = Seq::empty();
    let mut res: Vec<Result<S::Obs>> = Vec::new();
    res.push(sys.get());
    let mut going = sys.cond();
    while going
        invariant
            going == (sys.time() < sys.horizon()),
            start == *old(sys),
            res@.len() >= 1,
            res@[0] == start.observed(),
            res@[0].t == start.time(),
            res@ == seq![start.observed()] + recorded(rounds),
            *sys == before(start, rounds, rounds.len() as int),
            forall|k: int|
                0 <= k < rounds.len() ==> {
                    let b = #[trigger] before(start, rounds, k);
                    &&& b.time() < b.horizon()
                    &&& rounds[k].0.time() > b.time()
                    &&& rounds[k].0.horizon() == b.horizon()
                    &&& rounds[k].1.time() == rounds[k].0.time()
                    &&& rounds[k].1.horizon() == rounds[k].0.horizon()
                },
            forall|i: int, j: int| 0 <= i < j < res@.len() ==> res@[i].t < res@[j].t,
            forall|i: int| 0 <= i < res@.len() ==> res@[i].t <= sys.time(),
            sys.horizon() == old(sys).horizon(),
        decreases time_left(*sys),
    {
        let ghost b = *sys;
        sys.step();
        let ghost stepped = *sys;
        let keep = sys.store_cond();
        let ghost prev = rounds;
        proof {
            rounds = rounds.push((stepped, *sys));
            assert(rounds.drop_last() =~= prev);
            assert forall|k: int| 0 <= k < rounds.len() implies #[trigger] before(start, rounds, k)
                == before(start, prev, k) || k == rounds.len() - 1 by {}
            assert(before(start, rounds, prev.len() as int) == b);
        }
        if keep {
            res.push(sys.get());
            assert(res@ =~= seq![start.observed()] + recorded(rounds));
        } else {
            assert(res@ =~= seq![start.observed()] + recorded(rounds));
        }
        going = sys.cond();
    }
    assert(is_run(start, rounds, *sys));
    proof {
        if start.time() >= start.horizon() && rounds.len() > 0 {
            assert(before(start, rounds, 0) == start);
        }
    }
    res
}

} // verus!
