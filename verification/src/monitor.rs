//! The decisions of the watch loop: given the levels just read and the time
//! since the previous pass, which countdowns move and which actions fire.
use vstd::prelude::*;
use crate::conf::{PinConfig, PinSpec, pin_views};

verus! {

/// One check of one configuration: the configuration afterwards, and
/// whether its action fires. `current` is the level just read, `prev` the
/// level the pin was last settled in, `elapsed` the milliseconds since the
/// previous pass.
///
/// A configuration whose trigger is the settled level is skipped. When the
/// pin is still at its settled level, the countdown restarts at the delay.
/// When the pin has moved to the trigger level, a running countdown goes
/// down by the elapsed time; a finished one fires and restarts.
pub open spec fn spec_check_pin(c: PinSpec, current: u8, prev: u8, elapsed: i32) -> (PinSpec, bool) {
    if c.trigger == prev {
        (c, false)
    } else if prev == current {
        (PinSpec { timeout: c.delay, ..c }, false)
    } else if c.trigger == current {
        if c.timeout > 0 {
            (PinSpec { timeout: (c.timeout - elapsed) as i32, ..c }, false)
        } else {
            (PinSpec { timeout: c.delay, ..c }, true)
        }
    } else {
        (c, false)
    }
}

/// Checks one configuration against the level just read; returns whether
/// its action fires. The elapsed time is not negative.
pub fn check_pin(info: &mut PinConfig, current_state: u8, prev_state: u8, time_delay: i32) -> (fired: bool)
    requires
        time_delay >= 0,
    ensures
        (final(info)@, fired) == spec_check_pin(old(info)@, current_state, prev_state, time_delay),
        old(info).trigger != prev_state && current_state == prev_state ==> !fired
            && final(info).timeout == old(info).delay,
{
    if info.trigger == prev_state {
        return false;
    }
    if prev_state == current_state {
        info.timeout = info.delay;
        return false;
    }
    if info.trigger == current_state {
        let timeout = info.timeout;
        if timeout > 0 {
            info.timeout = timeout - time_delay;
            return false;
        }
        info.timeout = info.delay;
        return true;
    }
    false
}

/// One pass over the first `n` configurations: the configurations and the
/// settled levels (indexed by pin number) afterwards, and the indices of
/// the configurations that fired, in order. A firing settles its pin at the
/// level just read, which later configurations of the same pin then see.
pub open spec fn spec_pass(
    cs: Seq<PinSpec>,
    current: Seq<u8>,
    prev: Seq<u8>,
    elapsed: i32,
    n: nat,
) -> (Seq<PinSpec>, Seq<u8>, Seq<int>)
    decreases n,
{
    if n == 0 || n > cs.len() {
        (cs, prev, Seq::empty())
    } else {
        let (cs1, prev1, fired1) = spec_pass(cs, current, prev, elapsed, (n - 1) as nat);
        let c = cs1[n - 1];
        let (c2, fired) = spec_check_pin(c, current[c.pin as int], prev1[c.pin as int], elapsed);
        if fired {
            (
                cs1.update(n - 1, c2),
                prev1.update(c.pin as int, current[c.pin as int]),
                fired1.push(n - 1),
            )
        } else {
            (cs1.update(n - 1, c2), prev1, fired1)
        }
    }
}

proof fn lemma_pass_shape(cs: Seq<PinSpec>, current: Seq<u8>, prev: Seq<u8>, elapsed: i32, n: nat)
    requires
        prev.len() == 256,
    ensures
        spec_pass(cs, current, prev, elapsed, n).0.len() == cs.len(),
        spec_pass(cs, current, prev, elapsed, n).1.len() == prev.len(),
        forall|a: int|
            n <= a < cs.len() ==> #[trigger] spec_pass(cs, current, prev, elapsed, n).0[a] == cs[a],
    decreases n,
{
    if n > 0 && n <= cs.len() {
        lemma_pass_shape(cs, current, prev, elapsed, (n - 1) as nat);
    }
}

/// One pass of the watch loop over all configurations, in order. `current`
/// holds the level just read for each pin number, `prev` the settled level
/// of each pin number; returns the indices of the configurations whose
/// action fires, in order.
pub fn process_pins(
    configs: &mut Vec<PinConfig>,
    current: &Vec<u8>,
    prev: &mut Vec<u8>,
    time_delay: i32,
) -> (fired: Vec<usize>)
    requires
        current.len() == 256,
        old(prev).len() == 256,
        time_delay >= 0,
    ensures
        ({
            let (cs, levels, idx) = spec_pass(
                pin_views(old(configs)@),
                current@,
                old(prev)@,
                time_delay,
                old(configs).len() as nat,
            );
            &&& pin_views(final(configs)@) == cs
            &&& final(prev)@ == levels
            &&& fired@.len() == idx.len()
            &&& forall|k: int| 0 <= k < idx.len() ==> #[trigger] fired@[k] as int == idx[k]
        }),
{
    let ghost orig = pin_views(configs@);
    let ghost prev0 = prev@;
    let n = configs.len();
    let mut fired: Vec<usize> = Vec::new();
    let mut i: usize = 0;
    while i < n
        invariant
            n == configs.len(),
            n == orig.len(),
            current.len() == 256,
            prev.len() == 256,
            prev0.len() == 256,
            time_delay >= 0,
            i <= n,
            ({
                let (cs, levels, idx) = spec_pass(orig, current@, prev0, time_delay, i as nat);
                &&& pin_views(configs@) == cs
                &&& prev@ == levels
                &&& fired@.len() == idx.len()
                &&& forall|k: int| 0 <= k < idx.len() ==> #[trigger] fired@[k] as int == idx[k]
            }),
        decreases n - i,
    {
        proof {
            lemma_pass_shape(orig, current@, prev0, time_delay, i as nat);
            lemma_pass_shape(orig, current@, prev0, time_delay, (i + 1) as nat);
        }
        let ghost before = configs@;
        let pin = configs[i].pin;
        let cur = current[pin as usize];
        let was = prev[pin as usize];
        assert(pin_views(configs@)[i as int] == configs@[i as int]@);
        let hit = check_pin(&mut configs[i], cur, was, time_delay);
        if hit {
            prev.set(pin as usize, cur);
            fired.push(i);
        }
        proof {
            let (cs, levels, idx) = spec_pass(orig, current@, prev0, time_delay, (i + 1) as nat);
            assert forall|a: int| 0 <= a < n implies pin_views(configs@)[a] == cs[a] by {
                if a != i {
                    assert(configs@[a] == before[a]);
                }
            }
            assert(pin_views(configs@) =~= cs);
            if hit {
                assert(fired@.len() == idx.len());
                assert forall|k: int| 0 <= k < idx.len() implies #[trigger] fired@[k] as int
                    == idx[k] by {
                    if k < idx.len() - 1 {
                        assert(fired@[k] == fired@.drop_last()[k]);
                    }
                }
            }
        }
        i = i + 1;
    }
    fired
}

/// The sum of the first `j` elapsed times of `ds`.
pub open spec fn elapsed_sum(ds: Seq<i32>, j: nat) -> int
    decreases j,
{
    if j == 0 || j > ds.len() {
        0
    } else {
        elapsed_sum(ds, (j - 1) as nat) + ds[j - 1]
    }
}

/// The configuration after `j` checks with the pin read at `current` each
/// time, the settled level staying `prev`, and the checks reporting the
/// elapsed times `ds[0]`, ..., `ds[j - 1]`.
pub open spec fn held_config(c: PinSpec, current: u8, prev: u8, ds: Seq<i32>, j: nat) -> PinSpec
    decreases j,
{
    if j == 0 || j > ds.len() {
        c
    } else {
        spec_check_pin(held_config(c, current, prev, ds, (j - 1) as nat), current, prev, ds[j - 1]).0
    }
}

/// Whether check number `j` (from 0) of such a run fires.
pub open spec fn held_fires(c: PinSpec, current: u8, prev: u8, ds: Seq<i32>, j: nat) -> bool {
    spec_check_pin(held_config(c, current, prev, ds, j), current, prev, ds[j as int]).1
}

/// A trigger fires only once its delay has passed, and as soon as it has:
/// while the pin stays at the trigger level, away from its settled level,
/// check number `j` fires exactly when the elapsed times reported by the
/// checks before it add up to at least the countdown the run started with;
/// until then the countdown has gone down by exactly that sum.
pub proof fn lemma_fires_after_countdown(c: PinSpec, current: u8, prev: u8, ds: Seq<i32>, j: nat)
    requires
        c.trigger == current,
        current != prev,
        j < ds.len(),
        forall|i: int| 0 <= i < ds.len() ==> #[trigger] ds[i] >= 0,
        forall|i: nat| i < j ==> !#[trigger] held_fires(c, current, prev, ds, i),
    ensures
        held_config(c, current, prev, ds, j) == (PinSpec {
            timeout: (c.timeout - elapsed_sum(ds, j)) as i32,
            ..c
        }),
        c.timeout - elapsed_sum(ds, j) == held_config(c, current, prev, ds, j).timeout,
        held_fires(c, current, prev, ds, j) <==> elapsed_sum(ds, j) >= c.timeout,
    decreases j,
{
    if j > 0 {
        let i = (j - 1) as nat;
        assert forall|k: nat| k < i implies !#[trigger] held_fires(c, current, prev, ds, k) by {
            assert(k < j);
        }
        lemma_fires_after_countdown(c, current, prev, ds, i);
        assert(!held_fires(c, current, prev, ds, i));
        assert(ds[i as int] >= 0);
    }
}

/// What one check does, case by case. Only the countdown ever changes. A
/// configuration whose trigger is the settled level is left alone. At the
/// settled level the countdown restarts at the delay, however little time
/// has passed, and nothing fires. At the trigger level a running countdown
/// goes down by the elapsed time and a finished one (zero or below) fires
/// and restarts at the delay. At any other reading nothing changes. The
/// action fires in no other case.
pub proof fn lemma_check_pin_cases(c: PinSpec, current: u8, prev: u8, elapsed: i32)
    requires
        elapsed >= 0,
    ensures
        ({
            let (c2, fired) = spec_check_pin(c, current, prev, elapsed);
            &&& c2 == (PinSpec { timeout: c2.timeout, ..c })
            &&& fired <==> (c.trigger != prev && current != prev && current == c.trigger
                && c.timeout <= 0)
            &&& c.trigger == prev ==> c2 == c
            &&& c.trigger != prev && current == prev ==> c2.timeout == c.delay
            &&& c.trigger != prev && current != prev && current == c.trigger && c.timeout > 0
                ==> c2.timeout == c.timeout - elapsed
            &&& fired ==> c2.timeout == c.delay
            &&& current != prev && current != c.trigger ==> c2 == c
        }),
{
}

/// A pulse shorter than the delay never fires: once a check has seen the pin
/// at its settled level, the checks that follow with the pin at the trigger
/// level fire exactly when the times elapsed since then add up to the full
/// delay, whatever the countdown stood at before.
pub proof fn lemma_settled_check_restarts(
    c: PinSpec,
    current: u8,
    prev: u8,
    e0: i32,
    ds: Seq<i32>,
    j: nat,
)
    requires
        c.trigger == current,
        current != prev,
        e0 >= 0,
        j < ds.len(),
        forall|i: int| 0 <= i < ds.len() ==> #[trigger] ds[i] >= 0,
        forall|i: nat|
            i < j ==> !#[trigger] held_fires(spec_check_pin(c, prev, prev, e0).0, current, prev, ds, i),
    ensures
        !spec_check_pin(c, prev, prev, e0).1,
        spec_check_pin(c, prev, prev, e0).0.timeout == c.delay,
        held_fires(spec_check_pin(c, prev, prev, e0).0, current, prev, ds, j) <==> elapsed_sum(ds, j)
            >= c.delay,
{
    let c1 = spec_check_pin(c, prev, prev, e0).0;
    lemma_fires_after_countdown(c1, current, prev, ds, j);
}

/// Some configuration among those listed in `idx` names pin `q`.
pub open spec fn some_fired_on(cs: Seq<PinSpec>, idx: Seq<int>, q: int) -> bool {
    exists|k: int| 0 <= k < idx.len() && (#[trigger] cs[idx[k]]).pin as int == q
}

/// A pass settles a pin at the level just read exactly when one of the
/// pin's configurations fired in it; every other pin keeps its settled
/// level.
pub proof fn lemma_pass_levels(
    cs: Seq<PinSpec>,
    current: Seq<u8>,
    prev: Seq<u8>,
    elapsed: i32,
    n: nat,
)
    requires
        prev.len() == 256,
        current.len() == 256,
        n <= cs.len(),
    ensures
        ({
            let (cs2, levels, idx) = spec_pass(cs, current, prev, elapsed, n);
            forall|q: int|
                0 <= q < 256 ==> #[trigger] levels[q] == if some_fired_on(cs, idx, q) {
                    current[q]
                } else {
                    prev[q]
                }
        }),
        forall|k: int|
            0 <= k < spec_pass(cs, current, prev, elapsed, n).2.len() ==> 0 <= #[trigger] spec_pass(
                cs,
                current,
                prev,
                elapsed,
                n,
            ).2[k] < n,
    decreases n,
{
    lemma_pass_shape(cs, current, prev, elapsed, n);
    if n > 0 {
        let m = (n - 1) as nat;
        lemma_pass_levels(cs, current, prev, elapsed, m);
        lemma_pass_shape(cs, current, prev, elapsed, m);
        let (cs1, prev1, idx1) = spec_pass(cs, current, prev, elapsed, m);
        let (cs2, levels, idx) = spec_pass(cs, current, prev, elapsed, n);
        let c = cs1[m as int];
        assert(c == cs[m as int]);
        let (c2, fired) = spec_check_pin(c, current[c.pin as int], prev1[c.pin as int], elapsed);
        if fired {
            assert(idx == idx1.push(m as int));
            assert forall|q: int| 0 <= q < 256 implies #[trigger] levels[q] == if some_fired_on(
                cs,
                idx,
                q,
            ) {
                current[q]
            } else {
                prev[q]
            } by {
                if q == c.pin as int {
                    assert(cs[idx[idx1.len() as int]].pin as int == q);
                } else {
                    if some_fired_on(cs, idx, q) {
                        let k = choose|k: int| 0 <= k < idx.len() && (#[trigger] cs[idx[k]]).pin as int == q;
                        assert(k < idx1.len());
                        assert(cs[idx1[k]].pin as int == q);
                    }
                    if some_fired_on(cs, idx1, q) {
                        let k = choose|k: int| 0 <= k < idx1.len() && (#[trigger] cs[idx1[k]]).pin as int == q;
                        assert(idx[k] == idx1[k]);
                    }
                }
            }
        } else {
            assert(idx == idx1);
        }
    }
}

} // verus!
