//! The pins to watch, and the state the watch loop starts from.
use vstd::prelude::*;
use crate::conf::{PinConfig, PinSpec, pin_views};

verus! {

/// Some configuration among the first `upto` names pin `p`.
pub open spec fn names_pin(cs: Seq<PinConfig>, upto: int, p: u8) -> bool {
    exists|a: int| 0 <= a < upto && #[trigger] cs[a].pin == p
}

/// The pins of a sequence of configurations, in order.
pub open spec fn config_pins(cs: Seq<PinConfig>) -> Seq<u8> {
    cs.map_values(|c: PinConfig| c.pin)
}

/// The distinct values among the first `n` of `pins`, in the order in which
/// they first appear.
pub open spec fn first_appearances(pins: Seq<u8>, n: nat) -> Seq<u8>
    decreases n,
{
    if n == 0 || n > pins.len() {
        Seq::empty()
    } else {
        let prev = first_appearances(pins, (n - 1) as nat);
        if prev.contains(pins[n - 1]) {
            prev
        } else {
            prev.push(pins[n - 1])
        }
    }
}

/// The pins that the configurations name, each once, in the order in which
/// they first appear: the pins to set up as inputs.
pub fn registered_pins(configs: &Vec<PinConfig>) -> (r: Vec<u8>)
    ensures
        r@ == first_appearances(config_pins(configs@), configs.len() as nat),
        r@.no_duplicates(),
        forall|i: int| 0 <= i < configs.len() ==> r@.contains(#[trigger] configs@[i].pin),
        forall|j: int| 0 <= j < r.len() ==> names_pin(configs@, configs.len() as int, #[trigger] r@[j]),
{
    let mut seen: Vec<bool> = Vec::new();
    let mut k: usize = 0;
    while k < 256
        invariant
            k <= 256,
            seen.len() == k,
            forall|q: int| 0 <= q < k ==> !seen@[q],
        decreases 256 - k,
    {
        seen.push(false);
        k = k + 1;
    }
    let mut r: Vec<u8> = Vec::new();
    let n = configs.len();
    let mut i: usize = 0;
    while i < n
        invariant
            n == configs.len(),
            i <= n,
            seen.len() == 256,
            r@.no_duplicates(),
            r@ == first_appearances(config_pins(configs@), i as nat),
            forall|q: int| 0 <= q < 256 ==> (#[trigger] seen@[q] <==> r@.contains(q as u8)),
            forall|a: int| 0 <= a < i ==> r@.contains(#[trigger] configs@[a].pin),
            forall|j: int| 0 <= j < r.len() ==> names_pin(configs@, i as int, #[trigger] r@[j]),
        decreases n - i,
    {
        let pin = configs[i].pin;
        assert(config_pins(configs@)[i as int] == pin);
        if !seen[pin as usize] {
            let ghost old_r = r@;
            assert(!r@.contains(pin));
            seen.set(pin as usize, true);
            r.push(pin);
            proof {
                assert(r@ == old_r.push(pin));
                assert forall|q: int| 0 <= q < 256 implies (#[trigger] seen@[q] <==> r@.contains(
                    q as u8,
                )) by {
                    if q == pin as int {
                        assert(r@[r.len() - 1] == pin);
                    } else {
                        if r@.contains(q as u8) {
                            let j = choose|j: int| 0 <= j < r@.len() && r@[j] == q as u8;
                            assert(j < old_r.len());
                            assert(old_r.contains(q as u8));
                        }
                        if old_r.contains(q as u8) {
                            let j = choose|j: int| 0 <= j < old_r.len() && old_r[j] == q as u8;
                            assert(r@[j] == q as u8);
                        }
                    }
                }
                assert forall|a: int| 0 <= a < i + 1 implies r@.contains(#[trigger] configs@[a].pin) by {
                    if a == i {
                        assert(r@[r.len() - 1] == pin);
                    } else {
                        let j = choose|j: int| 0 <= j < old_r.len() && old_r[j] == configs@[a].pin;
                        assert(r@[j] == configs@[a].pin);
                    }
                }
                assert forall|j: int| 0 <= j < r.len() implies names_pin(configs@, i + 1, #[trigger] r@[j]) by {
                    if j == r.len() - 1 {
                        assert(configs@[i as int].pin == r@[j]);
                    } else {
                        assert(r@[j] == old_r[j]);
                    }
                }
            }
        } else {
            assert(r@.contains(pin));
        }
        i = i + 1;
    }
    assert forall|j: int| 0 <= j < r.len() implies names_pin(configs@, configs.len() as int, #[trigger] r@[j]) by {
        assert(names_pin(configs@, i as int, r@[j]));
    }
    r
}

/// The binary level a state stands for: 1 for high, 0 for anything else.
pub open spec fn level_of(state: u8) -> u8 {
    if state == 1 {
        1
    } else {
        0
    }
}

/// A configuration as the watch loop starts with it: the state `auto`
/// (254) replaced by the pin's live level, and the countdown at the delay.
pub open spec fn started_config(c: PinSpec, live: Seq<u8>) -> PinSpec {
    PinSpec {
        state: if c.state == 254 {
            live[c.pin as int]
        } else {
            c.state
        },
        timeout: c.delay,
        ..c
    }
}

/// The previous level of every pin after the first `n` started
/// configurations: each sets its pin's level from its state, later ones
/// overriding earlier ones; pins that no configuration names stay low.
pub open spec fn initial_levels(cs: Seq<PinSpec>, n: nat) -> Seq<u8>
    decreases n,
{
    if n == 0 || n > cs.len() {
        Seq::new(256, |q: int| 0u8)
    } else {
        let c = cs[n - 1];
        initial_levels(cs, (n - 1) as nat).update(c.pin as int, level_of(c.state))
    }
}

proof fn lemma_initial_levels_shape(cs: Seq<PinSpec>, n: nat)
    ensures
        initial_levels(cs, n).len() == 256,
        forall|q: int| 0 <= q < 256 ==> #[trigger] initial_levels(cs, n)[q] <= 1,
    decreases n,
{
    if n > 0 && n <= cs.len() {
        lemma_initial_levels_shape(cs, (n - 1) as nat);
    }
}

/// Prepares the watch loop: a configuration whose state is `auto` takes the
/// live level of its pin (`live`, indexed by pin number), every countdown
/// starts at the configured delay, and the returned previous levels,
/// indexed by pin number, hold for each pin the level of the state of its
/// last configuration.
pub fn start_pin_states(configs: &mut Vec<PinConfig>, live: &Vec<u8>) -> (prev: Vec<u8>)
    requires
        live.len() == 256,
    ensures
        final(configs).len() == old(configs).len(),
        forall|i: int|
            0 <= i < final(configs).len() ==> #[trigger] final(configs)@[i]@ == started_config(
                old(configs)@[i]@,
                live@,
            ),
        forall|i: int|
            0 <= i < final(configs).len() && old(configs)@[i].state == 254 ==> #[trigger] final(configs)@[i].state
                == live@[old(configs)@[i].pin as int],
        prev@ == initial_levels(pin_views(final(configs)@), final(configs).len() as nat),
        prev.len() == 256,
        forall|q: int| 0 <= q < 256 ==> #[trigger] prev@[q] <= 1,
{
    let mut prev: Vec<u8> = Vec::new();
    let mut k: usize = 0;
    while k < 256
        invariant
            k <= 256,
            prev.len() == k,
            forall|q: int| 0 <= q < k ==> prev@[q] == 0u8,
        decreases 256 - k,
    {
        prev.push(0);
        k = k + 1;
    }
    proof {
        assert(prev@ =~= initial_levels(Seq::empty(), 0));
    }
    let ghost orig = configs@;
    let n = configs.len();
    let mut i: usize = 0;
    while i < n
        invariant
            n == configs.len(),
            n == orig.len(),
            live.len() == 256,
            i <= n,
            forall|a: int|
                0 <= a < i ==> #[trigger] configs@[a]@ == started_config(orig[a]@, live@),
            forall|a: int| i <= a < n ==> #[trigger] configs@[a] == orig[a],
            prev@ == initial_levels(pin_views(configs@).take(i as int), i as nat),
            prev.len() == 256,
        decreases n - i,
    {
        let ghost before = configs@;
        let pin = configs[i].pin;
        if configs[i].state == 254 {
            let level = live[pin as usize];
            configs[i].state = level;
        }
        let delay = configs[i].delay;
        configs[i].timeout = delay;
        let state = configs[i].state;
        let level: u8 = if state == 1 { 1 } else { 0 };
        prev.set(pin as usize, level);
        proof {
            assert(configs@[i as int]@ == started_config(orig[i as int]@, live@));
            let t = pin_views(configs@).take(i + 1);
            let s = pin_views(before).take(i as int);
            assert forall|a: int| 0 <= a < i implies t[a] == s[a] by {
                assert(configs@[a] == before[a]);
            }
            lemma_initial_levels_prefix(t, s, i as nat);
            assert(t[i as int] == configs@[i as int]@);
            assert(prev@ =~= initial_levels(t, (i + 1) as nat));
        }
        i = i + 1;
    }
    proof {
        assert(pin_views(configs@).take(n as int) =~= pin_views(configs@));
        lemma_initial_levels_shape(pin_views(configs@), n as nat);
        assert forall|a: int| 0 <= a < n && orig[a].state == 254 implies #[trigger] configs@[a].state
            == live@[orig[a].pin as int] by {
            assert(configs@[a]@ == started_config(orig[a]@, live@));
        }
    }
    prev
}

/// Starting a configuration reads the pin only for the state `auto`: such a
/// configuration takes the live level of its pin as its state, any other
/// keeps its state; the countdown starts at the delay, and nothing else
/// changes.
pub proof fn lemma_auto_reads_live_level(c: PinSpec, live: Seq<u8>)
    ensures
        c.state == 254 ==> started_config(c, live).state == live[c.pin as int],
        c.state != 254 ==> started_config(c, live).state == c.state,
        started_config(c, live).timeout == c.delay,
        started_config(c, live) == (PinSpec {
            state: started_config(c, live).state,
            timeout: started_config(c, live).timeout,
            ..c
        }),
{
}

/// The previous level of a pin is set by the last configuration that names
/// it: 1 where that configuration's state is high (1), 0 otherwise.
pub proof fn lemma_last_config_sets_level(cs: Seq<PinSpec>, n: nat, i: int)
    requires
        n <= cs.len(),
        0 <= i < n,
        forall|j: int| i < j < n ==> #[trigger] cs[j].pin != cs[i].pin,
    ensures
        initial_levels(cs, n)[cs[i].pin as int] == if cs[i].state == 1 {
            1u8
        } else {
            0u8
        },
    decreases n,
{
    lemma_initial_levels_shape(cs, (n - 1) as nat);
    if i < n - 1 {
        assert(cs[n - 1].pin != cs[i].pin);
        lemma_last_config_sets_level(cs, (n - 1) as nat, i);
    }
}

/// A pin that no configuration names starts low.
pub proof fn lemma_unnamed_pin_low(cs: Seq<PinSpec>, n: nat, q: int)
    requires
        n <= cs.len(),
        0 <= q < 256,
        forall|j: int| 0 <= j < n ==> #[trigger] cs[j].pin as int != q,
    ensures
        initial_levels(cs, n)[q] == 0,
    decreases n,
{
    if n > 0 {
        lemma_initial_levels_shape(cs, (n - 1) as nat);
        assert(cs[n - 1].pin as int != q);
        lemma_unnamed_pin_low(cs, (n - 1) as nat, q);
    }
}

/// Under the state `auto`, a pin starts at the level it reads: when the
/// last configuration of a pin has the state `auto`, started, its state and
/// the pin's previous level are both the pin's live level (0 or 1).
pub proof fn lemma_auto_start_level(cs: Seq<PinSpec>, live: Seq<u8>, i: int)
    requires
        live.len() == 256,
        forall|q: int| 0 <= q < 256 ==> #[trigger] live[q] <= 1,
        0 <= i < cs.len(),
        cs[i].state == 254,
        forall|j: int| i < j < cs.len() ==> #[trigger] cs[j].pin != cs[i].pin,
    ensures
        ({
            let started = Seq::new(cs.len(), |a: int| started_config(cs[a], live));
            &&& started[i].state == live[cs[i].pin as int]
            &&& initial_levels(started, cs.len())[cs[i].pin as int] == live[cs[i].pin as int]
        }),
{
    let started = Seq::new(cs.len(), |a: int| started_config(cs[a], live));
    assert forall|j: int| i < j < cs.len() implies #[trigger] started[j].pin != started[i].pin by {
        assert(cs[j].pin != cs[i].pin);
    }
    lemma_last_config_sets_level(started, cs.len(), i);
    assert(live[cs[i].pin as int] <= 1);
}

/// The levels after `n` configurations depend only on the first `n`.
proof fn lemma_initial_levels_prefix(t: Seq<PinSpec>, s: Seq<PinSpec>, n: nat)
    requires
        n <= s.len(),
        n <= t.len(),
        forall|a: int| 0 <= a < n ==> t[a] == s[a],
    ensures
        initial_levels(t, n) == initial_levels(s, n),
    decreases n,
{
    if n > 0 {
        lemma_initial_levels_prefix(t, s, (n - 1) as nat);
    }
}

} // verus!
