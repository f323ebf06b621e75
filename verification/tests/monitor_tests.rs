use gpiosentry::conf::PinConfig;
use gpiosentry::gpiopins::{registered_pins, start_pin_states};
use gpiosentry::monitor::{check_pin, process_pins};

fn config(pin: u8, trigger: u8, delay: i32, state: u8) -> PinConfig {
    let mut c = PinConfig::default();
    c.pin = pin;
    c.trigger = trigger;
    c.delay = delay;
    c.state = state;
    c
}

#[test]
fn registered_pins_lists_each_pin_once_in_first_order() {
    let cs = vec![config(18, 1, 0, 0), config(4, 0, 0, 0), config(18, 0, 0, 0), config(4, 1, 0, 0)];
    assert_eq!(registered_pins(&cs), vec![18, 4]);
    assert_eq!(registered_pins(&Vec::new()), Vec::<u8>::new());
}

#[test]
fn start_pin_states_reads_auto_and_starts_countdowns() {
    let mut cs = vec![config(3, 1, 40, 254), config(5, 1, 10, 1), config(5, 0, 10, 0)];
    let mut live = vec![0u8; 256];
    live[3] = 1;
    let prev = start_pin_states(&mut cs, &live);
    assert_eq!(cs[0].state, 1);
    assert_eq!(cs[0].timeout, 40);
    assert_eq!(cs[1].timeout, 10);
    assert_eq!(prev.len(), 256);
    assert_eq!(prev[3], 1);
    // the last configuration of pin 5 says low
    assert_eq!(prev[5], 0);
    assert_eq!(prev[0], 0);
}

#[test]
fn check_pin_skips_a_trigger_at_the_settled_level() {
    let mut c = config(1, 1, 30, 1);
    c.timeout = 7;
    assert!(!check_pin(&mut c, 0, 1, 10));
    assert_eq!(c.timeout, 7);
}

#[test]
fn check_pin_restarts_the_countdown_when_nothing_changed() {
    let mut c = config(1, 1, 30, 0);
    c.timeout = 5;
    assert!(!check_pin(&mut c, 0, 0, 10));
    assert_eq!(c.timeout, 30);
}

#[test]
fn check_pin_counts_down_then_fires_and_restarts() {
    let mut c = config(1, 1, 30, 0);
    c.timeout = 30;
    assert!(!check_pin(&mut c, 1, 0, 10));
    assert_eq!(c.timeout, 20);
    assert!(!check_pin(&mut c, 1, 0, 10));
    assert!(!check_pin(&mut c, 1, 0, 10));
    assert_eq!(c.timeout, 0);
    assert!(check_pin(&mut c, 1, 0, 10));
    assert_eq!(c.timeout, 30);
}

#[test]
fn a_zero_countdown_fires_at_once() {
    let mut c = config(1, 0, 0, 1);
    assert!(check_pin(&mut c, 0, 1, 0));
}

#[test]
fn process_pins_settles_fired_pins_only() {
    let mut cs = vec![config(2, 1, 0, 0), config(2, 0, 0, 0), config(9, 1, 5, 0)];
    cs[2].timeout = 5;
    let mut current = vec![0u8; 256];
    current[2] = 1;
    current[9] = 1;
    let mut prev = vec![0u8; 256];
    let fired = process_pins(&mut cs, &current, &mut prev, 1);
    assert_eq!(fired, vec![0]);
    assert_eq!(prev[2], 1);
    assert_eq!(prev[9], 0);
    assert_eq!(cs[2].timeout, 4);
    // the low trigger of pin 2 now sees the settled level 1 and restarts
    assert_eq!(cs[1].timeout, 0);
}

#[test]
fn held_level_fires_once_the_delay_has_passed() {
    let mut c = config(4, 1, 25, 0);
    c.timeout = 25;
    let deltas = [10, 10, 10, 10];
    let mut fired_at = None;
    for (k, d) in deltas.iter().enumerate() {
        if check_pin(&mut c, 1, 0, *d) {
            fired_at = Some(k);
            break;
        }
    }
    // 10 + 10 + 10 >= 25 first holds before check 3
    assert_eq!(fired_at, Some(3));
}

#[test]
fn pin_not_in_its_initial_state_fires_after_the_delay() {
    // state = high, trigger = low, delay = 20; the pin reads low at start-up
    let mut cs = vec![config(17, 0, 20, 1)];
    let live = vec![0u8; 256];
    let mut prev = start_pin_states(&mut cs, &live);
    assert_eq!(prev[17], 1);
    let current = vec![0u8; 256];
    assert_eq!(process_pins(&mut cs, &current, &mut prev, 0), Vec::<usize>::new());
    assert_eq!(process_pins(&mut cs, &current, &mut prev, 20), Vec::<usize>::new());
    assert_eq!(process_pins(&mut cs, &current, &mut prev, 5), vec![0]);
    assert_eq!(prev[17], 0);
    assert_eq!(cs[0].timeout, 20);
    // settled at the trigger level: further passes do nothing
    assert_eq!(process_pins(&mut cs, &current, &mut prev, 50), Vec::<usize>::new());
}

#[test]
fn a_short_pulse_restarts_the_countdown() {
    let mut c = config(8, 1, 30, 0);
    c.timeout = 30;
    assert!(!check_pin(&mut c, 1, 0, 20));
    assert_eq!(c.timeout, 10);
    // the pin falls back before the delay has passed
    assert!(!check_pin(&mut c, 0, 0, 5));
    assert_eq!(c.timeout, 30);
}
