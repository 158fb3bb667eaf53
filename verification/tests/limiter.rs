use offkilter::limiter::{RateLimiter, AUTH_ATTEMPTS_PER_WINDOW, AUTH_WINDOW_NANOS};

#[test]
fn sign_in_attempts_past_the_limit_are_refused_until_the_window_ends() {
    let mut l = RateLimiter::new();
    for _ in 0..AUTH_ATTEMPTS_PER_WINDOW {
        assert!(l.allow_at("1.2.3.4", 5));
    }
    assert!(!l.allow_at("1.2.3.4", 6));
    assert!(l.allow_at("5.6.7.8", 6));
    assert!(!l.allow_at("1.2.3.4", 5 + AUTH_WINDOW_NANOS - 1));
    assert!(l.allow_at("1.2.3.4", 5 + AUTH_WINDOW_NANOS));
}

#[test]
fn the_clock_driven_limiter_counts_too() {
    let mut l = RateLimiter::new();
    let mut allowed = 0;
    for _ in 0..(AUTH_ATTEMPTS_PER_WINDOW + 5) {
        if l.allow("client") {
            allowed += 1;
        }
    }
    assert_eq!(allowed, AUTH_ATTEMPTS_PER_WINDOW);
}

#[test]
fn of_twelve_attempts_in_a_window_the_last_two_are_refused() {
    let mut l = RateLimiter::new();
    let answers: Vec<bool> = (0..12u64)
        .map(|k| {
            // Another address between the attempts changes nothing.
            l.allow_at("other", 100 + k);
            l.allow_at("key", 100 + k * 1_000)
        })
        .collect();
    assert_eq!(answers, [vec![true; 10], vec![false; 2]].concat());
}

#[test]
fn an_address_can_always_count_its_next_attempt_in_practice() {
    let mut l = RateLimiter::new();
    assert!(l.can_count("a"));
    l.allow_at("a", 1);
    assert!(l.can_count("a"));
    assert!(l.can_count("b"));
}
