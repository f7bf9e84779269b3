use std::time::{Duration, Instant};

use batches::batches::Batches;
use batches::units::format_duration;

fn log_total_and_mean(duration: Duration, count: f64) {
    println!("total: {}", format_duration(duration.as_secs(), duration.as_millis()));
    let mean = duration.div_f64(count);
    println!("mean: {}", format_duration(mean.as_secs(), mean.as_millis()));
}

const SINGLETON_MIN: u32 = 10;
const INCLUDE_PRE: bool = false;
const SPLIT: bool = false;

#[test]
pub fn phi_eq_omicron_singleton() {
    let min = SINGLETON_MIN * SINGLETON_MIN.isqrt();
    let max = 10000;
    if INCLUDE_PRE {
        phi_eq_omicron(2, min, true);
    }
    if SPLIT {
        let mid = (max + SINGLETON_MIN) / 2;
        phi_eq_omicron(min + 1, mid, true);
        phi_eq_omicron(mid + 1, max, true);
    } else {
        phi_eq_omicron(min, max, true);
    }
}

fn phi_eq_omicron(min: u32, max: u32, log: bool) -> Duration {
    let start = Instant::now();
    for phi in min..=max {
        let _ = Batches::phi_equals_omicron(phi, 0);
    }
    let elapsed = start.elapsed();
    if log {
        log_total_and_mean(elapsed, (max - min + 1) as f64);
    }
    elapsed
}

#[test]
pub fn phi_x_omicron_singleton() {
    let max = 27;
    if INCLUDE_PRE {
        phi_x_omicron(2, SINGLETON_MIN, true);
    }
    if SPLIT {
        let mid = (max + SINGLETON_MIN) / 2;
        phi_x_omicron(SINGLETON_MIN + 1, mid, true);
        phi_x_omicron(mid + 1, max, true);
    } else {
        phi_x_omicron(SINGLETON_MIN, max, true);
    }
}

fn phi_x_omicron(min: u32, max: u32, log: bool) -> Duration {
    let start = Instant::now();
    for phi in min..=max {
        let _ = Batches::phi_equals_omicron(phi, 0).phi_x_omicron().phi_x_omicron();
    }
    let elapsed = start.elapsed();
    if log {
        log_total_and_mean(elapsed, (max - min + 1) as f64);
    }
    elapsed
}

#[test]
pub fn phi_2_n_phi_p_1_singleton() {
    let max = 60;
    if INCLUDE_PRE {
        phi_2_n_phi_p_1(2, SINGLETON_MIN, true);
    }
    if SPLIT {
        let mid: u32 = (max + SINGLETON_MIN) / 2;
        phi_2_n_phi_p_1(SINGLETON_MIN + 1, mid, true);
        phi_2_n_phi_p_1(mid + 1, max, true);
    } else {
        phi_2_n_phi_p_1(SINGLETON_MIN, max, true);
    }
}

fn phi_2_n_phi_p_1(min: u32, max: u32, log: bool) -> Duration {
    let start = Instant::now();
    for phi in min..=max {
        let _ = Batches::phi_2_n_phi_p_1(phi, 0);
    }
    let elapsed = start.elapsed();
    if log {
        log_total_and_mean(elapsed, (max - min + 1) as f64);
    }
    elapsed
}

#[test]
pub fn phi_2_singleton() {
    let max = 60;
    if INCLUDE_PRE {
        phi_2(2, SINGLETON_MIN, true);
    }
    if SPLIT {
        let mid = (max + SINGLETON_MIN) / 2;
        phi_2(SINGLETON_MIN + 1, mid, true);
        phi_2(mid + 1, max, true);
    } else {
        phi_2(SINGLETON_MIN, max, true);
    }
}

fn phi_2(min: u32, max: u32, log: bool) -> Duration {
    let start = Instant::now();
    for phi in min..=max {
        let _ = Batches::phi_2(phi, 0);
    }
    let elapsed = start.elapsed();
    if log {
        log_total_and_mean(elapsed, (max - min + 1) as f64);
    }
    elapsed
}

#[test]
pub fn batches_building() {
    println!("phi == omicron");
    phi_eq_omicron_singleton();

    println!();
    println!("phi x omicron");
    phi_x_omicron_singleton();

    println!();
    println!("phi^2 - phi + 1");
    phi_2_n_phi_p_1_singleton();

    println!();
    println!("phi^2");
    phi_2_singleton();
}
