use std::collections::BTreeSet;
use std::time::Instant;

use batches::batches::Batches;
use batches::statics::{BatchNumber, Composition};
use batches::triples_array::TriplesArray;
use batches::units::stepped_iter;

type Int = u32;

fn print_elapsed(start: Instant) {
    let duration = start.elapsed();
    println!("duration: {}.{}", duration.as_secs(), duration.as_millis() % 1000);
}

fn dedup_firsts(set: &BTreeSet<[Int; 2]>) -> Vec<Int> {
    let mut out: Vec<Int> = set.iter().map(|p| p[0]).collect();
    out.dedup();
    out
}

#[test]
fn phi_x_omicron_general() {
    println!("\n");
    println!();
    let mut valid: BTreeSet<[Int; 2]> = BTreeSet::new();
    let mut invalid: BTreeSet<[Int; 2]> = BTreeSet::new();

    println!("triples_array");
    let start = Instant::now();
    for mut omicron in [13, 15, 19usize] {
        let phi = 3usize;
        match omicron.test_quick(phi) {
            Ok(true) => (),
            Ok(false) => {
                panic!();
            }
            Err(_) => panic!(),
        }

        let mut batches: Batches = Batches::from(TriplesArray::generate_stupid(omicron, false).unwrap());
        batches = batches.phi_x_omicron();

        match (batches.audit(), batches.omicron.test_quick(3)) {
            (Ok(_), Ok(true)) | (Ok(_), Err(_)) => assert!(valid.insert([3, omicron as Int])),
            _ => panic!(),
        }

        for _ in 0..3 {
            omicron *= phi;

            batches = batches.phi_x_omicron();

            match (batches.audit(), batches.omicron.test_quick(phi as Int)) {
                (Ok(_), Ok(true)) | (Ok(_), Err(_)) => assert!(valid.insert([phi as Int, omicron as Int]), "{phi}, {omicron}"),
                (Err(_), Err(_)) => {
                    assert!(invalid.insert([phi as Int, omicron as Int]));
                    break;
                }
                (Err(err), Ok(false)) => panic!("{err:?}"),
                (Err(err), Ok(true)) => panic!("{err:?}"),
                (Ok(_), Ok(false)) => panic!(),
            }
        }
    }
    print_elapsed(start);

    println!("\n");

    println!("phi == omicron");
    let start = Instant::now();
    for (iterations, phi) in stepped_iter(&[2, 3, 15, 40]) {
        let mut omicron = phi;
        match omicron.test_quick(phi) {
            Ok(true) => (),
            Ok(false) => {
                panic!();
            }
            Err(_) => panic!(),
        }

        let mut batches = Batches::phi_equals_omicron(phi, 0);
        batches = batches.phi_x_omicron();

        match (batches.audit(), batches.omicron.test_quick(phi)) {
            (Ok(_), Ok(true)) | (Ok(_), Err(_)) => assert!(valid.insert([phi, omicron])),
            (Err(_), Err(_)) => {
                assert!(invalid.insert([phi, omicron]));
                continue;
            }
            (Err(err), Ok(false)) => panic!("{err:?}"),
            (Err(err), Ok(true)) => {
                println!("{batches:?}");
                panic!("{err:?}")
            }
            (Ok(_), Ok(false)) => panic!(),
        }

        for _ in 0..iterations + 3 * (phi == 2) as usize {
            omicron *= phi;
            batches = batches.phi_x_omicron();

            match (batches.audit(), batches.omicron.test_quick(phi)) {
                (Ok(_), Ok(true)) | (Ok(_), Err(_)) => assert!(valid.insert([phi, omicron]), "{phi}, {omicron}, {iterations}"),
                (Err(_), Err(_)) => {
                    assert!(invalid.insert([phi, omicron]));
                    break;
                }
                (Err(err), Ok(false)) => panic!("{err:?}"),
                (Err(err), Ok(true)) => panic!("{err:?}"),
                (Ok(_), Ok(false)) => panic!(),
            }
        }
    }
    print_elapsed(start);

    println!("\n");

    println!("phi*phi - phi + 1 = omicron");
    let start = Instant::now();
    for (iterations, phi) in stepped_iter(&[2, 3, 16, 17, 18]) {
        let iterations = iterations + 2;
        let mut omicron = phi * (phi - 1) + 1;
        match omicron.test_quick(phi) {
            Ok(true) => (),
            Ok(false) => panic!(),
            Err(_) => continue,
        }

        let mut batches = Batches::phi_2_n_phi_p_1(phi, 0).unwrap();

        batches = batches.phi_x_omicron();
        match (batches.audit(), batches.omicron.test_quick(phi)) {
            (Ok(_), Ok(true)) | (Ok(_), Err(_)) => assert!(valid.insert([phi, omicron]), "{phi}, {omicron}, {iterations}"),
            (Err(e), Err(_)) if !e.severe => {
                assert!(invalid.insert([phi, omicron]));
                continue;
            }
            (Err(e), Err(_)) => {
                println!("{batches:?}");
                panic!("{e:?}")
            }
            (Err(err), Ok(false)) => panic!("{err:?}"),
            (Err(err), Ok(true)) => panic!("{err:?}"),
            (Ok(_), Ok(false)) => panic!(),
        }

        for _ in 0..iterations {
            omicron *= phi;

            batches = batches.phi_x_omicron();

            match (batches.audit(), batches.omicron.test_quick(phi)) {
                (Ok(_), Ok(true)) | (Ok(_), Err(_)) => assert!(valid.insert([phi, omicron]), "{phi}, {omicron}, {iterations}"),
                (Err(_), Err(_)) => {
                    assert!(invalid.insert([phi, omicron]));
                    break;
                }
                (Err(err), Ok(false)) => panic!("{err:?}"),
                (Err(err), Ok(true)) => panic!("{err:?}"),
                (Ok(_), Ok(false)) => panic!(),
            }
        }
    }
    print_elapsed(start);
    println!("\n");

    println!(
        "valid: {}",
        format!("{valid:?}")
            .replace("[", "\\left(")
            .replace("]", "\\right)")
            .replacen("{", "\\left[", 1)
            .replacen("}", "\\right]", 1)
    );
    println!();
    println!(
        "invalid: {}",
        format!("{invalid:?}")
            .replace("[", "\\left(")
            .replace("]", "\\right)")
            .replacen("{", "\\left[", 1)
            .replacen("}", "\\right]", 1)
    );
    println!();

    for [phi, omicron] in invalid.iter() {
        assert!(!invalid.contains(&[*phi, omicron * phi]), "{:?}", [phi, omicron]);
        assert!(!valid.contains(&[*phi, omicron * phi]), "{:?}", [phi, omicron]);
    }
}

fn checkups(valids: bool, init: bool, valid: &BTreeSet<[Int; 2]>, invalid: &BTreeSet<[Int; 2]>) {
    if !init {
        if valids {
            println!("valid: {valid:?}");
            println!("valid: phi: {:?}", dedup_firsts(valid));
            println!("valid: omicron: {:?}", valid.iter().map(|p| p[1]).collect::<Vec<Int>>());
        } else {
            println!("invalid: {invalid:?}");
            println!("invalid: phi: {:?}", dedup_firsts(invalid));
            println!("invalid: omicron: {:?}", invalid.iter().map(|p| p[1]).collect::<Vec<Int>>());
        }
    }
}

#[test]
fn phi_x_omicron_single() {
    println!("\n");
    println!();
    let mut valid: BTreeSet<[Int; 2]> = BTreeSet::new();
    let mut invalid: BTreeSet<[Int; 2]> = BTreeSet::new();
    let init = valid.is_empty();

    println!("loop");
    let start = Instant::now();

    for phi in 2..18u32 {
        println!("phi: {phi}");
        if phi <= 3 {
            valid.insert([phi, phi * phi - phi + 1]);
            valid.insert([phi, phi * phi]);
            continue;
        }

        let omicron = if phi & 1 == 1 {
            if !phi.is_prime() {
                continue;
            };
            phi * phi
        } else {
            if !(phi - 1).is_prime() {
                continue;
            };
            phi * phi - phi + 1
        };
        println!(".");
        match (phi_x_omicron_test(phi, omicron), (phi * omicron).test_quick(phi)) {
            (true, Ok(true)) | (true, Err(_)) => {
                assert!(valid.insert([phi, omicron]), "{phi}; {omicron}");
                checkups(true, init, &valid, &invalid);
            }
            (false, Err(_)) => {
                assert!(invalid.insert([phi, omicron]));
                checkups(false, init, &valid, &invalid);
            }
            (false, Ok(false)) => panic!(),
            (false, Ok(true)) => {
                panic!()
            }
            (true, Ok(false)) => panic!(),
        }
    }
    print_elapsed(start);
    println!("\n");

    println!("valid: {:?}", valid);
    println!("invalid: {:?}", invalid);

    println!("valid phi: {:?}", dedup_firsts(&valid));
    println!("invalid phi: {:?}", dedup_firsts(&invalid));

    println!("valid omicron: {:?}", valid.iter().map(|p| p[1]).collect::<Vec<Int>>());
    println!("invalid omicron: {:?}", invalid.iter().map(|p| p[1]).collect::<Vec<Int>>());

    println!();
}

fn phi_x_omicron_test(phi: Int, base_omicron: Int) -> bool {
    let pair_count = phi as usize * (phi as usize - 1) / 2 * base_omicron as usize * base_omicron as usize;
    let mut pairs: hashbrown::HashSet<[Int; 2], rustc_hash::FxBuildHasher> =
        hashbrown::HashSet::with_capacity_and_hasher(pair_count, rustc_hash::FxBuildHasher);

    for i in 0..base_omicron {
        for ii in 0..base_omicron {
            let set = (1..phi).map(|iii| base_omicron * iii + ((i * iii + ii) % base_omicron)).collect::<Vec<Int>>();
            for iii in 0..set.len() {
                let x = set[iii];
                for iv in 0..iii {
                    if !pairs.insert([x, set[iv]]) {
                        return false;
                    }
                }
                if !pairs.insert([i, x]) {
                    panic!();
                }
            }
        }
    }

    assert_eq!(pair_count, pairs.len());
    true
}
