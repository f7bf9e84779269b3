use std::collections::BTreeSet;
use std::time::Instant;

use rand::rngs::ThreadRng;
use rand::RngCore;

use batches::batches::Batches;
use batches::statics::{BatchNumber, Composition};
use batches::triples_array::TriplesArray;
use batches::units::stepped_iter;

// The primes below 256.
const PRIMES: [u8; 54] = [
    2, 3, 5, 7, 11, 13, 17, 19, 23, 29, 31, 37, 41, 43, 47, 53, 59, 61, 67, 71, 73, 79, 83, 89, 97,
    101, 103, 107, 109, 113, 127, 131, 137, 139, 149, 151, 157, 163, 167, 173, 179, 181, 191, 193,
    197, 199, 211, 223, 227, 229, 233, 239, 241, 251,
];

fn print_elapsed(start: Instant) {
    let duration = start.elapsed();
    println!("duration: {}.{}", duration.as_secs(), duration.as_millis() % 1000);
}

#[test]
fn triples_array() {
    let correct = [3, 7, 9, 13, 15, 19, 21];
    for omicron in 3..=13usize {
        let works = correct.contains(&omicron);
        assert_eq!(works, omicron.test_quick(3).unwrap());
        assert_eq!(works, omicron.test_slow(3, false).unwrap());
        let generation = TriplesArray::generate_stupid(omicron, true);
        if let Ok(generation) = generation {
            if works {
                Batches::from(generation).audit().unwrap();
            } else {
                assert_eq!(works, Batches::from(generation).audit().is_ok());
            }
        } else {
            assert_eq!(works, generation.is_ok());
        }
    }
    for omicron in 14..25usize {
        let works = correct.contains(&omicron);

        assert_eq!(works, TriplesArray::test(omicron, true));
        assert_eq!(works, omicron.test_quick(3).unwrap_or_default());
        assert_eq!(works, omicron.test_slow(3, false).unwrap());
        if works && omicron != 21 {
            let generation = TriplesArray::generate_stupid(omicron, true);
            Batches::from(generation.unwrap()).audit().unwrap();
        }
    }
}

#[test]
fn primes() {
    let mut primes = PRIMES.into_iter();
    let mut prime = primes.next();
    for x in 0..=u8::MAX {
        if prime.is_some_and(|p| p == x) {
            assert!(x.is_prime());
            prime = primes.next();
        } else {
            assert!(!x.is_prime());
        }
    }
    assert!(primes.len() == 0);
}

#[test]
fn test_phi_2_n_phi_p_1() {
    let mut primes = PRIMES.into_iter().map(|p| p as u32);
    let mut prime = Some(1);
    for phi in 2..=28u32 {
        println!("phi: {phi:?}");
        let omicron = phi * (phi - 1) + 1;
        let valid = omicron.test_quick(phi);
        if prime.is_some_and(|p| p == phi - 1) {
            assert!(valid.is_ok(), "valid: {valid:?} | phi: {phi:?} | omicron: {omicron:?} | prime: {prime:?}");
            prime = primes.next();
        } else {
            assert!(valid.is_err(), "valid: {valid:?} | phi: {phi:?} | omicron: {omicron:?} | prime: {prime:?}");
        }

        println!("a");
        let batch0 = Batches::phi_2_n_phi_p_1(phi, 0);
        println!("b");
        let batch1 = Batches::phi_2_n_phi_p_1(phi, 1);
        println!("c");
        let batch2 = Batches::phi_2_n_phi_p_1(phi, 2);
        println!("d");

        match valid {
            Ok(true) => {
                if phi < 24 {
                    println!("e");
                    batch0.unwrap().audit().unwrap();
                    println!("f");
                    batch1.unwrap().audit().unwrap();
                    println!("g");
                    batch2.unwrap().audit().unwrap();
                    println!("h");
                } else {
                    println!("e");
                    batch0.unwrap();
                    println!("f");
                    batch1.unwrap();
                    println!("g");
                    batch2.unwrap();
                    println!("h");
                }
            }
            Ok(false) => panic!(),
            Err(_) => {
                assert!(batch0.is_none());
                assert!(batch1.is_none());
                assert!(batch2.is_none());
            }
        }
        println!();
    }
}

#[test]
fn test_phi_2() {
    let mut primes = PRIMES.into_iter().map(|p| p as u32);
    let mut prime = primes.next();
    for phi in 2..=28u32 {
        println!("phi: {phi:?}");
        let omicron = phi * phi;
        let valid = omicron.test_quick(phi);
        if prime.is_some_and(|p| p == phi) {
            assert!(valid.is_ok(), "valid: {valid:?} | phi: {phi:?} | omicron: {omicron:?} | prime: {prime:?}");
            prime = primes.next();
        } else {
            assert!(valid.is_err(), "valid: {valid:?} | phi: {phi:?} | omicron: {omicron:?} | prime: {prime:?}");
        }

        println!("a");
        let batch0 = Batches::phi_2(phi, 0);
        println!("b");
        let batch1 = Batches::phi_2(phi, 1);
        println!("c");
        let batch2 = Batches::phi_2(phi, 2);
        println!("d");

        match valid {
            Ok(true) => {
                if phi < 24 {
                    println!("e");
                    batch0.unwrap().audit().unwrap();
                    println!("f");
                    batch1.unwrap().audit().unwrap();
                    println!("g");
                    batch2.unwrap().audit().unwrap();
                    println!("h");
                } else {
                    println!("e");
                    batch0.unwrap();
                    println!("f");
                    batch1.unwrap();
                    println!("g");
                    batch2.unwrap();
                    println!("h");
                }
            }
            Ok(false) => panic!(),
            Err(_) => {
                assert!(batch0.is_none());
                assert!(batch1.is_none());
                assert!(batch2.is_none());
            }
        }
        println!();
    }
}

#[test]
fn test_phi_x_omicron() {
    println!("\n");
    println!();
    let mut valid: BTreeSet<[u32; 2]> = BTreeSet::new();
    let mut invalid: BTreeSet<[u32; 2]> = BTreeSet::new();

    println!("triples_array");
    let start = Instant::now();
    for mut omicron in [13, 15, 19usize] {
        let phi = 3usize;
        match omicron.test_quick(phi) {
            Ok(true) => (),
            Ok(false) => {
                panic!();
            }
            Err(_) => panic!(),
        }

        let mut batches: Batches = Batches::from(TriplesArray::generate_stupid(omicron, false).unwrap());
        batches = batches.phi_x_omicron();

        match (batches.audit(), batches.omicron.test_quick(3)) {
            (Ok(_), Ok(true)) | (Ok(_), Err(_)) => assert!(valid.insert([3, omicron as u32])),
            _ => panic!(),
        }

        for _ in 0..3 {
            omicron *= phi;

            batches = batches.phi_x_omicron();

            match (batches.audit(), batches.omicron.test_quick(phi as u32)) {
                (Ok(_), Ok(true)) | (Ok(_), Err(_)) => assert!(valid.insert([phi as u32, omicron as u32]), "{phi}, {omicron}"),
                (Err(_), Err(_)) => {
                    assert!(invalid.insert([phi as u32, omicron as u32]));
                    break;
                }
                (Err(err), Ok(false)) => panic!("{err:?}"),
                (Err(err), Ok(true)) => panic!("{err:?}"),
                (Ok(_), Ok(false)) => panic!(),
            }
        }
    }
    print_elapsed(start);

    println!("\n");

    println!("phi == omicron");
    let start = Instant::now();
    for (iterations, phi) in stepped_iter(&[2, 3, 15, 40]) {
        let mut omicron = phi;
        match omicron.test_quick(phi) {
            Ok(true) => (),
            Ok(false) => {
                panic!();
            }
            Err(_) => panic!(),
        }

        let mut batches = Batches::phi_equals_omicron(phi, 0);
        batches = batches.phi_x_omicron();

        match (batches.audit(), batches.omicron.test_quick(phi)) {
            (Ok(_), Ok(true)) | (Ok(_), Err(_)) => assert!(valid.insert([phi, omicron])),
            (Err(_), Err(_)) => assert!(invalid.insert([phi, omicron])),
            (Err(err), Ok(false)) => panic!("{err:?}"),
            (Err(err), Ok(true)) => {
                println!("{batches:?}");
                panic!("{err:?}")
            }
            (Ok(_), Ok(false)) => panic!(),
        }

        for _ in 0..iterations + 3 * (phi == 2) as usize {
            omicron *= phi;
            batches = batches.phi_x_omicron();

            match (batches.audit(), batches.omicron.test_quick(phi)) {
                (Ok(_), Ok(true)) | (Ok(_), Err(_)) => assert!(valid.insert([phi, omicron]), "{phi}, {omicron}, {iterations}"),
                (Err(_), Err(_)) => {
                    assert!(invalid.insert([phi, omicron]));
                    break;
                }
                (Err(err), Ok(false)) => panic!("{err:?}"),
                (Err(err), Ok(true)) => panic!("{err:?}"),
                (Ok(_), Ok(false)) => panic!(),
            }
        }
    }
    print_elapsed(start);

    println!("\n");

    println!("phi*phi - phi + 1 = omicron");
    let start = Instant::now();
    for (iterations, phi) in stepped_iter(&[2, 3, 16, 17, 18]) {
        let iterations = iterations + 2;
        let mut omicron = phi * (phi - 1) + 1;
        match omicron.test_quick(phi) {
            Ok(true) => (),
            Ok(false) => panic!(),
            Err(_) => continue,
        }

        let mut batches = Batches::phi_2_n_phi_p_1(phi, 0).unwrap();

        batches = batches.phi_x_omicron();
        match (batches.audit(), batches.omicron.test_quick(phi)) {
            (Ok(_), Ok(true)) | (Ok(_), Err(_)) => assert!(valid.insert([phi, omicron]), "{phi}, {omicron}, {iterations}"),
            (Err(_), Err(_)) => {
                assert!(invalid.insert([phi, omicron]));
                continue;
            }
            (Err(err), Ok(false)) => panic!("{err:?}"),
            (Err(err), Ok(true)) => panic!("{err:?}"),
            (Ok(_), Ok(false)) => panic!(),
        }

        for _ in 0..iterations {
            omicron *= phi;

            batches = batches.phi_x_omicron();

            match (batches.audit(), batches.omicron.test_quick(phi)) {
                (Ok(_), Ok(true)) | (Ok(_), Err(_)) => assert!(valid.insert([phi, omicron]), "{phi}, {omicron}, {iterations}"),
                (Err(_), Err(_)) => {
                    assert!(invalid.insert([phi, omicron]));
                    break;
                }
                (Err(err), Ok(false)) => panic!("{err:?}"),
                (Err(err), Ok(true)) => panic!("{err:?}"),
                (Ok(_), Ok(false)) => panic!(),
            }
        }
    }
    print_elapsed(start);
    println!("\n");

    println!(
        "valid: {}",
        format!("{valid:?}")
            .replace("[", "\\left(")
            .replace("]", "\\right)")
            .replacen("{", "\\left[", 1)
            .replacen("}", "\\right]", 1)
    );
    println!();
    println!(
        "invalid: {}",
        format!("{invalid:?}")
            .replace("[", "\\left(")
            .replace("]", "\\right)")
            .replacen("{", "\\left[", 1)
            .replacen("}", "\\right]", 1)
    );
    println!();
}

#[test]
fn test_phi_equal_omicron() {
    let mut rng = ThreadRng::default();
    rng.reseed().unwrap();
    for x in 2..=u8::MAX as u32 {
        assert_eq!(Batches::phi_equals_omicron(x, 0).to_string(), format!("{:?}", (0..x).collect::<BTreeSet<u32>>()));
        Batches::phi_equals_omicron(x, 0).audit().unwrap();
        Batches::phi_equals_omicron(x, 1).audit().unwrap();
        Batches::phi_equals_omicron(x, 2).audit().unwrap();
        Batches::phi_equals_omicron(x, 3).audit().unwrap();
        Batches::phi_equals_omicron(x, rng.next_u32() % u16::MAX as u32).audit().unwrap();
    }
}
