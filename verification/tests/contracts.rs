use std::collections::{BTreeSet, VecDeque};

use batches::batches::{Batches, ValidationError};
use batches::binary_collections::{BinaryCollection, BinaryResizableCollection};
use batches::math::Batches as OlderBatches;
use batches::math::TriplesArray as OlderTriplesArray;
use batches::statics::{
    format_test_results, test_omicron_quick, test_omicron_slow, BatchNumber, Composition, ExpectOr,
    TestError, UnwrapEither,
};
use batches::triples_array::TriplesArray;
use batches::units::{format_duration, stepped_iter};

fn set_of(xs: &[u32]) -> BTreeSet<u32> {
    xs.iter().copied().collect()
}

#[test]
fn duration_is_seconds_and_padded_millis() {
    assert_eq!(format_duration(12, 12_045), "12.045s");
    assert_eq!(format_duration(0, 7), "0.007s");
    assert_eq!(format_duration(3, 3_999), "3.999s");
    assert_eq!(format_duration(1, 1_050), "1.050s");
}

#[test]
fn stepped_iter_walks_windows_from_the_top() {
    assert_eq!(stepped_iter(&[0, 2, 5]), vec![(0, 4), (0, 3), (0, 2), (1, 1), (1, 0)]);
    assert_eq!(stepped_iter(&[3, 3]), vec![]);
    assert_eq!(stepped_iter(&[7]), vec![]);
}

#[test]
fn results_list_successes_and_unknowns() {
    let results = || vec![(2, Ok(true)), (3, Ok(false)), (4, Err(TestError)), (5, Ok(true))];
    assert_eq!(format_test_results(results(), true), "2, ?4, 5");
    assert_eq!(format_test_results(results(), false), "2, 5");
    assert_eq!(format_test_results(vec![(3, Ok(false))], true), "");
}

#[test]
fn quick_listing_of_seven() {
    let results = test_omicron_quick(7, None, None);
    assert_eq!(results, vec![(2, Ok(true)), (3, Ok(true)), (7, Ok(true))]);
    assert_eq!(format_test_results(results, true), "2, 3, 7");
    assert_eq!(test_omicron_quick(7, Some(3), Some(3)), vec![(3, Ok(true))]);
    assert_eq!(test_omicron_quick(7, Some(2), Some(3)), vec![(2, Ok(true)), (3, Ok(true))]);
    assert_eq!(test_omicron_quick(7, Some(0), Some(1)), vec![(0, Ok(false)), (1, Ok(false))]);
    assert_eq!(test_omicron_quick(7, Some(4), Some(3)), vec![]);
}

#[test]
fn slow_listing_of_nine() {
    let results = test_omicron_slow(9, Some(2), None, false);
    assert_eq!(results, vec![(2, Ok(true)), (3, Ok(true))]);
    assert_eq!(test_omicron_slow(7, None, Some(3), false), vec![(2, Ok(true)), (3, Ok(true))]);
    assert_eq!(test_omicron_slow(9, None, None, false), vec![(2, Ok(true)), (3, Ok(true))]);
}

#[test]
fn planes_are_found_by_the_quick_test() {
    // affine planes: phi * phi elements for prime phi
    for phi in [2u32, 3, 5, 7, 11] {
        assert_eq!((phi * phi).test_quick(phi), Ok(true));
    }
    // projective planes: phi * (phi - 1) + 1 elements for prime phi - 1
    for phi in [3u32, 4, 6, 8, 12] {
        assert_eq!((phi * (phi - 1) + 1).test_quick(phi), Ok(true));
    }
}

#[test]
fn quick_test_rules() {
    assert_eq!(1u32.test_quick(0), Ok(true));
    assert_eq!(1u32.test_quick(2), Ok(false));
    assert_eq!(10u32.test_quick(1), Ok(false));
    assert_eq!(10u32.test_quick(10), Ok(true));
    assert_eq!(10u32.test_quick(3), Ok(false));
    assert_eq!(13u32.test_quick(3), Ok(true));
    assert_eq!(9usize.test_quick(4), Ok(false));
}

#[test]
fn strong_bound_and_slow_test() {
    assert_eq!(13u32.max_phi_weak(), 4);
    assert_eq!(2u32.max_phi_weak(), 2);
    assert_eq!(7u32.test_slow(3, false), Ok(true));
    assert_eq!(9u32.test_slow(3, false), Ok(true));
    assert_eq!(10u32.test_slow(3, false), Ok(false));
}

#[test]
fn primes_by_every_width() {
    assert!(2u8.is_prime());
    assert!(!1u16.is_prime());
    assert!(97u32.is_prime());
    assert!(!91u64.is_prime());
    assert!(4_294_967_291u64.is_prime());
    assert!(!(-7i32).is_prime());
    assert!(7919i128.is_prime());
    assert!(!0usize.is_prime());
}

#[test]
fn results_unwrap_either_way() {
    let ok: Result<u32, &str> = Ok(4);
    assert_eq!(ok.expect_or(|_| "never"), 4);
    let err: Result<u32, u32> = Err(9);
    assert_eq!(err.expect_err_or(|_| "never"), 9);
    assert_eq!(Ok::<u32, u32>(3).unwrap_either(), 3);
    assert_eq!(Err::<u32, u32>(5).unwrap_either(), 5);
}

#[test]
fn binary_search_in_sorted_vectors() {
    let v: Vec<u32> = vec![1, 3, 5, 7];
    assert_eq!(v.b_search_less(&4), 1);
    assert_eq!(v.b_search_less(&7), 3);
    assert_eq!(v.b_search_greater(&4), 2);
    assert_eq!(v.b_search_greater(&9), 4);
    assert_eq!(v.b_search(&5), Some(2));
    assert_eq!(v.b_search(&4), None);
    assert!(v.b_contains(&7));
    assert!(!v.b_contains(&6));
    let e: Vec<usize> = vec![];
    assert_eq!(e.b_search_greater(&3), 0);
}

#[test]
fn binary_search_finds_nothing_where_nothing_is() {
    let v: Vec<u32> = vec![1, 3, 5];
    assert_eq!(v.b_search(&3), Some(1));
    assert_eq!(v.b_search(&4), None);
    assert_eq!(v.b_search(&0), None);
    assert!(!v.b_contains(&0));
    let e: Vec<u32> = vec![];
    assert_eq!(e.b_search(&1), None);
    assert!(!e.b_contains(&1));
    let w: Vec<usize> = vec![4, 8];
    assert_eq!(w.b_search(&2), None);
    assert!(!w.b_contains(&2));
    let d: VecDeque<u32> = VecDeque::from(vec![2, 4]);
    assert_eq!(d.b_search(&1), None);
    assert!(!d.b_contains(&1));
    assert_eq!(d.b_search(&4), Some(1));
    let a: [u32; 2] = [5, 6];
    assert_eq!(a.b_search(&1), None);
    assert!(!a.b_contains(&1));
    let z: [u32; 0] = [];
    assert_eq!(z.b_search(&1), None);
}

#[test]
fn binary_insertion_keeps_order() {
    let mut v: Vec<u32> = vec![1, 3, 5, 7];
    assert_eq!(v.b_insert_keep(4), None);
    assert_eq!(v, vec![1, 3, 4, 5, 7]);
    assert_eq!(v.b_insert_keep(5), Some(&5));
    assert_eq!(v.b_insert_replace(5), Some(5));
    assert_eq!(v.b_insert_replace(9), None);
    assert_eq!(v, vec![1, 3, 4, 5, 7, 9]);
    v.b_insert_after(5);
    assert_eq!(v, vec![1, 3, 4, 5, 5, 7, 9]);
    v.b_insert_before(0);
    assert_eq!(v, vec![0, 1, 3, 4, 5, 5, 7, 9]);
    let mut w: Vec<usize> = vec![2, 4];
    w.b_insert_before(3);
    assert_eq!(w, vec![2, 3, 4]);
}

#[test]
fn binary_search_in_deques_and_arrays() {
    let mut d: VecDeque<u32> = VecDeque::from(vec![2, 4, 6]);
    assert_eq!(d.b_search_greater(&5), 2);
    assert_eq!(d.b_insert_keep(5), None);
    assert_eq!(d, VecDeque::from(vec![2, 4, 5, 6]));
    assert_eq!(d.b_insert_replace(4), Some(4));
    d.b_insert_after(9);
    d.b_insert_before(1);
    assert_eq!(d, VecDeque::from(vec![1, 2, 4, 5, 6, 9]));
    let a: [u32; 4] = [1, 3, 5, 7];
    assert_eq!(a.b_search(&7), Some(3));
    assert_eq!(a.b_search_less(&6), 2);
    assert_eq!(a.b_search_greater(&6), 3);
    assert!(!a.b_contains(&2));
}

#[test]
fn small_systems_as_text() {
    assert_eq!(Batches::phi_equals_omicron(3, 0).to_string(), "{0, 1, 2}");
    let b = Batches::phi_2_n_phi_p_1(2, 0).unwrap();
    assert_eq!(b.to_string(), "{0, 1}\n{0, 2}\n{1, 2}");
    let fano = Batches::phi_2_n_phi_p_1(3, 0).unwrap();
    assert_eq!(fano.len(), 7);
    assert_eq!(fano.lambda(), 3);
    assert_eq!(fano.pairs(), 21);
}

#[test]
fn generators_refuse_non_primes() {
    assert!(Batches::phi_2(4, 0).is_none());
    assert!(Batches::phi_2(9, 0).is_none());
    assert!(Batches::phi_2_n_phi_p_1(5, 0).is_none());
    let b = Batches::phi_2(5, 3).unwrap();
    assert_eq!(b.len(), 30);
    assert_eq!((b.omicron, b.phi, b.min, b.max), (25, 5, 3, 27));
    assert!(b.audit().is_ok());
}

#[test]
fn audit_names_each_failure() {
    let mut b = Batches::phi_2(3, 0).unwrap();
    assert!(b.audit().is_ok());
    b.max = 9;
    let err = b.audit().unwrap_err();
    assert!(err.severe);
    let mut c = Batches::phi_2(3, 0).unwrap();
    c.omicron = 7;
    c.max = 6;
    assert!(c.audit().unwrap_err().severe);
    let mut d = Batches::phi_2(3, 0).unwrap();
    d.phi = 4;
    assert!(d.audit().unwrap_err().severe);
}

#[test]
fn failed_searches_have_no_solution_to_miss() {
    // no Steiner triple system on 4, 5, 6 or 11 elements: each search runs out
    for omicron in [4usize, 5, 6, 11] {
        assert!(TriplesArray::generate_stupid(omicron, false).is_err());
    }
    let mut t = TriplesArray::new(5);
    assert!(!t.check(false));
    assert_eq!(t.pointer.1, 0);
    assert!(!TriplesArray::test(11, false));
}

#[test]
fn quick_refusals_fail_the_audit() {
    // ten elements in triples: (10 - 1) is odd, so the quick test refuses it
    assert_eq!(10u32.test_quick(3), Ok(false));
    let mut b = Batches::phi_2(3, 0).unwrap();
    b.omicron = 10;
    b.max = 9;
    assert!(b.audit().is_err());
    // nine elements in batches of four: 8 is not a multiple of 3
    assert_eq!(9u32.test_quick(4), Ok(false));
    let mut c = Batches::phi_2(3, 0).unwrap();
    c.phi = 4;
    assert!(c.audit().is_err());
}

#[test]
fn audit_messages_name_the_failure() {
    let mut b = Batches::phi_2(3, 0).unwrap();
    b.max = 9;
    assert_eq!(b.audit().unwrap_err().err, "Phi is too small. phi = 3; omicron = 9; min = 0; max = 9");
    let mut c = Batches::phi_2(3, 0).unwrap();
    c.phi = 4;
    assert_eq!(c.audit().unwrap_err().err, "phi is too large. phi = 4; omicron = 9");
    let mut d = Batches::phi_2(3, 0).unwrap();
    d.omicron = 8;
    d.max = 7;
    assert_eq!(
        d.audit().unwrap_err().err,
        "Non-integral number of appearances of each element. phi = 3; omicron = 8; min = 0; max = 7; computed lambda = 3"
    );
    let mut e = Batches::phi_2(3, 0).unwrap();
    e.omicron = 7;
    e.max = 6;
    assert_eq!(
        e.audit().unwrap_err().err,
        "The number of batches is incorrect. phi = 3; omicron = 7; min = 0; max = 6; expected len: 7; actual len: 12"
    );
    let mut f = Batches::phi_2(3, 0).unwrap();
    f.omicron = 11;
    f.max = 10;
    assert_eq!(
        f.audit().unwrap_err().err,
        "Correct number of batches is non-integral for the given phi and omicron. phi = 3; omicron = 11; min = 0; max = 10; expected len: 110/6; actual len: 12"
    );
}

#[test]
fn audit_messages_name_the_failing_batch() {
    let lines: [[u32; 3]; 12] = [
        [0, 1, 2], [3, 4, 5], [6, 7, 8],
        [0, 3, 6], [1, 4, 7], [2, 5, 8],
        [0, 4, 8], [1, 5, 6], [2, 3, 7],
        [0, 5, 7], [1, 3, 8], [2, 4, 6],
    ];
    let plane: Vec<BTreeSet<u32>> = lines.iter().map(|l| set_of(l)).collect();
    assert!(Batches::par_phi_2_collect(3, 0, plane.clone()).audit().is_ok());
    // a batch of two elements in place of {0, 4, 8}
    let mut short = plane.clone();
    short[6] = set_of(&[0, 4]);
    let err = Batches::par_phi_2_collect(3, 0, short).audit().unwrap_err();
    assert!(err.severe);
    assert_eq!(err.err, "Set is not size phi. set = {0, 4}; min = 0; max = 8; phi = 3; omicron = 9");
    // the elements start at 1, so every batch holding 0 is below the minimum
    let mut low = Batches::par_phi_2_collect(3, 0, plane.clone());
    low.min = 1;
    low.max = 9;
    let err = low.audit().unwrap_err();
    assert_eq!(err.err, "Set contains number below minimum value. set.min = 0; min = 1; max = 9; phi = 3; omicron = 9");
    // a batch reaching past the maximum
    let mut high = plane.clone();
    high[6] = set_of(&[0, 4, 9]);
    let err = Batches::par_phi_2_collect(3, 0, high).audit().unwrap_err();
    assert_eq!(
        err.err,
        "Set contains number above maximum value. set.max = 9; min = 0; max = 8; phi = 3; omicron = 9;  set = {0, 4, 9}"
    );
}

#[test]
fn older_steps_on_fresh_tables() {
    let mut a = OlderTriplesArray::new(3);
    assert_eq!(a.step(), Some(true));
    let mut b = OlderTriplesArray::new(4);
    assert_eq!(b.step(), Some(false));
    let mut c = OlderTriplesArray::new(7);
    assert_eq!(c.step(), None);
    assert_eq!(c.get(Some((3, 1))), Some(5));
    assert_eq!(c.get(Some((5, 3))), Some(1));
    assert_eq!(c.get(Some((5, 1))), Some(3));
    // on an even number of elements the older search never succeeds
    for n in [4usize, 6, 8, 10] {
        let mut t = OlderTriplesArray::new(n);
        loop {
            match t.step() {
                None => {},
                Some(ans) => {
                    assert!(!ans);
                    break;
                },
            }
        }
    }
}

#[test]
fn no_candidate_outside_the_table() {
    let t = OlderTriplesArray::new(5);
    assert_eq!(t.min_valid_value_at(Some((1, 3))), None);
    assert_eq!(t.min_valid_value_at(Some((5, 2))), None);
    let ragged = OlderTriplesArray { arr: vec![vec![Some(9)]], pointer: (0, 0) };
    assert_eq!(ragged.min_valid_value_at(None), None);
    assert_eq!(ragged.min_valid_value_at(Some((4, 1))), None);
}

#[test]
fn steps_on_fresh_tables() {
    let mut a = TriplesArray::new(3);
    assert_eq!(a.step(), Some(true));
    let mut b = TriplesArray::new(4);
    assert_eq!(b.step(), Some(false));
    let mut c = TriplesArray::new(7);
    assert_eq!(c.step(), None);
    assert_eq!(c.get(Some((3, 1))), Some(5));
    assert_eq!(c.get(Some((5, 3))), Some(1));
    assert_eq!(c.get(Some((5, 1))), Some(3));
    assert_eq!(c.pointer, (3, 1));
}

#[test]
fn audit_errors_as_text() {
    let severe = ValidationError { err: "Omicron is too small.".to_string(), severe: true };
    assert_eq!(severe.to_string(), "=== Severe Batch Generation Error ===\nOmicron is too small.");
    let mild = ValidationError { err: "Pair appears at least twice.".to_string(), severe: false };
    assert_eq!(mild.to_string(), "Pair appears at least twice.");
    let mut b = Batches::phi_2(3, 0).unwrap();
    b.phi = 4;
    assert_eq!(
        b.audit().unwrap_err().to_string(),
        "=== Severe Batch Generation Error ===\nphi is too large. phi = 4; omicron = 9"
    );
}

#[test]
fn a_pair_in_two_batches_is_not_severe() {
    let mut sets = Batches::par_phi_2_rows(3, 0);
    sets.extend(Batches::par_phi_2_columns(3, 0));
    for extra in [[0, 1, 3], [1, 4, 7], [2, 5, 8], [1, 6, 8], [2, 3, 6], [2, 4, 7]] {
        sets.push(set_of(&extra));
    }
    let b = Batches::par_phi_2_collect(3, 0, sets);
    assert_eq!(b.len(), 12);
    let err = b.audit().unwrap_err();
    assert!(!err.severe);
    assert!(err.err.starts_with("Pair appears at least twice. pair = ("));
    assert!(err.err.ends_with("); min = 0; max = 8; phi = 3; omicron = 9"));
}

#[test]
fn shifting_back_restores_the_batches() {
    let b = Batches::phi_2(3, 0).unwrap();
    let up = b.shift(100);
    assert_eq!((up.min, up.max), (100, 108));
    assert!(up.audit().is_ok());
    let back = up.shift(-100);
    assert_eq!((back.min, back.max), (0, 8));
    assert_eq!(back.to_string(), b.to_string());
    assert_eq!(b.shift(0).to_string(), b.to_string());
}

#[test]
fn product_with_a_plane_counts() {
    let b = Batches::phi_2(3, 0).unwrap();
    let p = b.phi_x_omicron();
    assert_eq!(p.omicron, 27);
    assert_eq!(p.len(), 3 * 12 + 81);
    assert!(p.audit().is_ok());
}

#[test]
fn triple_table_becomes_batches() {
    let mut t = TriplesArray::new(7);
    assert!(t.check(false));
    let b = Batches::from(t);
    assert_eq!(b.len(), 7);
    assert!(b.audit().is_ok());
}

#[test]
fn removing_a_triple_undoes_setting_it() {
    let mut t = TriplesArray::new(9);
    let before = t.arr.clone();
    t.set_triple((8, 3, 5));
    assert_eq!(t.get(Some((8, 5))), Some(3));
    assert_eq!(t.get_triple(Some((5, 3))), Some((8, 5, 3)));
    assert!(t.is_first_in_triple(Some((5, 3))));
    t.remove_triple((5, 8, 3));
    assert_eq!(t.arr, before);
}

#[test]
fn table_text_of_a_fresh_search() {
    let t = TriplesArray::new(3);
    assert_eq!(t.to_table(), "0:  \n1:  2\n2:  1, 0\n....0..1");
    let older = OlderTriplesArray::new(3);
    assert_eq!(older.to_table(), "0:  \n1:  2\n2:  1, 0\n....0..1");
    let blank = TriplesArray { arr: vec![vec![], vec![None], vec![None, None]], pointer: (0, 0), mem: vec![] };
    assert_eq!(blank.to_table(), "[[\n [_\n [_, _]]");
    let empty = TriplesArray { arr: vec![], pointer: (0, 0), mem: vec![] };
    assert_eq!(empty.to_table(), "[]");
}

#[test]
fn wide_table_text() {
    let mut t = TriplesArray::new(13);
    assert!(t.check(false));
    let text = t.to_table();
    let lines: Vec<&str> = text.lines().collect();
    assert_eq!(lines.len(), 14);
    assert!(lines[0].starts_with(" 0:  "));
    assert!(lines[12].starts_with("12:  "));
    assert_eq!(lines[13], "......0...1...2...3...4...5...6...7...8...9..10..11");
}

#[test]
fn table_text_reads_back() {
    let mut t = TriplesArray::new(13);
    assert!(t.check(false));
    let read = TriplesArray::from_string(&t.to_table());
    assert_eq!(read.arr, t.arr);
    assert_eq!(read.pointer, (3, 1));
    assert!(read.mem.is_empty());
    let small = TriplesArray::from_string("0:  \n1:  2\n2:  1,  _\n....0..1");
    assert_eq!(small.arr, vec![vec![], vec![Some(2)], vec![Some(1), None]]);
}

#[test]
fn triples_listed_as_sets() {
    let t = TriplesArray::new(3);
    assert_eq!(t.to_subsets(0), "{2, 1, 0}\n");
    assert_eq!(t.to_subsets(1), "{3, 2, 1}\n");
    assert_eq!(t.triple_set(Some((1, 0)), 5), "{7, 6, 5}");
    let u = TriplesArray::new(4);
    assert_eq!(u.to_subsets(0), "{2, 1, 0}\nUndefined\nUndefined\nUndefined\n");
}

#[test]
fn terse_debug_text() {
    assert_eq!(
        OlderTriplesArray::reformat("[[], [None], [Some(1), None]]".to_string()),
        "[[\n [_\n [1, _]]"
    );
}

#[test]
fn older_tests_on_triples() {
    assert_eq!(OlderTriplesArray::test_quick(7), Ok(true));
    assert_eq!(OlderTriplesArray::test_quick(9), Ok(true));
    assert_eq!(OlderTriplesArray::test_quick(8), Ok(false));
    assert_eq!(OlderBatches::test_quick(7, 3), Ok(true));
    assert_eq!(OlderBatches::test_medium(13, 3), Ok(true));
    assert_eq!(OlderBatches::test_medium(11, 3), Ok(false));
}

#[test]
fn plane_parts_for_workers() {
    let rows = Batches::par_phi_2_rows(3, 0);
    assert_eq!(rows.len(), 4);
    assert_eq!(rows[0], set_of(&[0, 1, 2]));
    assert_eq!(rows[2], set_of(&[0, 5, 6]));
    let cols = Batches::par_phi_2_columns(3, 0);
    assert_eq!(cols, vec![set_of(&[3, 5, 7]), set_of(&[4, 6, 8])]);
    let climbs = Batches::par_phi_2_climbs(3, 0);
    assert_eq!(climbs, vec![set_of(&[1, 3, 6]), set_of(&[1, 4, 5])]);
    let mut all = rows;
    all.extend(climbs);
    all.extend(cols);
    let b = Batches::par_phi_2_collect(3, 0, all);
    assert_eq!(b.len(), 8);
    assert_eq!((b.omicron, b.phi, b.min, b.max), (9, 3, 0, 8));
}
