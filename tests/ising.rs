use ising::{accepts_unconditionally, parse_block, render_block, validate_run, IsingError, IsingModel, Lattice};
use rand::Rng;

/// One run of the sampler: the CSV block after every iteration.
fn run(seed: u8, size: usize, j: f64, beta: f64, iterations: usize) -> Vec<Vec<u8>> {
    let mut model = IsingModel::new(vec![size, size], seed).unwrap();
    model.init(|p| if p { 1 } else { -1 });
    let sign: i8 = if j > 0.0 {
        1
    } else if j < 0.0 {
        -1
    } else {
        0
    };
    let mut blocks = Vec::new();
    for _ in 0..iterations {
        let point = model.propose();
        let units = model.flip_delta(point);
        let accepted = accepts_unconditionally(units, sign) || {
            let p: f64 = model.rng.gen();
            p < (-beta * j * units as f64).exp()
        };
        model.commit(point, accepted);
        blocks.push(model.lattice_ref().to_csv());
    }
    blocks
}

fn filled(rows: usize, cols: usize, v: i8) -> Lattice {
    let mut l = Lattice::new(vec![rows, cols]).unwrap();
    for y in 0..rows {
        for x in 0..cols {
            l.set(y, x, v).unwrap();
        }
    }
    l
}

#[test]
fn assign_map_sets_each_site() {
    let mut model = IsingModel::new(vec![3, 4], 0).unwrap();
    model.assign_map(|(y, x)| if (y + x) % 2 == 0 { 1 } else { -1 });
    let l = model.lattice_ref();
    for y in 0..3 {
        for x in 0..4 {
            assert_eq!(l.get(y, x).unwrap(), if (y + x) % 2 == 0 { 1 } else { -1 });
        }
    }
    assert_eq!(l.calc_global_energy(), 17);
}

#[test]
fn test_ising_model() {
    let dim: usize = 2;
    let lattice_size: usize = 100;
    let seed_value: u8 = 0;
    let j: f64 = 1.0;
    let mut shape: Vec<usize> = Vec::with_capacity(dim);
    for _i in 0..dim {
        shape.push(lattice_size);
    }
    let mut model = IsingModel::new(shape, seed_value).unwrap();
    let f = |val| {
        if val {
            return 1;
        } else {
            return -1;
        }
    };
    model.init(f);
    println!("{:?}", String::from_utf8(model.lattice_ref().to_csv()).unwrap());
    let energy: f64 = j * model.calc_local_energy((0, 0)) as f64;
    assert!(energy == -2.0 || energy == 0.0 || energy == 2.0);
}

#[test]
fn new_lattice_is_zero_filled() {
    let l = Lattice::new(vec![3, 4]).unwrap();
    assert_eq!(l.rows(), 3);
    assert_eq!(l.cols(), 4);
    for y in 0..3 {
        for x in 0..4 {
            assert_eq!(l.get(y, x), Ok(0));
        }
    }
}

#[test]
fn invalid_shapes_are_refused() {
    assert_eq!(Lattice::new(vec![0, 4]).err(), Some(IsingError::InvalidShape));
    assert_eq!(Lattice::new(vec![4, 0]).err(), Some(IsingError::InvalidShape));
    assert_eq!(Lattice::new(vec![4]).err(), Some(IsingError::InvalidShape));
    assert_eq!(Lattice::new(vec![2, 2, 2]).err(), Some(IsingError::InvalidShape));
    assert_eq!(Lattice::new(vec![usize::MAX, 2]).err(), Some(IsingError::InvalidShape));
    assert!(IsingModel::new(vec![0, 3], 0).is_err());
}

#[test]
fn out_of_bounds_access_is_refused() {
    let mut l = Lattice::new(vec![2, 3]).unwrap();
    assert_eq!(l.get(2, 0), Err(IsingError::IndexOutOfBounds));
    assert_eq!(l.get(0, 3), Err(IsingError::IndexOutOfBounds));
    assert_eq!(l.set(2, 0, 1), Err(IsingError::IndexOutOfBounds));
    assert_eq!(l.set(1, 2, -1), Ok(()));
    assert_eq!(l.get(1, 2), Ok(-1));
    assert_eq!(l.get(0, 0), Ok(0));
}

#[test]
fn boundary_neighbor_counts() {
    let l = Lattice::new(vec![4, 4]).unwrap();
    let corner = l.neighbors((0, 0));
    assert_eq!(corner.len(), 2);
    assert!(corner.contains(&(0, 1)) && corner.contains(&(1, 0)));
    assert_eq!(l.neighbors((0, 2)).len(), 3);
    assert_eq!(l.neighbors((1, 1)), vec![(1, 0), (2, 1), (1, 2), (0, 1)]);
    assert_eq!(l.neighbors((3, 3)), vec![(3, 2), (2, 3)]);
    assert!(l.satisfy_boundary_cond((3, 3)));
    assert!(!l.satisfy_boundary_cond((-1, 0)));
    assert!(!l.satisfy_boundary_cond((0, 4)));
}

#[test]
fn local_energy_two_by_two() {
    let mut l = filled(2, 2, 1);
    assert_eq!(l.calc_local_energy((0, 0)), -2);
    assert_eq!(l.flip_delta((0, 0)), 4);
    l.flip((0, 0));
    assert_eq!(l.get(0, 0), Ok(-1));
    assert_eq!(l.calc_local_energy((0, 0)), 2);
    let j: f64 = 1.0;
    assert_eq!(j * l.calc_local_energy((0, 0)) as f64, 2.0);
}

#[test]
fn local_energy_interior_mixed() {
    let mut l = filled(3, 3, 1);
    l.set(0, 1, -1).unwrap();
    l.set(1, 0, -1).unwrap();
    assert_eq!(l.calc_local_energy((1, 1)), 0);
    assert_eq!(l.calc_local_energy((0, 0)), 2);
    l.set(1, 1, 3).unwrap();
    assert_eq!(l.calc_local_energy((1, 1)), 0);
    assert_eq!(l.calc_local_energy((2, 1)), -5);
}

#[test]
fn global_energy_is_half_the_local_sum() {
    let l = filled(2, 2, 1);
    assert_eq!(l.calc_global_energy(), -4);
    let mut m = filled(3, 4, 1);
    m.set(1, 1, -1).unwrap();
    m.set(2, 3, -1).unwrap();
    let mut sum: i128 = 0;
    for y in 0..3 {
        for x in 0..4 {
            sum += m.calc_local_energy((y, x)) as i128;
        }
    }
    assert_eq!(2 * m.calc_global_energy(), sum);
    assert_eq!(m.calc_global_energy(), -17 + 8 + 4);
    assert_eq!(Lattice::new(vec![5, 5]).unwrap().calc_global_energy(), 0);
}

#[test]
fn csv_block_format() {
    let mut l = Lattice::new(vec![2, 3]).unwrap();
    l.set(0, 0, 1).unwrap();
    l.set(0, 1, -1).unwrap();
    l.set(1, 2, -127).unwrap();
    l.set(1, 0, 42).unwrap();
    assert_eq!(String::from_utf8(l.to_csv()).unwrap(), "1,-1,0,\n42,0,-127,\n");
}

#[test]
fn init_draws_both_spins_only() {
    let mut model = IsingModel::new(vec![20, 20], 7).unwrap();
    model.init(|p| if p { 1 } else { -1 });
    let l = model.lattice_ref();
    let mut ups = 0;
    for y in 0..20 {
        for x in 0..20 {
            let v = l.get(y, x).unwrap();
            assert!(v == 1 || v == -1);
            if v == 1 {
                ups += 1;
            }
        }
    }
    assert!(ups > 100 && ups < 300);
}

#[test]
fn proposals_stay_on_the_lattice() {
    let mut model = IsingModel::new(vec![3, 5], 1).unwrap();
    let mut seen_last_col = false;
    for _ in 0..200 {
        let (y, x) = model.propose();
        assert!(y < 3 && x < 5);
        seen_last_col |= x == 4;
    }
    assert!(seen_last_col);
}

#[test]
fn commit_flips_only_when_accepted() {
    let mut model = IsingModel::new(vec![2, 2], 0).unwrap();
    model.init(|p| if p { 1 } else { -1 });
    let before = model.lattice_ref().get(1, 0).unwrap();
    model.commit((1, 0), false);
    assert_eq!(model.lattice_ref().get(1, 0).unwrap(), before);
    model.commit((1, 0), true);
    assert_eq!(model.lattice_ref().get(1, 0).unwrap(), -before);
}

#[test]
fn zero_change_is_always_accepted() {
    for sign in [-1i8, 0, 1] {
        assert!(accepts_unconditionally(0, sign));
    }
    assert!(accepts_unconditionally(-4, 1));
    assert!(!accepts_unconditionally(4, 1));
    assert!(accepts_unconditionally(4, -1));
    assert!(!accepts_unconditionally(-8, -1));
    assert!(accepts_unconditionally(8, 0));
}

#[test]
fn acceptance_probability_limits() {
    let trials = 2000;
    let mut model = IsingModel::new(vec![2, 2], 3).unwrap();
    let mut hot = 0;
    let mut cold = 0;
    for _ in 0..trials {
        let p: f64 = model.rng.gen();
        if p < (-1e-6f64 * 8.0).exp() {
            hot += 1;
        }
        let q: f64 = model.rng.gen();
        if q < (-50.0f64 * 8.0).exp() {
            cold += 1;
        }
    }
    assert!(hot >= trials - 5);
    assert_eq!(cold, 0);
}

#[test]
fn same_seed_same_trajectory() {
    let a = run(5, 6, 1.0, 0.5, 200);
    let b = run(5, 6, 1.0, 0.5, 200);
    assert_eq!(a, b);
    let mut m1 = IsingModel::new(vec![8, 8], 9).unwrap();
    let mut m2 = IsingModel::new(vec![8, 8], 9).unwrap();
    for _ in 0..50 {
        assert_eq!(m1.propose(), m2.propose());
    }
}

#[test]
fn end_to_end_trajectory() {
    let blocks = run(0, 10, 1.0, 0.5, 100);
    let text: String = blocks.iter().map(|b| String::from_utf8(b.clone()).unwrap()).collect();
    let lines: Vec<&str> = text.lines().collect();
    assert_eq!(lines.len(), 100 * 10);
    for line in &lines {
        assert!(line.ends_with(','));
        let values: Vec<&str> = line.split(',').filter(|t| !t.is_empty()).collect();
        assert_eq!(values.len(), 10);
        assert!(values.iter().all(|v| *v == "1" || *v == "-1"));
    }
    let again: String = run(0, 10, 1.0, 0.5, 100)
        .iter()
        .map(|b| String::from_utf8(b.clone()).unwrap())
        .collect();
    assert_eq!(text, again);
}

#[test]
fn first_block_reads_back() {
    let mut model = IsingModel::new(vec![10, 10], 0).unwrap();
    model.init(|p| if p { 1 } else { -1 });
    let point = model.propose();
    model.commit(point, accepts_unconditionally(model.flip_delta(point), 1));
    let snapshot: Vec<Vec<i8>> = (0..10)
        .map(|y| (0..10).map(|x| model.lattice_ref().get(y, x).unwrap()).collect())
        .collect();
    let first = model.lattice_ref().snapshot();
    assert_eq!(
        first,
        snapshot.iter().flatten().copied().collect::<Vec<i8>>()
    );
    let mut file = model.lattice_ref().to_csv();
    let point = model.propose();
    model.commit(point, true);
    file.extend_from_slice(&model.lattice_ref().to_csv());
    assert_eq!(parse_block(&file, 10, 10), Some(first));
}

#[test]
fn parse_block_reads_rendered_text() {
    let cells: Vec<i8> = vec![1, -1, 0, 42, -127, 100, 7, -9, 10, -128, 127, 5];
    let text = render_block(&cells, 3, 4);
    assert_eq!(String::from_utf8(text.clone()).unwrap(), "1,-1,0,42,\n-127,100,7,-9,\n10,-128,127,5,\n");
    assert_eq!(parse_block(&text, 3, 4), Some(cells));
}

#[test]
fn parse_block_refuses_malformed_text() {
    let bad: Vec<&str> = vec![
        "1,-1,\n1,1\n",
        "1,-1,\n",
        "01,1,\n1,1,\n",
        "-0,1,\n1,1,\n",
        "+1,1,\n1,1,\n",
        "1,1,1,\n1,1,\n",
        "1,1,\n1,1,",
        "200,1,\n1,1,\n",
        "",
    ];
    for text in bad {
        assert_eq!(parse_block(&text.as_bytes().to_vec(), 2, 2), None, "{:?}", text);
    }
    assert_eq!(parse_block(&b"1,-1,\n-1,1,\ntrailing".to_vec(), 2, 2), Some(vec![1, -1, -1, 1]));
}

#[test]
fn configuration_is_checked() {
    assert_eq!(validate_run(10, 100), Ok(()));
    assert_eq!(validate_run(0, 100), Err(IsingError::InvalidConfiguration));
    assert_eq!(validate_run(10, 0), Err(IsingError::InvalidConfiguration));
}

#[test]
fn assign_map_leaves_stream_untouched() {
    let mut a = IsingModel::new(vec![4, 6], 11).unwrap();
    let mut b = IsingModel::new(vec![4, 6], 11).unwrap();
    a.assign_map(|(y, x)| if y == x { -1 } else { 1 });
    for _ in 0..20 {
        assert_eq!(a.propose(), b.propose());
    }
}

#[test]
fn init_and_proposals_follow_the_seed() {
    let mut a = IsingModel::new(vec![5, 7], 2).unwrap();
    let mut b = IsingModel::new(vec![5, 7], 2).unwrap();
    a.init(|p| if p { 1 } else { -1 });
    b.init(|p| if p { 1 } else { -1 });
    assert_eq!(a.lattice_ref().snapshot(), b.lattice_ref().snapshot());
    for _ in 0..20 {
        assert_eq!(a.propose(), b.propose());
    }
    let mut c = IsingModel::new(vec![5, 7], 3).unwrap();
    c.init(|p| if p { 1 } else { -1 });
    assert_ne!(a.lattice_ref().snapshot(), c.lattice_ref().snapshot());
}

#[test]
fn first_block_reads_back_into_a_lattice() {
    let mut model = IsingModel::new(vec![6, 5], 4).unwrap();
    model.init(|p| if p { 1 } else { -1 });
    let point = model.propose();
    model.commit(point, true);
    let snapshot = model.lattice_ref().snapshot();
    let mut file = model.lattice_ref().to_csv();
    model.commit(point, true);
    file.extend_from_slice(&model.lattice_ref().to_csv());
    let back = Lattice::from_csv(&file, 6, 5).unwrap();
    assert_eq!(back.rows(), 6);
    assert_eq!(back.cols(), 5);
    assert_eq!(back.snapshot(), snapshot);
    assert!(Lattice::from_csv(&file, 0, 5).is_none());
    assert!(Lattice::from_csv(&b"-128,\n".to_vec(), 1, 1).is_none());
    assert!(Lattice::from_csv(&b"1,2,\n".to_vec(), 1, 3).is_none());
}
