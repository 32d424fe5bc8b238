use braincore::brain::{Brain, MEMORY_SIZE, HIDDEN};
use braincore::codec::{encode, decode, BrainInput, BrainOutput, BrainError, WIDTH};
use braincore::fixed::{sat_add, fx_mul, relu, SCALE, BOUND, NEG_BOUND};
use braincore::layer::{Layer, forward, affine, concat_n, split, sequential, side_by_side,
    recurrent};
use braincore::rng::{rng_from_seed, gen_unit, draw_noise};
use braincore::softmax::{softmax, fx_exp};

fn one_hot(i: usize) -> Vec<i64> {
    let mut v = vec![0i64; WIDTH];
    v[i] = SCALE;
    v
}

#[test]
fn round_trip_characters() {
    for c in ['a', 'z', 'A', '0', ' ', '\n', '\u{0}', '\u{ff}'] {
        let v = encode(BrainInput::ChatCharacter(c)).unwrap();
        assert_eq!(decode(&v), BrainOutput::ChatCharacter(c));
    }
}

#[test]
fn tick_maps_to_nothing() {
    let v = encode(BrainInput::TimeTick).unwrap();
    assert_eq!(v.len(), WIDTH);
    assert_eq!(v[256], SCALE);
    assert_eq!(decode(&v), BrainOutput::Nothing);
}

#[test]
fn encode_places_one_hot() {
    let v = encode(BrainInput::ChatCharacter('a')).unwrap();
    assert_eq!(v.len(), WIDTH);
    for (i, x) in v.iter().enumerate() {
        if i == 'a' as usize {
            assert_eq!(*x, SCALE);
        } else {
            assert_eq!(*x, 0);
        }
    }
}

#[test]
fn encode_rejects_wide_character() {
    assert_eq!(
        encode(BrainInput::ChatCharacter('\u{20ac}')),
        Err(BrainError::UnencodableCharacter)
    );
    assert_eq!(
        encode(BrainInput::ChatCharacter('\u{100}')),
        Err(BrainError::UnencodableCharacter)
    );
}

#[test]
fn decode_breaks_ties_by_first_index() {
    let mut v = vec![0i64; WIDTH];
    v[5] = 7;
    v[9] = 7;
    assert_eq!(decode(&v), BrainOutput::ChatCharacter(5u8 as char));
    let flat = vec![3i64; WIDTH];
    assert_eq!(decode(&flat), BrainOutput::ChatCharacter(0u8 as char));
}

#[test]
fn fixed_point_operations() {
    assert_eq!(sat_add(1, 2), 3);
    assert_eq!(sat_add(BOUND, BOUND), BOUND);
    assert_eq!(sat_add(NEG_BOUND, NEG_BOUND), NEG_BOUND);
    assert_eq!(fx_mul(SCALE, SCALE), SCALE);
    assert_eq!(fx_mul(-SCALE, SCALE), -SCALE);
    assert_eq!(fx_mul(SCALE / 2, SCALE / 2), SCALE / 4);
    assert_eq!(fx_mul(BOUND, BOUND), BOUND);
    assert_eq!(relu(-5), 0);
    assert_eq!(relu(11), 11);
}

#[test]
fn exponential_exact_values() {
    assert_eq!(fx_exp(0), SCALE);
    assert_eq!(fx_exp(SCALE), 2 * SCALE);
    assert_eq!(fx_exp(-SCALE), SCALE / 2);
    assert_eq!(fx_exp(SCALE / 2), SCALE + SCALE / 2);
}

#[test]
fn softmax_is_a_distribution() {
    let v = vec![0i64, SCALE, -SCALE, 3 * SCALE, 12345];
    let d = softmax(&v);
    assert_eq!(d.len(), v.len());
    let mut total: i64 = 0;
    for x in d.iter() {
        assert!(*x >= 0);
        assert!(*x <= SCALE);
        total += *x;
    }
    assert!(total <= SCALE);
    assert!(total >= SCALE - v.len() as i64);
}

#[test]
fn softmax_of_equal_entries_is_uniform() {
    let v = vec![SCALE; 4];
    let d = softmax(&v);
    for x in d.iter() {
        assert_eq!(*x, SCALE / 4);
    }
}

#[test]
fn rectify_forward() {
    let l = Layer::Rectify { size: 4 };
    let (_, outs) = forward(l, vec![vec![-SCALE, 0, 5, SCALE]], Vec::new());
    assert_eq!(outs, vec![vec![0, 0, 5, SCALE]]);
}

#[test]
fn concat_forward() {
    let l = concat_n(2, 2).unwrap();
    let (_, outs) = forward(l, vec![vec![1, 2], vec![3, 4]], Vec::new());
    assert_eq!(outs, vec![vec![1, 2, 3, 4]]);
}

#[test]
fn split_forward() {
    let l = split(5, 2).unwrap();
    let (_, outs) = forward(l, vec![vec![1, 2, 3, 4, 5]], Vec::new());
    assert_eq!(outs, vec![vec![1, 2], vec![3, 4, 5]]);
}

#[test]
fn affine_forward_identity_row() {
    // One row: weight one unit on the single input, zero bias.
    let l = affine(1, vec![vec![SCALE, 0]]).unwrap();
    let (l, outs) = forward(l, vec![vec![12345]], Vec::new());
    assert_eq!(outs, vec![vec![12345]]);
    // Bias only: the appended unit times the bias weight.
    let (_, outs2) = forward(l, vec![vec![0]], Vec::new());
    assert_eq!(outs2, vec![vec![0]]);
    let lb = affine(1, vec![vec![0, 777]]).unwrap();
    let (_, outs3) = forward(lb, vec![vec![12345]], Vec::new());
    assert_eq!(outs3, vec![vec![777]]);
}

#[test]
fn deterministic_layers_repeat_exactly() {
    let l = sequential(
        affine(2, vec![vec![SCALE, -SCALE, 3], vec![SCALE / 2, SCALE, -9]]).unwrap(),
        Layer::Rectify { size: 2 },
    )
    .unwrap();
    let ins = vec![vec![SCALE, -SCALE / 4]];
    let (l2, out1) = forward(l, ins.clone(), Vec::new());
    let (_, out2) = forward(l2, ins, Vec::new());
    assert_eq!(out1, out2);
}

#[test]
fn mismatched_composition_is_rejected() {
    assert_eq!(
        sequential(Layer::Rectify { size: 3 }, Layer::Rectify { size: 4 }).err(),
        Some(BrainError::ShapeMismatch)
    );
    assert_eq!(split(3, 5).err(), Some(BrainError::ShapeMismatch));
    assert_eq!(concat_n(0, 4).err(), Some(BrainError::ShapeMismatch));
    // Ragged weights: the second row lacks the bias column.
    assert_eq!(
        affine(2, vec![vec![1, 2, 3], vec![1, 2]]).err(),
        Some(BrainError::ShapeMismatch)
    );
    // A split has two outputs, so it cannot stand beside a single-output
    // layer.
    let two_out = split(4, 2).unwrap();
    assert_eq!(
        side_by_side(two_out, Layer::Rectify { size: 3 }).err(),
        Some(BrainError::ShapeMismatch)
    );
    // The memory cannot be wider than the inner layer's vectors.
    assert_eq!(
        recurrent(Layer::Rectify { size: 3 }, 5).err(),
        Some(BrainError::ShapeMismatch)
    );
}

#[test]
fn concat_of_mismatched_lengths_is_rejected_at_composition() {
    // Feeding a concatenation from a split whose halves differ in length
    // must fail when the graph is built, before any step runs.
    let halves = split(7, 3).unwrap();
    let joiner = concat_n(2, 3).unwrap();
    assert_eq!(sequential(halves, joiner).err(), Some(BrainError::ShapeMismatch));
    // The same concatenation composes once the halves match.
    let even = split(6, 3).unwrap();
    let joiner = concat_n(2, 3).unwrap();
    assert!(sequential(even, joiner).is_ok());
}

#[test]
fn memory_depends_only_on_history() {
    let mut b1 = Brain::new(42);
    let mut b2 = Brain::new(42);
    let o1 = b1.input(BrainInput::ChatCharacter('a')).unwrap();
    let o2 = b2.input(BrainInput::ChatCharacter('a')).unwrap();
    assert_eq!(o1, o2);
    assert_eq!(b1.memory(), b2.memory());
    // Later inputs differ; the state after the shared first step did not.
    let _ = b1.input(BrainInput::ChatCharacter('b')).unwrap();
    let _ = b2.input(BrainInput::ChatCharacter('c')).unwrap();
}

#[test]
fn end_to_end_scenario() {
    let mut b = Brain::new(7);
    let out = b.input(BrainInput::ChatCharacter('a')).unwrap();
    match out {
        BrainOutput::ChatCharacter(_) => {},
        BrainOutput::Nothing => {},
    }
    let mem = b.memory();
    assert_eq!(mem.len(), MEMORY_SIZE);
    for x in mem.iter() {
        assert!(*x >= 0);
    }
    assert_eq!(b.input_log.len(), 1);
    assert_eq!(b.output_log.len(), 1);
    assert_eq!(b.input_log[0].len(), WIDTH);
    assert_eq!(b.output_log[0].len(), WIDTH);
    let _ = b.input(BrainInput::TimeTick).unwrap();
    assert_eq!(b.input_log.len(), 2);
    assert_eq!(b.output_log.len(), 2);
}

#[test]
fn brain_rejects_wide_character_without_stepping() {
    let mut b = Brain::new(3);
    let before = b.memory();
    assert_eq!(
        b.input(BrainInput::ChatCharacter('\u{20ac}')),
        Err(BrainError::UnencodableCharacter)
    );
    assert_eq!(b.memory(), before);
    assert_eq!(b.input_log.len(), 0);
}

#[test]
fn feedback_fails_loudly() {
    let mut b = Brain::new(1);
    assert_eq!(b.feedback(SCALE), Err(BrainError::Unimplemented));
}

#[test]
fn noise_samples_stay_in_unit_range() {
    let mut rng = rng_from_seed(9);
    for _ in 0..1000 {
        let x = gen_unit(&mut rng);
        assert!(x >= -SCALE);
        assert!(x < SCALE);
    }
    let v = draw_noise(&mut rng, 64);
    assert_eq!(v.len(), 64);
    for x in v.iter() {
        assert!(*x >= -SCALE && *x < SCALE);
    }
}

#[test]
fn seeded_generator_is_reproducible() {
    let mut r1 = rng_from_seed(123);
    let mut r2 = rng_from_seed(123);
    assert_eq!(draw_noise(&mut r1, 32), draw_noise(&mut r2, 32));
}

#[test]
fn pass_through_and_noise_in_graph() {
    // The one-hot event survives a pass-through beside a noise source: the
    // first WIDTH entries of the concatenation are the event vector.
    let l = side_by_side(Layer::PassThrough { size: 3 }, Layer::RandomNoise { size: 2 })
        .unwrap();
    let (_, outs) = forward(l, vec![vec![7, 8, 9]], vec![-3, 4]);
    assert_eq!(outs, vec![vec![7, 8, 9, -3, 4]]);
}

#[test]
fn recurrent_memory_updates_to_rectified_tail() {
    // Identity affine on the two inputs (value and memory), so the output
    // tail equals the memory input plus the value; the new memory is its
    // rectified value.
    let rows = vec![vec![SCALE, 0, 0], vec![0, SCALE, 0]];
    let inner = affine(2, rows).unwrap();
    let l = recurrent(inner, 1).unwrap();
    let (l2, outs) = forward(l, vec![vec![-5]], Vec::new());
    // Memory starts at zero: external output is the value, memory becomes
    // relu(0) = 0.
    assert_eq!(outs, vec![vec![-5]]);
    match &l2 {
        Layer::Recurrent { memory, .. } => assert_eq!(memory, &vec![0i64]),
        _ => panic!("root is recurrent"),
    }
    let one = one_hot(0);
    assert_eq!(one.len(), WIDTH);
}

fn affine_weights_of(b: &Brain) -> Vec<Vec<i64>> {
    match &b.root {
        Layer::Recurrent { inner, .. } => match &**inner {
            Layer::Sequential { below, .. } => match &**below {
                Layer::Sequential { above: a2, .. } => match &**a2 {
                    Layer::Affine { weights, .. } => weights.clone(),
                    _ => panic!("affine stage"),
                },
                _ => panic!("dense stage"),
            },
            _ => panic!("pipeline"),
        },
        _ => panic!("recurrent root"),
    }
}

#[test]
fn fixed_topology_is_built() {
    let b = Brain::new(5);
    match &b.root {
        Layer::Recurrent { inner, msize, memory } => {
            assert_eq!(*msize, MEMORY_SIZE);
            assert_eq!(memory, &vec![0i64; MEMORY_SIZE]);
            match &**inner {
                Layer::Sequential { above, below } => {
                    match &**above {
                        Layer::SideBySide { left, right } => {
                            assert!(matches!(&**left,
                                Layer::PassThrough { size } if *size == HIDDEN));
                            assert!(matches!(&**right,
                                Layer::RandomNoise { size } if *size == MEMORY_SIZE));
                        }
                        _ => panic!("entry stage"),
                    }
                    match &**below {
                        Layer::Sequential { above: a2, below: b2 } => {
                            match &**a2 {
                                Layer::Affine { in_len, weights } => {
                                    assert_eq!(*in_len, HIDDEN + MEMORY_SIZE);
                                    assert_eq!(weights.len(), HIDDEN);
                                    for row in weights.iter() {
                                        assert_eq!(row.len(), HIDDEN + MEMORY_SIZE + 1);
                                        for w in row.iter() {
                                            assert!(*w >= -SCALE && *w < SCALE);
                                        }
                                    }
                                }
                                _ => panic!("affine stage"),
                            }
                            assert!(matches!(&**b2,
                                Layer::Rectify { size } if *size == HIDDEN));
                        }
                        _ => panic!("dense stage"),
                    }
                }
                _ => panic!("pipeline"),
            }
        }
        _ => panic!("recurrent root"),
    }
}

#[test]
fn weights_are_sampled_once_and_fixed() {
    let mut b = Brain::new(11);
    let before = affine_weights_of(&b);
    let _ = b.input(BrainInput::ChatCharacter('a')).unwrap();
    let _ = b.input(BrainInput::TimeTick).unwrap();
    assert_eq!(affine_weights_of(&b), before);
}
