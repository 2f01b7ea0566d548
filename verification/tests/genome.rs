use psychedelic::genome::{
    layer_count_after, constant_slot, growth_for_draw, leaf_for_draw, Growth, frequency_slot, give_distinct_symmetries, lobe_slot, mutated_layer_count,
    phase_slot, random_layer_count, Expr, MAX_LAYERS, MAX_SYMMETRY, PARAM_COUNT,
};
use psychedelic::msl::emit;
use psychedelic::random::seeded_rng;

fn msl_uses_low_parameter(field: &Expr) -> bool {
    let source = emit(field);
    (0..8).any(|slot| source.contains(&format!("p[{slot}]")))
}

#[test]
fn slot_pickers_stay_inside_their_ranges() {
    let mut rng = seeded_rng(11);
    for _ in 0..50 {
        assert!(frequency_slot(&mut rng) < 8);
        assert!((16..PARAM_COUNT).contains(&phase_slot(&mut rng)));
    }
}

#[test]
fn node_count_covers_every_node_in_the_tree() {
    let tree = Expr::Add(
        Box::new(Expr::Sin(Box::new(Expr::X))),
        Box::new(Expr::Param(3)),
    );
    assert_eq!(tree.node_count(), 4);
}

#[test]
fn every_node_is_reachable_by_index() {
    let mut rng = seeded_rng(3);
    let mut tree = Expr::random_field(&mut rng);
    let count = tree.node_count();
    for index in 0..count {
        assert!(tree.subtree_at_mut(index).is_some(), "node {index} missing");
    }
    assert!(tree.subtree_at_mut(count).is_none());
}

#[test]
fn a_random_field_uses_at_least_one_frequency_parameter() {
    let mut rng = seeded_rng(5);
    let field = Expr::random_field(&mut rng);
    assert!(msl_uses_low_parameter(&field));
}

#[test]
fn every_term_measured_from_a_mover_fades_out_before_the_wrap_distance() {
    let mut rng = seeded_rng(137);
    for _ in 0..40 {
        let wave = Expr::random_mover_wave(&mut rng);
        let emitted = emit(&wave);
        assert!(
            emitted.contains("moverDistance"),
            "no mover term: {emitted}"
        );
        assert!(
            emitted.contains("moverWindow"),
            "unwindowed mover term: {emitted}"
        );
    }
}

#[test]
fn some_field_terms_are_tied_to_a_mover() {
    let mut rng = seeded_rng(113);
    let uses_mover = (0..40).any(|_| emit(&Expr::random_field(&mut rng)).contains("moverDistance"));
    assert!(uses_mover);
}

#[test]
fn writing_through_a_found_node_changes_that_node_only() {
    let mut tree = Expr::Add(
        Box::new(Expr::Sin(Box::new(Expr::X))),
        Box::new(Expr::Param(3)),
    );
    *tree.subtree_at_mut(2).expect("node 2") = Expr::Y;
    assert_eq!(
        tree,
        Expr::Add(
            Box::new(Expr::Sin(Box::new(Expr::Y))),
            Box::new(Expr::Param(3)),
        )
    );
    assert_eq!(tree.subtree_at_mut(3), Some(&mut Expr::Param(3)));
}

#[test]
fn preorder_visits_the_first_subtree_before_the_second() {
    let mut tree = Expr::Mul(
        Box::new(Expr::Add(Box::new(Expr::X), Box::new(Expr::Y))),
        Box::new(Expr::Neg(Box::new(Expr::Theta))),
    );
    let order: Vec<Expr> = (0..tree.node_count())
        .map(|index| tree.subtree_at_mut(index).expect("node").clone())
        .collect();
    assert_eq!(order[1], Expr::Add(Box::new(Expr::X), Box::new(Expr::Y)));
    assert_eq!(order[2], Expr::X);
    assert_eq!(order[3], Expr::Y);
    assert_eq!(order[4], Expr::Neg(Box::new(Expr::Theta)));
    assert_eq!(order[5], Expr::Theta);
}

#[test]
fn a_random_tree_grows_only_smooth_nodes_within_its_budget() {
    fn check(tree: &Expr, depth: u32) {
        match tree {
            Expr::X | Expr::Y | Expr::Radius | Expr::Theta | Expr::Time => {}
            Expr::Param(slot) => assert!((8..16).contains(slot)),
            Expr::Sin(a) | Expr::Cos(a) | Expr::Neg(a) => {
                assert!(depth > 0);
                check(a, depth - 1);
            }
            Expr::Add(a, b) | Expr::Mul(a, b) | Expr::Hypot(a, b) => {
                assert!(depth > 0);
                check(a, depth - 1);
                check(b, depth - 1);
            }
            other => panic!("unexpected node {other:?}"),
        }
    }
    let mut rng = seeded_rng(29);
    for depth in 0..5 {
        for _ in 0..20 {
            check(&Expr::random(&mut rng, depth), depth);
        }
    }
}

#[test]
fn a_wave_is_a_scaled_and_offset_oscillation() {
    let mut rng = seeded_rng(41);
    let mut sines = 0;
    for _ in 0..40 {
        let wave = Expr::random_wave(&mut rng, 2);
        let argument = match &wave {
            Expr::Sin(argument) => {
                sines += 1;
                argument
            }
            Expr::Cos(argument) => argument,
            other => panic!("not a wave: {other:?}"),
        };
        match argument.as_ref() {
            Expr::Add(scaled, phase) => {
                assert!(matches!(phase.as_ref(), Expr::Param(slot) if (16..24).contains(slot)));
                assert!(matches!(scaled.as_ref(), Expr::Mul(frequency, _)
                    if matches!(frequency.as_ref(), Expr::Param(slot) if *slot < 8)));
            }
            other => panic!("not a wave argument: {other:?}"),
        }
    }
    assert!(sines > 0 && sines < 40, "every wave was the same kind");
}

#[test]
fn a_mover_wave_measures_from_the_mover_it_is_windowed_by() {
    let mut rng = seeded_rng(43);
    for _ in 0..20 {
        match Expr::random_mover_wave(&mut rng) {
            Expr::Mul(window, rings) => {
                let Expr::MoverWindow(mover) = *window else {
                    panic!("no window first");
                };
                assert!(mover < 4);
                assert!(emit(&rings).contains(&format!("moverDistance{mover}")));
            }
            other => panic!("not a mover wave: {other:?}"),
        }
    }
}

#[test]
fn the_slot_pickers_spread_over_their_ranges() {
    let mut rng = seeded_rng(17);
    let frequencies: Vec<usize> = (0..50).map(|_| frequency_slot(&mut rng)).collect();
    assert!(frequencies.iter().any(|slot| *slot != frequencies[0]));
    for _ in 0..50 {
        assert!((8..16).contains(&constant_slot(&mut rng)));
        assert!((8..12).contains(&lobe_slot(&mut rng)));
    }
}

#[test]
fn a_seeded_generator_repeats_its_fields() {
    let first = Expr::random_field(&mut seeded_rng(42));
    let second = Expr::random_field(&mut seeded_rng(42));
    assert_eq!(first, second);
}

#[test]
fn regrowing_a_subtree_puts_a_wave_into_the_tree() {
    let mut rng = seeded_rng(71);
    for _ in 0..20 {
        let mut tree = Expr::Add(Box::new(Expr::X), Box::new(Expr::Y));
        tree.regrow_random_subtree(&mut rng);
        let source = emit(&tree);
        assert!(source.contains("sin(") || source.contains("cos("), "{source}");
        assert!(tree.node_count() >= 6);
    }
}

#[test]
fn grafting_takes_a_piece_of_the_donor() {
    let mut rng = seeded_rng(73);
    for _ in 0..20 {
        let mut tree = Expr::Add(Box::new(Expr::X), Box::new(Expr::Y));
        let donor = Expr::Neg(Box::new(Expr::Theta));
        tree.graft_random_subtree(&donor, &mut rng);
        let source = emit(&tree);
        assert!(source.contains("theta"), "{source}");
    }
}

#[test]
fn mutation_keeps_the_layer_count_inside_its_range() {
    let mut rng = seeded_rng(83);
    let mut count = random_layer_count(&mut rng);
    assert!((2..=MAX_LAYERS).contains(&count));
    for _ in 0..40 {
        count = mutated_layer_count(&mut rng, count);
        assert!((2..=MAX_LAYERS).contains(&count));
    }
}

#[test]
fn repeated_symmetries_are_redrawn() {
    let mut rng = seeded_rng(103);
    for _ in 0..20 {
        let mut symmetries = vec![6, 6, 6];
        give_distinct_symmetries(&mut symmetries, &mut rng);
        assert_eq!(symmetries[0], 6);
        let mut sorted = symmetries.clone();
        sorted.sort_unstable();
        sorted.dedup();
        assert_eq!(sorted.len(), 3);
        assert!(symmetries.iter().all(|s| (1..=MAX_SYMMETRY).contains(s)));
    }
}

#[test]
fn distinct_symmetries_are_kept() {
    let mut rng = seeded_rng(104);
    let mut symmetries = vec![3, 5, 7];
    give_distinct_symmetries(&mut symmetries, &mut rng);
    assert_eq!(symmetries, vec![3, 5, 7]);
}

#[test]
fn growth_draws_follow_the_node_weights() {
    let kinds: Vec<Growth> = (0..12).map(growth_for_draw).collect();
    assert_eq!(
        kinds,
        vec![
            Growth::Leaf,
            Growth::Leaf,
            Growth::Sin,
            Growth::Sin,
            Growth::Sin,
            Growth::Cos,
            Growth::Cos,
            Growth::Cos,
            Growth::Neg,
            Growth::Add,
            Growth::Mul,
            Growth::Hypot,
        ]
    );
}

#[test]
fn leaf_draws_follow_the_leaf_weights() {
    let leaves: Vec<Option<Expr>> = (0..10).map(leaf_for_draw).collect();
    assert_eq!(
        leaves,
        vec![
            Some(Expr::X),
            Some(Expr::X),
            Some(Expr::Y),
            Some(Expr::Y),
            Some(Expr::Radius),
            Some(Expr::Radius),
            Some(Expr::Theta),
            Some(Expr::Theta),
            Some(Expr::Time),
            None,
        ]
    );
}

#[test]
fn layer_count_flips_grow_when_there_is_room_and_shrink_above_two() {
    assert_eq!(layer_count_after(2, true, false), 3);
    assert_eq!(layer_count_after(3, true, false), 3);
    assert_eq!(layer_count_after(3, true, true), 2);
    assert_eq!(layer_count_after(2, false, true), 2);
    assert_eq!(layer_count_after(3, false, false), 3);
}

#[test]
fn a_taken_symmetry_outside_the_range_is_always_redrawn() {
    let mut rng = seeded_rng(105);
    let mut symmetries = vec![0, 0];
    give_distinct_symmetries(&mut symmetries, &mut rng);
    assert_eq!(symmetries[0], 0);
    assert!((1..=MAX_SYMMETRY).contains(&symmetries[1]));
}

#[test]
fn a_full_stack_ends_with_every_symmetry_once() {
    let mut rng = seeded_rng(106);
    let mut symmetries: Vec<u32> = (1..MAX_SYMMETRY).collect();
    symmetries.push(1);
    give_distinct_symmetries(&mut symmetries, &mut rng);
    let mut sorted = symmetries.clone();
    sorted.sort_unstable();
    let every: Vec<u32> = (1..=MAX_SYMMETRY).collect();
    assert_eq!(sorted, every);
    assert_eq!(symmetries[MAX_SYMMETRY as usize - 1], MAX_SYMMETRY);
}

#[test]
fn a_stack_of_twelve_equal_symmetries_is_spread_over_the_whole_range() {
    let mut rng = seeded_rng(107);
    let mut symmetries = vec![4u32; MAX_SYMMETRY as usize];
    give_distinct_symmetries(&mut symmetries, &mut rng);
    assert_eq!(symmetries[0], 4);
    let mut sorted = symmetries.clone();
    sorted.sort_unstable();
    let every: Vec<u32> = (1..=MAX_SYMMETRY).collect();
    assert_eq!(sorted, every);
}

#[test]
fn draws_past_the_weights_fall_to_the_last_choice() {
    assert_eq!(growth_for_draw(12), Growth::Hypot);
    assert_eq!(growth_for_draw(20), Growth::Hypot);
    assert_eq!(leaf_for_draw(10), None);
    assert_eq!(leaf_for_draw(15), None);
}
