use ebo::digest::chaotic_seed_bits;
use ebo::evm::Opcode;
use ebo::reorder::reorder;
use ebo::rewrite::{draw_rule, rewrite, write_out, Rewrite};
use ebo::stream::Stream;
use rand::rngs::StdRng;
use rand::{Rng, SeedableRng};

fn written(op: Opcode, rule: Rewrite) -> Vec<u8> {
    let mut out = vec![0xAA];
    write_out(op, rule, &mut out);
    assert_eq!(out[0], 0xAA);
    out.split_off(1)
}

#[test]
fn passthrough_writes_the_instruction_byte() {
    assert_eq!(written(Opcode::ADD, Rewrite::Passthrough), vec![0x01]);
    assert_eq!(written(Opcode::JUMPI, Rewrite::Passthrough), vec![0x57]);
    assert_eq!(written(Opcode::JUMPDEST, Rewrite::Passthrough), vec![0x5B]);
    assert_eq!(written(Opcode::STOP, Rewrite::Passthrough), vec![0x00]);
    assert_eq!(written(Opcode::RETURN, Rewrite::Passthrough), vec![0xF3]);
    assert_eq!(written(Opcode::Other(0x42), Rewrite::Passthrough), vec![0x42]);
}

#[test]
fn substitution_writes_push_add_twice() {
    assert_eq!(
        written(Opcode::ADD, Rewrite::Substitution),
        vec![0x60, 0x01, 0x01, 0x60, 0x01, 0x01]
    );
}

#[test]
fn false_branch_follows_the_jump() {
    assert_eq!(
        written(Opcode::JUMPI, Rewrite::FalseBranch { filler: 0x9C }),
        vec![0x57, 0x5B, 0x9C, 0x50, 0x00]
    );
}

#[test]
fn flower_follows_stop_and_return() {
    assert_eq!(
        written(Opcode::STOP, Rewrite::Flower { first: 0x11, second: 0x22 }),
        vec![0x00, 0x60, 0x11, 0x50, 0x60, 0x22, 0x50]
    );
    assert_eq!(
        written(Opcode::RETURN, Rewrite::Flower { first: 0x33, second: 0x44 }),
        vec![0xF3, 0x60, 0x33, 0x50, 0x60, 0x44, 0x50]
    );
}

#[test]
fn gates_agree_with_the_generator_drawn_directly() {
    for seed in 0u64..50 {
        let mut stream = Stream::seeded(seed);
        let mut rng = StdRng::seed_from_u64(seed);
        for _ in 0..40 {
            assert_eq!(stream.next_bool(3, 10), rng.gen_bool(0.3));
            assert_eq!(stream.next_bool(1, 2), rng.gen_bool(0.5));
            assert_eq!(stream.next_bool(2, 5), rng.gen_bool(0.4));
        }
    }
}

#[test]
fn indices_and_bytes_agree_with_the_generator_drawn_directly() {
    for seed in 0u64..50 {
        let mut stream = Stream::seeded(seed);
        let mut rng = StdRng::seed_from_u64(seed);
        for bound in 1usize..40 {
            let index = stream.next_range(bound);
            assert!(index < bound);
            assert_eq!(index, rng.gen_range(0..bound));
            assert_eq!(stream.next_byte(), rng.gen::<u8>());
        }
    }
}

#[test]
fn indices_are_not_the_bound_handed_in() {
    let mut stream = Stream::seeded(3);
    for _ in 0..100 {
        assert!(stream.next_range(5) < 5);
    }
    assert_eq!(stream.next_range(1), 0);
}

#[test]
fn different_seeds_give_different_draws() {
    let draws = |seed: u64| {
        let mut stream = Stream::seeded(seed);
        (0..64).map(|_| stream.next_byte()).collect::<Vec<u8>>()
    };
    assert_eq!(draws(42), draws(42));
    assert_ne!(draws(42), draws(43));
}

#[test]
fn chaotic_seed_bits_are_the_head_of_the_digest() {
    assert_eq!(chaotic_seed_bits(42), 0xc6f2_18bc_0891_04ed);
    assert_eq!(chaotic_seed_bits(0), 0x7a0b_81a1_f570_55af);
    assert_eq!(chaotic_seed_bits(u64::MAX), 0x5dce_6156_44ae_a312);
}

#[test]
fn rules_are_drawn_as_the_table_says() {
    for seed in 0u64..200 {
        let mut stream = Stream::seeded(seed);
        let mut rng = StdRng::seed_from_u64(seed);
        let add = draw_rule(Opcode::ADD, &mut stream);
        let expected = if rng.gen_bool(0.5) { Rewrite::Substitution } else { Rewrite::Passthrough };
        assert_eq!(add, expected);
        let jump = draw_rule(Opcode::JUMPI, &mut stream);
        let expected = if rng.gen_bool(0.4) {
            Rewrite::FalseBranch { filler: rng.gen() }
        } else {
            Rewrite::Passthrough
        };
        assert_eq!(jump, expected);
        for op in [Opcode::STOP, Opcode::RETURN] {
            let halt = draw_rule(op, &mut stream);
            let expected = if rng.gen_bool(0.3) {
                let first = rng.gen();
                let second = rng.gen();
                Rewrite::Flower { first, second }
            } else {
                Rewrite::Passthrough
            };
            assert_eq!(halt, expected);
        }
        assert_eq!(draw_rule(Opcode::JUMPDEST, &mut stream), Rewrite::Passthrough);
        assert_eq!(draw_rule(Opcode::Other(9), &mut stream), Rewrite::Passthrough);
        assert_eq!(stream.next_byte(), rng.gen::<u8>());
    }
}

#[test]
fn jumpdest_and_other_draw_nothing() {
    let mut stream = Stream::seeded(5);
    let mut untouched = Stream::seeded(5);
    let mut out = Vec::new();
    rewrite(&vec![Opcode::JUMPDEST, Opcode::Other(0x60), Opcode::Other(0x01)], &mut stream, &mut out);
    assert_eq!(out, vec![0x5B, 0x60, 0x01]);
    assert_eq!(stream.next_byte(), untouched.next_byte());
}

#[test]
fn rewrite_appends_to_what_is_there() {
    let mut stream = Stream::seeded(1);
    let mut out = vec![0xEE, 0xEF];
    rewrite(&vec![Opcode::Other(0x10), Opcode::JUMPDEST], &mut stream, &mut out);
    assert_eq!(out, vec![0xEE, 0xEF, 0x10, 0x5B]);
}

#[test]
fn reorder_with_no_swaps_changes_nothing() {
    let ops = vec![Opcode::ADD, Opcode::Other(2), Opcode::JUMPI, Opcode::Other(3)];
    let mut stream = Stream::seeded(9);
    let mut untouched = Stream::seeded(9);
    assert_eq!(reorder(&ops, 0, &mut stream), ops);
    assert_eq!(stream.next_byte(), untouched.next_byte());
}

#[test]
fn reorder_with_one_movable_slot_draws_nothing() {
    let ops = vec![Opcode::JUMPDEST, Opcode::ADD, Opcode::JUMPI];
    let mut stream = Stream::seeded(9);
    let mut untouched = Stream::seeded(9);
    assert_eq!(reorder(&ops, 1000, &mut stream), ops);
    assert_eq!(reorder(&Vec::new(), 1000, &mut stream), Vec::new());
    assert_eq!(stream.next_byte(), untouched.next_byte());
}

#[test]
fn reorder_permutes_movable_slots_and_pins_the_rest() {
    let ops = vec![
        Opcode::Other(1),
        Opcode::JUMPDEST,
        Opcode::Other(2),
        Opcode::ADD,
        Opcode::JUMPI,
        Opcode::Other(3),
        Opcode::STOP,
    ];
    let mut moved = false;
    for seed in 0u64..100 {
        for swaps in 0usize..6 {
            let mut stream = Stream::seeded(seed);
            let arranged = reorder(&ops, swaps, &mut stream);
            assert_eq!(arranged.len(), ops.len());
            assert_eq!(arranged[1], Opcode::JUMPDEST);
            assert_eq!(arranged[4], Opcode::JUMPI);
            let mut before: Vec<u8> = ops.iter().map(|op| op.to_byte()).collect();
            let mut after: Vec<u8> = arranged.iter().map(|op| op.to_byte()).collect();
            moved = moved || before != after;
            before.sort();
            after.sort();
            assert_eq!(before, after);
        }
    }
    assert!(moved);
}

#[test]
fn reorder_follows_the_drawn_exchanges() {
    let ops = vec![
        Opcode::Other(10),
        Opcode::JUMPI,
        Opcode::Other(11),
        Opcode::Other(12),
        Opcode::JUMPDEST,
        Opcode::Other(13),
    ];
    let movable = [0usize, 2, 3, 5];
    for seed in 0u64..100 {
        for swaps in 0usize..8 {
            let mut stream = Stream::seeded(seed);
            let mut rng = StdRng::seed_from_u64(seed);
            let mut targets = movable.to_vec();
            for _ in 0..swaps {
                let i = rng.gen_range(0..targets.len());
                let j = rng.gen_range(0..targets.len());
                targets.swap(i, j);
            }
            let mut expected = ops.clone();
            for (k, &target) in targets.iter().enumerate() {
                expected[target] = ops[movable[k]];
            }
            assert_eq!(reorder(&ops, swaps, &mut stream), expected);
            assert_eq!(stream.next_byte(), rng.gen::<u8>());
        }
    }
}
