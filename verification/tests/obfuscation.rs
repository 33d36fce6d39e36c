use ebo::evm::{compute_cfg_complexity, count_unique_opcodes, parse_bytecode, Opcode};
use ebo::obfuscator::{Obfuscator, Step};
use rand::rngs::StdRng;
use rand::{Rng, SeedableRng};
use sha2::{Digest, Sha256};

/// One step of the chaotic sequence.
fn chaotic_map(x: f64) -> f64 {
    let mu = 3.9;
    let p = 0.4;
    if x < p {
        (x.cos() * mu * x.cos()).sin().abs() % 1.0
    } else {
        (1.0 - x).sin() % 1.0
    }
}

/// Runs one pass to its end, answering each pause from the chaotic sequence.
fn run_pass(obfuscator: &mut Obfuscator) -> (Vec<u8>, Vec<usize>) {
    let mut chaotic_val = f64::from_bits(obfuscator.chaotic_seed_bits()) / u64::MAX as f64;
    let mut counts = Vec::new();
    let mut step = obfuscator.obfuscate();
    loop {
        match step {
            Step::Done { output } => return (output, counts),
            Step::AwaitingShuffleCount { block_len } => {
                chaotic_val = chaotic_map(chaotic_val);
                let shuffle_count = (chaotic_val * block_len as f64) as usize;
                counts.push(shuffle_count);
                step = obfuscator.resume(shuffle_count).expect("the pass is paused");
            }
        }
    }
}

fn obfuscate(bytecode: &[u8], seed: u64) -> Vec<u8> {
    run_pass(&mut Obfuscator::new(bytecode, seed)).0
}

/// The same pipeline written straight against the generator, with the odds
/// as floating-point probabilities.
fn straight_pipeline(bytecode: &[u8], seed: u64) -> Vec<u8> {
    let digest = Sha256::digest(seed.to_le_bytes());
    let mut head = [0u8; 8];
    head.copy_from_slice(&digest[0..8]);
    let mut chaotic_val = f64::from_le_bytes(head) / u64::MAX as f64;
    let mut rng = StdRng::seed_from_u64(seed);
    let mut out = Vec::new();
    for block in parse_bytecode(bytecode) {
        let mut opcodes = block.opcodes;
        if rng.gen_bool(0.3) {
            chaotic_val = chaotic_map(chaotic_val);
            let shuffle_count = (chaotic_val * opcodes.len() as f64) as usize;
            let movable: Vec<usize> = (0..opcodes.len())
                .filter(|&i| !matches!(opcodes[i], Opcode::JUMPI | Opcode::JUMPDEST))
                .collect();
            let mut targets = movable.clone();
            for _ in 0..shuffle_count {
                if targets.len() > 1 {
                    let i = rng.gen_range(0..targets.len());
                    let j = rng.gen_range(0..targets.len());
                    targets.swap(i, j);
                }
            }
            let mut arranged = opcodes.clone();
            for (k, &target) in targets.iter().enumerate() {
                arranged[target] = opcodes[movable[k]];
            }
            opcodes = arranged;
        }
        for op in opcodes {
            match op {
                Opcode::ADD => {
                    if rng.gen_bool(0.5) {
                        out.extend_from_slice(&[0x60, 0x01, 0x01, 0x60, 0x01, 0x01]);
                    } else {
                        out.push(0x01);
                    }
                }
                Opcode::JUMPI => {
                    out.push(0x57);
                    if rng.gen_bool(0.4) {
                        out.extend_from_slice(&[0x5B, rng.gen(), 0x50, 0x00]);
                    }
                }
                Opcode::STOP | Opcode::RETURN => {
                    out.push(if op == Opcode::STOP { 0x00 } else { 0xF3 });
                    if rng.gen_bool(0.3) {
                        let first: u8 = rng.gen();
                        let second: u8 = rng.gen();
                        out.extend_from_slice(&[0x60, first, 0x50, 0x60, second, 0x50]);
                    }
                }
                Opcode::JUMPDEST => out.push(0x5B),
                Opcode::Other(byte) => out.push(byte),
            }
        }
    }
    out
}

fn sample_inputs() -> Vec<Vec<u8>> {
    let mut inputs = vec![
        vec![],
        vec![0x01],
        vec![0x57],
        vec![0x00],
        vec![0xF3],
        vec![0x5B],
        vec![0x01, 0x01, 0x57, 0x00],
        vec![0x01, 0x57, 0x00],
        vec![
            0x60, 0x01, 0x54, 0x60, 0x01, 0x01, 0x55, 0x60, 0x00, 0x52, 0x60, 0x20, 0x60, 0x00,
            0xF3,
        ],
        (1u8..=40).map(|b| b.wrapping_mul(3) | 0x80).chain([0x57]).collect(),
    ];
    let mut state: u64 = 0x2545_F491_4F6C_DD1D;
    for len in [3usize, 17, 64, 200] {
        let mut input = Vec::new();
        for _ in 0..len {
            state ^= state << 13;
            state ^= state >> 7;
            state ^= state << 17;
            let pick = (state >> 32) as u8;
            input.push(match pick % 16 {
                0 => 0x57,
                1 => 0x5B,
                2 => 0x00,
                3 => 0xF3,
                4 | 5 => 0x01,
                _ => pick,
            });
        }
        inputs.push(input);
    }
    inputs
}

fn occurrences(bytes: &[u8]) -> [usize; 256] {
    let mut counts = [0usize; 256];
    for &byte in bytes {
        counts[byte as usize] += 1;
    }
    counts
}

#[test]
fn test_obfuscate_add() {
    let bytecode = vec![0x01]; // ADD
    let obfuscated = obfuscate(&bytecode, 42);
    assert!(!obfuscated.is_empty());
    assert!(obfuscated == vec![0x01] || obfuscated == vec![0x60, 0x01, 0x01, 0x60, 0x01, 0x01]);
}

#[test]
fn test_obfuscate_jumpy_false_branch() {
    let bytecode = vec![0x57]; // JUMPI
    let obfuscated = obfuscate(&bytecode, 42);
    assert!(obfuscated.len() >= 1);
    assert_eq!(obfuscated[0], 0x57);
    if obfuscated.len() > 1 {
        assert_eq!(obfuscated[1], 0x5B); // JUMPDEST
    }
}

#[test]
fn test_obfuscate_stop_dead_code() {
    let bytecode = vec![0x00]; // STOP
    let obfuscated = obfuscate(&bytecode, 42);
    assert!(obfuscated.len() >= 1);
    assert_eq!(obfuscated[0], 0x00);
}

#[test]
fn test_chaotic_shuffle_preserves_control_flow() {
    let bytecode = vec![0x01, 0x01, 0x57, 0x00]; // ADD, ADD, JUMPI, STOP
    let obfuscated = obfuscate(&bytecode, 42);
    let blocks = parse_bytecode(&obfuscated);
    assert!(blocks.iter().any(|b| b.opcodes.contains(&Opcode::JUMPI)));
    assert!(blocks.iter().any(|b| b.opcodes.contains(&Opcode::STOP)));
}

#[test]
fn test_cfg_complexity_increase() {
    let bytecode = vec![0x01, 0x57, 0x00]; // ADD, JUMPI, STOP
    let original_blocks = parse_bytecode(&bytecode);
    let original_complexity = compute_cfg_complexity(&original_blocks);
    let obfuscated = obfuscate(&bytecode, 42);
    let obfuscated_blocks = parse_bytecode(&obfuscated);
    let obfuscated_complexity = compute_cfg_complexity(&obfuscated_blocks);
    assert!(obfuscated_complexity >= original_complexity);
}

#[test]
fn test_incrementer_obfuscation() {
    let halstead_effort_proxy = |bytecode: &[u8]| {
        let n1 = count_unique_opcodes(bytecode) as f64;
        let n2 = bytecode.len() as f64;
        n1 * n2 * n2.log2()
    };
    let bytecode = vec![
        0x60, 0x01, 0x54, // PUSH1 1, SLOAD
        0x60, 0x01, 0x01, // PUSH1 1, ADD
        0x55, // SSTORE
        0x60, 0x00, 0x52, // PUSH1 0, MSTORE
        0x60, 0x20, 0x60, 0x00, 0xF3, // PUSH1 32, PUSH1 0, RETURN
    ];
    let original_blocks = parse_bytecode(&bytecode);
    let original_complexity = compute_cfg_complexity(&original_blocks);
    let original_unique_opcodes = count_unique_opcodes(&bytecode);
    let original_effort = halstead_effort_proxy(&bytecode);

    let obfuscated = obfuscate(&bytecode, 42);
    let obfuscated_blocks = parse_bytecode(&obfuscated);
    let obfuscated_complexity = compute_cfg_complexity(&obfuscated_blocks);
    let obfuscated_unique_opcodes = count_unique_opcodes(&obfuscated);
    let obfuscated_effort = halstead_effort_proxy(&obfuscated);

    assert!(obfuscated.iter().any(|&b| b == 0x54)); // SLOAD
    assert!(obfuscated.iter().any(|&b| b == 0x55)); // SSTORE
    assert!(obfuscated.iter().any(|&b| b == 0xF3)); // RETURN

    assert!(obfuscated_complexity >= original_complexity);
    assert!(obfuscated_unique_opcodes >= original_unique_opcodes);
    assert!(obfuscated_effort > original_effort);
}

#[test]
fn any_seed_keeps_jumpi_and_stop_in_some_block() {
    let bytecode = vec![0x01, 0x01, 0x57, 0x00];
    for seed in 0u64..300 {
        let blocks = parse_bytecode(&obfuscate(&bytecode, seed));
        assert!(blocks.iter().any(|b| b.opcodes.contains(&Opcode::JUMPI)));
        assert!(blocks.iter().any(|b| b.opcodes.contains(&Opcode::STOP)));
    }
}

#[test]
fn empty_input_gives_empty_output() {
    for seed in [0u64, 1, 42, u64::MAX] {
        let mut obfuscator = Obfuscator::new(&[], seed);
        match obfuscator.obfuscate() {
            Step::Done { output } => assert!(output.is_empty()),
            Step::AwaitingShuffleCount { .. } => panic!("nothing to reorder"),
        }
    }
}

#[test]
fn two_instances_give_the_same_bytes() {
    for input in sample_inputs() {
        for seed in [0u64, 1, 42, 1 << 40, u64::MAX] {
            assert_eq!(obfuscate(&input, seed), obfuscate(&input, seed));
        }
    }
}

#[test]
fn seeds_differ_in_what_they_give() {
    let input: Vec<u8> = [0x01u8, 0x57, 0x00, 0xF3].repeat(16);
    let outputs: Vec<Vec<u8>> = (0u64..8).map(|seed| obfuscate(&input, seed)).collect();
    assert!(outputs.iter().any(|output| output != &outputs[0]));
}

#[test]
fn output_is_never_shorter_and_drops_no_byte() {
    for input in sample_inputs() {
        for seed in 0u64..40 {
            let output = obfuscate(&input, seed);
            assert!(output.len() >= input.len());
            let before = occurrences(&input);
            let after = occurrences(&output);
            for byte in 0..256 {
                assert!(after[byte] >= before[byte]);
            }
        }
    }
}

#[test]
fn blocks_with_a_conditional_jump_never_become_fewer() {
    for input in sample_inputs() {
        let before = compute_cfg_complexity(&parse_bytecode(&input));
        for seed in 0u64..40 {
            let output = obfuscate(&input, seed);
            assert!(compute_cfg_complexity(&parse_bytecode(&output)) >= before);
        }
    }
}

#[test]
fn control_flow_opcodes_stay_in_some_block() {
    for input in sample_inputs() {
        let held = |bytes: &[u8], op: Opcode| {
            parse_bytecode(bytes).iter().any(|block| block.opcodes.contains(&op))
        };
        for seed in 0u64..40 {
            let output = obfuscate(&input, seed);
            for op in [Opcode::JUMPI, Opcode::STOP, Opcode::RETURN, Opcode::JUMPDEST] {
                if held(&input, op) {
                    assert!(held(&output, op));
                }
            }
        }
    }
}

#[test]
fn agrees_with_the_straight_pipeline() {
    let mut reordered = 0;
    for input in sample_inputs() {
        for seed in 0u64..200 {
            let (output, counts) = run_pass(&mut Obfuscator::new(&input, seed));
            assert_eq!(output, straight_pipeline(&input, seed));
            reordered += counts.iter().filter(|&&count| count > 0).count();
        }
    }
    assert!(reordered > 0);
}

#[test]
fn resume_without_a_pause_does_nothing() {
    let mut obfuscator = Obfuscator::new(&[0x5B, 0x01], 42);
    assert!(obfuscator.resume(3).is_none());
    let (first, _) = run_pass(&mut Obfuscator::new(&[0x5B, 0x01], 42));
    let (second, _) = run_pass(&mut obfuscator);
    assert_eq!(first, second);
    assert!(obfuscator.resume(3).is_none());
}

#[test]
fn a_pause_names_the_length_of_its_block() {
    let input = [0x10u8, 0x11, 0x12, 0x57, 0x20, 0x21, 0x00, 0x30];
    let lengths: Vec<usize> = parse_bytecode(&input).iter().map(|b| b.opcodes.len()).collect();
    assert_eq!(lengths, vec![4, 3, 1]);
    let mut paused = 0;
    for seed in 0u64..100 {
        let mut obfuscator = Obfuscator::new(&input, seed);
        let mut step = obfuscator.obfuscate();
        while let Step::AwaitingShuffleCount { block_len } = step {
            assert!(lengths.contains(&block_len));
            paused += 1;
            step = obfuscator.resume(0).expect("the pass is paused");
        }
    }
    assert!(paused > 0);
}

#[test]
fn a_new_pass_drops_the_paused_one_and_draws_on() {
    let input = [0x10u8, 0x11, 0x12, 0x57, 0x20, 0x21, 0x00, 0x30];
    for seed in 0u64..50 {
        let mut obfuscator = Obfuscator::new(&input, seed);
        let (first, _) = run_pass(&mut obfuscator);
        let (second, _) = run_pass(&mut obfuscator);
        assert!(first.len() >= input.len());
        assert!(second.len() >= input.len());
        let mut again = Obfuscator::new(&input, seed);
        assert_eq!(run_pass(&mut again).0, first);
        assert_eq!(run_pass(&mut again).0, second);
    }
}

#[test]
fn chaotic_seed_bits_come_with_the_obfuscator() {
    assert_eq!(Obfuscator::new(&[0x01], 42).chaotic_seed_bits(), 0xc6f2_18bc_0891_04ed);
    assert_eq!(Obfuscator::new(&[], 0).chaotic_seed_bits(), 0x7a0b_81a1_f570_55af);
}

#[test]
fn fuzz_obfuscation_does_not_crash() {
    let mut state: u64 = 0x9E37_79B9_7F4A_7C15;
    for seed in 0u64..300 {
        state = state.wrapping_mul(6364136223846793005).wrapping_add(1442695040888963407);
        let len = (state >> 33) as usize % 100;
        let mut input = Vec::with_capacity(len);
        for _ in 0..len {
            state = state.wrapping_mul(6364136223846793005).wrapping_add(1442695040888963407);
            input.push((state >> 40) as u8);
        }
        let _obfuscated = obfuscate(&input, seed);
    }
}
