use par2rs::xor_jit::encoder::{Instruction, Memory, Program, ProgramSink, Reg};
use par2rs::xor_jit::turbo::{
    bitplane_multiply_add_body_program, bitplane_multiply_add_dynamic_program, build_turbo_dep_tables,
    emit_output_pair_turbo_plan, emit_output_pair_turbo_sink, emit_turbo_common_accumulator, emit_turbo_load_part_sink,
    emit_turbo_muladd_output_seed_sink, emit_turbo_main_deps, emit_turbo_mem_deps,
    emit_turbo_seeded_output_load, highest_physical_bit, lowest_physical_bit, physical_bit_mask,
    physical_bitplane_vector_offset, turbo_common_plan, turbo_dep_plan, turbo_main_template_bytes,
    turbo_mem_template_bytes, turbo_output_pair_plan, word_mask_to_turbo_physical_mask, xor_physical_input_bit,
    InputPreloadPlan, TurboCommonPlan, TurboDepPlan, TurboMemDepOp,
};
use par2rs::xor_jit::BitplaneCoeffPlan;

#[test]
fn turbo_bit_helpers() {
    assert_eq!(physical_bit_mask(0), 1);
    assert_eq!(physical_bit_mask(3), 8);
    assert_eq!(physical_bit_mask(15), 0x8000);
    assert_eq!(highest_physical_bit(0), None);
    assert_eq!(highest_physical_bit(0b1010_0000_0000_0001), Some(15));
    assert_eq!(highest_physical_bit(0x0010), Some(4));
    assert_eq!(lowest_physical_bit(0), None);
    assert_eq!(lowest_physical_bit(0x0010), Some(4));
    assert_eq!(lowest_physical_bit(0x8000), Some(15));
    assert_eq!(lowest_physical_bit(0x8001), Some(0));
}

#[test]
fn turbo_word_mask_is_bit_reversed() {
    assert_eq!(word_mask_to_turbo_physical_mask(0), 0);
    assert_eq!(word_mask_to_turbo_physical_mask(1), 0x8000);
    assert_eq!(word_mask_to_turbo_physical_mask(0x8000), 1);
    assert_eq!(word_mask_to_turbo_physical_mask(0x00F0), 0x0F00);
    assert_eq!(word_mask_to_turbo_physical_mask(0xFFFF), 0xFFFF);
    for m in [0x1234u16, 0xBEEF, 0x0001, 0x8421] {
        assert_eq!(word_mask_to_turbo_physical_mask(word_mask_to_turbo_physical_mask(m)), m);
        assert_eq!(word_mask_to_turbo_physical_mask(m), m.reverse_bits());
    }
}

#[test]
fn turbo_common_plan_cases() {
    assert_eq!(turbo_common_plan(0), TurboCommonPlan { lowest: None, highest: None, eliminated_mask: 0 });
    assert_eq!(turbo_common_plan(0b1011), TurboCommonPlan { lowest: Some(0), highest: Some(3), eliminated_mask: 0b1001 });
    assert_eq!(turbo_common_plan(0b100), TurboCommonPlan { lowest: Some(2), highest: None, eliminated_mask: 0b100 });
    assert_eq!(turbo_common_plan(0xF000), TurboCommonPlan { lowest: Some(12), highest: Some(15), eliminated_mask: 0x9000 });
}

#[test]
fn turbo_dep_plan_fields() {
    assert_eq!(
        turbo_dep_plan(0xFFFF, 0),
        TurboDepPlan { mem_deps: 7, dep1_low: 0x7f, dep1_high: 0x3f, dep2_low: 0, dep2_high: 0 }
    );
    assert_eq!(
        turbo_dep_plan(0x0005, 0x0003),
        TurboDepPlan { mem_deps: 5 | (3 << 3), dep1_low: 0, dep1_high: 0, dep2_low: 0, dep2_high: 0 }
    );
    assert_eq!(
        turbo_dep_plan(0b0000_0100_0000_1000, 0b1000_0000_0000_0000),
        TurboDepPlan { mem_deps: 0, dep1_low: 1, dep1_high: 1, dep2_low: 0, dep2_high: 0x20 }
    );
}

#[test]
fn turbo_output_pair_plan_example() {
    let mut masks = [0u16; 16];
    masks[15] = 0x0003;
    masks[14] = 0x0006;
    let p = turbo_output_pair_plan(&masks, 0);
    assert_eq!(p.first_output, 15);
    assert_eq!(p.second_output, 14);
    assert_eq!(p.common, TurboCommonPlan { lowest: Some(14), highest: None, eliminated_mask: 0x4000 });
    assert_eq!(p.first_seed, Some(15));
    assert_eq!(p.second_seed, Some(13));
    assert_eq!(p.first_remaining_mask, 0);
    assert_eq!(p.second_remaining_mask, 0);

    let empty = turbo_output_pair_plan(&[0u16; 16], 7);
    assert_eq!(empty.first_output, 1);
    assert_eq!(empty.second_output, 0);
    assert_eq!(empty.first_seed, None);
    assert_eq!(empty.common.eliminated_mask, 0);
}

#[test]
fn turbo_pair_plan_partitions_each_output() {
    for c in [1u16, 2, 0x100B, 0x1234, 0xFFFF] {
        let plan = BitplaneCoeffPlan::new(c);
        for pair in 0..8 {
            let p = plan.turbo_pair(pair);
            assert_eq!(p, turbo_output_pair_plan(&plan.output_masks, pair));
            for (output, seed, remaining) in [
                (p.first_output, p.first_seed, p.first_remaining_mask),
                (p.second_output, p.second_seed, p.second_remaining_mask),
            ] {
                let physical = word_mask_to_turbo_physical_mask(plan.output_masks[output]);
                let seed_mask = seed.map(|s| 1u16 << s).unwrap_or(0);
                let shared = physical & p.common.eliminated_mask;
                assert_eq!(remaining | seed_mask | shared, physical);
                assert_eq!(remaining & seed_mask, 0);
                assert_eq!(remaining & p.common.eliminated_mask, 0);
            }
        }
    }
}

fn rax(d: i32) -> Memory {
    Memory { base: Reg::Rax, displacement: d }
}

fn rdx(d: i32) -> Memory {
    Memory { base: Reg::Rdx, displacement: d }
}

#[test]
fn turbo_physical_offsets_are_32_bytes_apart() {
    for pb in 0..16 {
        assert_eq!(physical_bitplane_vector_offset(pb), 32 * pb as i32 - 128);
    }
}

#[test]
fn turbo_dep_tables_contents() {
    let t = build_turbo_dep_tables();
    assert_eq!(t.nums.len(), 128);
    assert_eq!(t.nums[0], [0xff; 8]);
    assert_eq!(t.nums[5], [0, 2, 0xff, 0xff, 0xff, 0xff, 0xff, 0xff]);
    assert_eq!(t.nums[127], [0, 1, 2, 3, 4, 5, 6, 0xff]);
    assert_eq!(t.rmask[5], [9, 0, 9, 0, 0, 0, 0, 0]);
    assert_eq!(t.mem_len[0], 0);
    assert_eq!(t.mem_len[9], 1);
    assert_eq!(t.mem_ops[9][0], TurboMemDepOp { target_reg: 2, physical_bit: 0 });
    assert_eq!(t.mem_len[0b100010], 2);
    assert_eq!(t.mem_ops[0b100010][0], TurboMemDepOp { target_reg: 0, physical_bit: 1 });
    assert_eq!(t.mem_ops[0b100010][1], TurboMemDepOp { target_reg: 1, physical_bit: 2 });
    for i in 0..64 {
        assert_eq!(t.mem_bytes[i], turbo_mem_template_bytes(&t.mem_ops[i], t.mem_len[i] as usize));
    }
    for key in [0usize, 1, 129, 5000, 16383] {
        assert_eq!(t.main_bytes_low[key], turbo_main_template_bytes(&t.nums, &t.rmask, (key >> 7) as u8, (key & 0x7f) as u8, false));
    }
    for key in [0usize, 65, 4095] {
        assert_eq!(t.main_bytes_high[key], turbo_main_template_bytes(&t.nums, &t.rmask, (key >> 6) as u8, (key & 0x3f) as u8, true));
    }
    assert!(t.main_bytes_low[0].is_empty());
}

#[test]
fn turbo_emitters_produce_expected_instructions() {
    let t = build_turbo_dep_tables();
    assert_eq!(xor_physical_input_bit(Program::new(), 0, 0, 5).instructions, vec![Instruction::Vpxor { dst: 0, lhs: 0, rhs: 5 }]);
    assert_eq!(
        xor_physical_input_bit(Program::new(), 1, 1, 1).instructions,
        vec![Instruction::VpxorMemory { dst: 1, lhs: 1, memory: rax(-96) }]
    );
    assert_eq!(
        emit_turbo_mem_deps(Program::new(), &t, 0b100010).instructions,
        vec![
            Instruction::VpxorMemory { dst: 0, lhs: 0, memory: rax(-96) },
            Instruction::VpxorMemory { dst: 1, lhs: 1, memory: rax(-64) },
        ]
    );
    // bit 0 in both fields, bit 2 in the first only: registers 3 and 5
    assert_eq!(
        emit_turbo_main_deps(Program::new(), &t, 0b101, 0b001, false).instructions,
        vec![Instruction::Vpxor { dst: 2, lhs: 3, rhs: 2 }, Instruction::Vpxor { dst: 0, lhs: 5, rhs: 0 }]
    );
    assert_eq!(
        emit_turbo_main_deps(Program::new(), &t, 0, 0b10, true).instructions,
        vec![Instruction::Vpxor { dst: 1, lhs: 11, rhs: 1 }]
    );
    assert_eq!(
        emit_turbo_seeded_output_load(Program::new(), 0, 15, Some(5)).instructions,
        vec![Instruction::VpxorMemory { dst: 0, lhs: 5, memory: rdx(-128) }]
    );
    assert_eq!(
        emit_turbo_seeded_output_load(Program::new(), 1, 14, Some(1)).instructions,
        vec![Instruction::VmovdqaLoad { dst: 1, memory: rdx(-96) }, Instruction::VpxorMemory { dst: 1, lhs: 1, memory: rax(-96) }]
    );
    assert_eq!(
        emit_turbo_seeded_output_load(Program::new(), 0, 0, None).instructions,
        vec![Instruction::VmovdqaLoad { dst: 0, memory: rdx(352) }]
    );
    let (p, reg, active) = emit_turbo_common_accumulator(Program::new(), 2, TurboCommonPlan { lowest: None, highest: None, eliminated_mask: 0 });
    assert!(p.instructions.is_empty() && reg == 2 && !active);
    let (p, _, active) = emit_turbo_common_accumulator(Program::new(), 2, TurboCommonPlan { lowest: Some(1), highest: Some(7), eliminated_mask: 0x82 });
    assert!(active);
    assert_eq!(p.instructions, vec![Instruction::VpxorMemory { dst: 2, lhs: 7, memory: rax(-96) }]);
    let (p, _, _) = emit_turbo_common_accumulator(Program::new(), 2, TurboCommonPlan { lowest: Some(0), highest: Some(2), eliminated_mask: 5 });
    assert_eq!(p.instructions, vec![Instruction::VmovdqaLoad { dst: 2, memory: rax(-64) }, Instruction::VpxorMemory { dst: 2, lhs: 2, memory: rax(-128) }]);
    let (p, _, _) = emit_turbo_common_accumulator(Program::new(), 2, TurboCommonPlan { lowest: Some(4), highest: Some(9), eliminated_mask: 0x210 });
    assert_eq!(p.instructions, vec![Instruction::Vpxor { dst: 2, lhs: 9, rhs: 4 }]);
    let (p, _, _) = emit_turbo_common_accumulator(Program::new(), 2, TurboCommonPlan { lowest: Some(6), highest: None, eliminated_mask: 0x40 });
    assert_eq!(p.instructions, vec![Instruction::Vmovdqa { dst: 2, src: 6 }]);
}

#[test]
fn turbo_identity_plan_program_shape() {
    let t = build_turbo_dep_tables();
    let plan = BitplaneCoeffPlan::new(1);
    let pair0 = emit_output_pair_turbo_plan(Program::new(), &t, plan.turbo_pair(0)).instructions;
    assert_eq!(
        pair0,
        vec![
            Instruction::VmovdqaLoad { dst: 0, memory: rdx(-128) },
            Instruction::VpxorMemory { dst: 0, lhs: 0, memory: rax(-128) },
            Instruction::VmovdqaLoad { dst: 1, memory: rdx(-96) },
            Instruction::VpxorMemory { dst: 1, lhs: 1, memory: rax(-96) },
            Instruction::VmovdqaStore { memory: rdx(-128), src: 0 },
            Instruction::VmovdqaStore { memory: rdx(-96), src: 1 },
        ]
    );
    let dynamic = bitplane_multiply_add_dynamic_program(&plan, &t).instructions;
    assert_eq!(dynamic.len(), 6 + 5 + 6 * 4);
    assert_eq!(&dynamic[..6], &pair0[..]);
    let body = bitplane_multiply_add_body_program(&plan, &t).instructions;
    assert_eq!(body.len(), 13 + dynamic.len());
    assert_eq!(body[0], Instruction::VmovdqaLoad { dst: 3, memory: rax(-32) });
    assert_eq!(body[12], Instruction::VmovdqaLoad { dst: 15, memory: rax(32 * 15 - 128) });
    assert_eq!(&body[13..], &dynamic[..]);
}

#[test]
fn turbo_fixed_preload_plan() {
    let p = InputPreloadPlan::fixed();
    for w in 0..16 {
        let expected = if w <= 12 { Some((15 - w) as u8) } else { None };
        assert_eq!(p.registers[w], expected);
    }
    assert_eq!(p, InputPreloadPlan::new(&BitplaneCoeffPlan::new(7)));
    let loads = p.emit_preloads(Program::new()).instructions;
    assert_eq!(loads.len(), 13);
    for (k, ins) in loads.iter().enumerate() {
        let r = (k + 3) as u8;
        assert_eq!(*ins, Instruction::VmovdqaLoad { dst: r, memory: rax(32 * r as i32 - 128) });
    }
}

#[test]
fn turbo_sink_emitters_match_program_emitters() {
    let t = build_turbo_dep_tables();
    for c in [1u16, 2, 3, 5, 0x100b, 0x678b, 0xc814, 0xffff] {
        let plan = BitplaneCoeffPlan::new(c);
        for pair in 0..8 {
            let p = plan.turbo_pair(pair);
            let via_program = emit_output_pair_turbo_plan(Program::new(), &t, p).finish();
            let via_sink = emit_output_pair_turbo_sink(ProgramSink::new(Vec::new()), &t, p).encoded;
            assert_eq!(via_sink, via_program, "coefficient {c:#06x} pair {pair}");
        }
    }
    let seed = emit_turbo_muladd_output_seed_sink(ProgramSink::new(vec![0x90]), 0, 15, Some(5)).encoded;
    let mut expected = vec![0x90];
    expected.extend(emit_turbo_seeded_output_load(Program::new(), 0, 15, Some(5)).finish());
    assert_eq!(seed, expected);
    let (sink, reg, active) = emit_turbo_load_part_sink(ProgramSink::new(Vec::new()), 2, Some(1), Some(7));
    assert_eq!(reg, 2);
    assert!(active);
    let (prog, _, _) = emit_turbo_common_accumulator(Program::new(), 2, TurboCommonPlan { lowest: Some(1), highest: Some(7), eliminated_mask: 0x82 });
    assert_eq!(sink.encoded, prog.finish());
}
