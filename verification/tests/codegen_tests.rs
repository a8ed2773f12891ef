use osrjit::codegen::{CGContext, Codegen};

#[test]
fn three_adds_and_output_exact_bytes() {
    let cg = Codegen::new(CGContext {
        putchar: 0x1122334455667788,
        getchar: 0,
        opt_level: 0,
    });
    let jit = cg.translate("+++.");
    let mut expected: Vec<u8> = Vec::new();
    for _ in 0..3 {
        expected.extend_from_slice(&[0x80, 0x07, 0x01]);
    }
    // push rdi; movzx edi, byte [rdi]; mov rax, putchar; call rax; pop rdi
    expected.extend_from_slice(&[0x57, 0x0F, 0xB6, 0x3F, 0x48, 0xB8]);
    expected.extend_from_slice(&[0x88, 0x77, 0x66, 0x55, 0x44, 0x33, 0x22, 0x11]);
    expected.extend_from_slice(&[0xFF, 0xD0, 0x5F]);
    expected.push(0xC3);
    assert_eq!(jit.buffer, expected);
    assert!(jit.loop_end_patch_offsets.is_empty());
}

#[test]
fn folded_adds_single_instruction() {
    let cg = Codegen::new(CGContext {
        putchar: 0,
        getchar: 0,
        opt_level: 1,
    });
    let jit = cg.translate("+++");
    assert_eq!(jit.buffer, vec![0x80, 0x07, 0x03, 0xC3]);
}

#[test]
fn empty_loop_exact_bytes() {
    let cg = Codegen::new(CGContext {
        putchar: 0,
        getchar: 0,
        opt_level: 0,
    });
    let jit = cg.translate("[]");
    let mut expected: Vec<u8> = Vec::new();
    // cmp byte [rdi], 0; je +10 (to the exit label behind the loop close)
    expected.extend_from_slice(&[0x80, 0x3F, 0x00, 0x0F, 0x84, 0x0A, 0x00, 0x00, 0x00]);
    // nop (the OSR patch target); cmp byte [rdi], 0; jne -10 (back to the body)
    expected.extend_from_slice(&[0x90, 0x80, 0x3F, 0x00, 0x0F, 0x85, 0xF6, 0xFF, 0xFF, 0xFF]);
    expected.push(0xC3);
    assert_eq!(jit.buffer, expected);
    assert_eq!(jit.loop_end_patch_offsets, vec![9]);
}

#[test]
fn input_exact_bytes() {
    let cg = Codegen::new(CGContext {
        putchar: 0,
        getchar: 0x0102030405060708,
        opt_level: 0,
    });
    let jit = cg.translate(",");
    let mut expected: Vec<u8> = Vec::new();
    // push rdi; mov rax, getchar; call rax; pop rdi; mov [rdi], al
    expected.extend_from_slice(&[0x57, 0x48, 0xB8]);
    expected.extend_from_slice(&[0x08, 0x07, 0x06, 0x05, 0x04, 0x03, 0x02, 0x01]);
    expected.extend_from_slice(&[0xFF, 0xD0, 0x5F, 0x88, 0x07]);
    expected.push(0xC3);
    assert_eq!(jit.buffer, expected);
}

#[test]
fn osr_offset_count_matches_close_brackets_at_both_levels() {
    let src = "++[->+<][[-]]";
    for opt in [0u8, 1u8] {
        let cg = Codegen::new(CGContext {
            putchar: 0,
            getchar: 0,
            opt_level: opt,
        });
        let jit = cg.translate(src);
        assert_eq!(jit.loop_end_patch_offsets.len(), 3);
    }
}

#[test]
fn every_osr_offset_marks_a_nop() {
    let cg = Codegen::new(CGContext {
        putchar: 0x4000,
        getchar: 0x5000,
        opt_level: 1,
    });
    let jit = cg.translate("++[->+<][.,[-]]");
    assert!(!jit.loop_end_patch_offsets.is_empty());
    for &off in &jit.loop_end_patch_offsets {
        assert_eq!(jit.buffer[off], 0x90);
    }
}

#[test]
fn single_osr_offset_for_one_loop() {
    let cg = Codegen::new(CGContext {
        putchar: 0,
        getchar: 0,
        opt_level: 0,
    });
    let jit = cg.translate("++[->+<]");
    assert_eq!(jit.loop_end_patch_offsets.len(), 1);
}

#[test]
fn pointer_shift_immediates() {
    let cg = Codegen::new(CGContext {
        putchar: 0,
        getchar: 0,
        opt_level: 1,
    });
    let jit = cg.translate(">>>>><<");
    let mut expected: Vec<u8> = Vec::new();
    expected.extend_from_slice(&[0x48, 0x81, 0xC7, 0x05, 0x00, 0x00, 0x00]);
    expected.extend_from_slice(&[0x48, 0x81, 0xEF, 0x02, 0x00, 0x00, 0x00]);
    expected.push(0xC3);
    assert_eq!(jit.buffer, expected);
}
