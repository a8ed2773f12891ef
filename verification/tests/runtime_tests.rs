use osrjit::codegen::CGContext;
use osrjit::runtime::{CodeBuffer, Runtime};

#[test]
fn code_buffer_rounds_to_a_page_and_zeroes_slack() {
    let data = vec![1u8, 2, 3];
    let buf = CodeBuffer::new(&data);
    assert_eq!(buf.len(), 4096);
    assert_eq!(buf.byte_at(0), 1);
    assert_eq!(buf.byte_at(1), 2);
    assert_eq!(buf.byte_at(2), 3);
    assert_eq!(buf.byte_at(3), 0);
    assert_eq!(buf.byte_at(4095), 0);
}

#[test]
fn code_buffer_keeps_whole_pages() {
    let data = vec![0xAAu8; 4096];
    let buf = CodeBuffer::new(&data);
    assert_eq!(buf.len(), 4096);
    let data = vec![0xAAu8; 4097];
    let buf = CodeBuffer::new(&data);
    assert_eq!(buf.len(), 8192);
}

#[test]
fn code_buffer_patch_changes_one_byte() {
    let data = vec![1u8, 2, 3];
    let mut buf = CodeBuffer::new(&data);
    buf.patch(1, 0xCC);
    assert_eq!(buf.byte_at(0), 1);
    assert_eq!(buf.byte_at(1), 0xCC);
    assert_eq!(buf.byte_at(2), 3);
}

#[test]
fn fresh_runtime_has_nops_at_osr_offsets() {
    let rt = Runtime::new("+[]".to_string(), 0x1000, 0x2000);
    let offs = rt.active_osr_offsets().clone();
    assert_eq!(offs.len(), 1);
    for &off in &offs {
        assert_eq!(rt.active_buffer().byte_at(off), 0x90);
    }
    assert!(!rt.has_pending());
}

#[test]
fn request_osr_patches_breakpoints_everywhere() {
    let mut rt = Runtime::new("+[]++[--][]".to_string(), 0x1000, 0x2000);
    rt.do_osr(CGContext {
        putchar: 0x3000,
        getchar: 0x4000,
        opt_level: 1,
    });
    let offs = rt.active_osr_offsets().clone();
    assert_eq!(offs.len(), 3);
    for &off in &offs {
        assert_eq!(rt.active_buffer().byte_at(off), 0xCC);
    }
    assert!(rt.has_pending());
}

#[test]
fn trap_swaps_in_the_pending_buffer() {
    let mut rt = Runtime::new("+[]".to_string(), 0x1000, 0x2000);
    let offs = rt.active_osr_offsets().clone();
    assert_eq!(offs, vec![12]);
    rt.do_osr(CGContext {
        putchar: 0x1000,
        getchar: 0x2000,
        opt_level: 1,
    });
    // The trap reports the address after the breakpoint byte.
    let resume = rt.handle_trap(offs[0] + 1);
    assert_eq!(resume, Some(12));
    assert!(!rt.has_pending());
    // The new buffer is freshly compiled: its NOP is intact again.
    assert_eq!(rt.active_buffer().byte_at(12), 0x90);
}

#[test]
fn trap_without_pending_changes_nothing() {
    let mut rt = Runtime::new("+[]".to_string(), 0x1000, 0x2000);
    let offs = rt.active_osr_offsets().clone();
    assert_eq!(rt.handle_trap(offs[0] + 1), None);
}

#[test]
fn trap_at_unknown_offset_is_refused() {
    let mut rt = Runtime::new("+[]".to_string(), 0x1000, 0x2000);
    rt.do_osr(CGContext {
        putchar: 0x1000,
        getchar: 0x2000,
        opt_level: 1,
    });
    assert_eq!(rt.handle_trap(3), None);
    assert_eq!(rt.handle_trap(0), None);
    assert!(rt.has_pending());
}

#[test]
fn repeated_requests_keep_only_the_last_pending() {
    // The routine for `.[]` embeds the putchar address at bytes 6..14; after
    // a swap the active buffer must hold the address of the *last* request.
    let mut rt = Runtime::new(".[]".to_string(), 0x1111111111111111, 0x2000);
    assert_eq!(rt.active_buffer().byte_at(6), 0x11);
    rt.do_osr(CGContext {
        putchar: 0x2222222222222222,
        getchar: 0x2000,
        opt_level: 0,
    });
    rt.do_osr(CGContext {
        putchar: 0x3333333333333333,
        getchar: 0x2000,
        opt_level: 0,
    });
    let offs = rt.active_osr_offsets().clone();
    let resume = rt.handle_trap(offs[0] + 1);
    assert!(resume.is_some());
    assert_eq!(rt.active_buffer().byte_at(6), 0x33);
}

#[test]
fn osr_swaps_count_monotonically() {
    let mut rt = Runtime::new("+[]".to_string(), 0x1000, 0x2000);
    let mut swaps = 0;
    for round in 0..3 {
        rt.do_osr(CGContext {
            putchar: 0x1000 + round,
            getchar: 0x2000,
            opt_level: 1,
        });
        let offs = rt.active_osr_offsets().clone();
        if rt.handle_trap(offs[0] + 1).is_some() {
            swaps += 1;
        }
        assert_eq!(swaps, round + 1);
    }
}
