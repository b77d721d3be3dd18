use amazingbf::interp::engine::{after_compile, back_edge, BackEdge, JitState};
use amazingbf::jit::{round_up_to_page, JitBuffer, JitError, JitStage, JitTape};

#[test]
fn empty_code_is_rejected() {
    let err = JitBuffer::new(&[]).unwrap_err();
    assert!(matches!(err, JitError::EmptyCode));
}

#[test]
fn round_up_page_sizes() {
    assert_eq!(round_up_to_page(1), 4096);
    assert_eq!(round_up_to_page(4096), 4096);
    assert_eq!(round_up_to_page(4097), 8192);
}

#[test]
fn code_is_executable_only_after_it_was_writable() {
    let mut buf = JitBuffer::new(&[0xC3]).unwrap();
    assert_eq!((buf.stage, buf.len), (JitStage::Planned, 4096));
    assert_eq!((buf.entry(), buf.pages()), (None, None));
    assert_eq!(buf.mapped(-12), Err(JitError::MmapFailed(-12)));
    assert_eq!(buf.mapped(0x1000), Ok(()));
    assert_eq!((buf.entry(), buf.pages()), (None, Some(0x1000)));
    assert_eq!(buf.protected(0), Ok(()));
    assert_eq!((buf.entry(), buf.pages()), (Some(0x1000), Some(0x1000)));
}

#[test]
fn refused_protection_gives_the_pages_back() {
    let mut buf = JitBuffer::new(&[0x90; 5000]).unwrap();
    assert_eq!(buf.len, 8192);
    assert_eq!(buf.mapped(0x2000), Ok(()));
    assert_eq!(buf.protected(-13), Err(JitError::MprotectFailed(-13)));
    assert_eq!((buf.entry(), buf.pages()), (None, Some(0x2000)));
}

#[test]
fn memory_errors_name_the_system_call() {
    assert_eq!(JitError::EmptyCode.describe(), "JIT: empty machine code");
    assert_eq!(JitError::MmapFailed(-12).describe(), "JIT: mmap failed (errno 12)");
    assert_eq!(JitError::MprotectFailed(-13).describe(), "JIT: mprotect failed (errno 13)");
    assert_eq!(JitError::MunmapFailed(1).describe(), "JIT: munmap failed (errno -1)");
}

#[test]
fn tapes_start_in_the_middle() {
    let t = JitTape::new(4097, 0x10000).unwrap();
    assert_eq!((t.base(), t.data_ptr(), t.end()), (0x10000, 0x10800, 0x11001));
    assert_eq!(JitTape::new(4096, 0).unwrap_err(), JitError::MmapFailed(-1));
    assert_eq!(JitTape::new(4096, -12).unwrap_err(), JitError::MmapFailed(-1));
}

#[test]
fn back_edges_are_counted_until_a_loop_is_decided() {
    assert_eq!(back_edge(JitState::Cold, 8, 10), BackEdge::Count);
    assert_eq!(back_edge(JitState::Cold, 9, 10), BackEdge::Compile);
    assert_eq!(back_edge(JitState::Cold, u64::MAX, 10), BackEdge::Compile);
    assert_eq!(back_edge(JitState::Failed, 9, 10), BackEdge::Again);
    assert_eq!(back_edge(JitState::Ready, 0, 10), BackEdge::Dispatch);
    assert_eq!(after_compile(true), JitState::Ready);
    assert_eq!(after_compile(false), JitState::Failed);
}
