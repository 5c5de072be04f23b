use balancebeam::breakpoints::{Breakpoint, BreakpointArgType, BreakpointManager};
use balancebeam::inferior::{align_addr_to_word, patch_word};
use balancebeam::process::{fds_from_names, Process};

#[test]
fn breakpoint_arguments() {
    match BreakpointManager::parse_breakpoint_arg("*0x401a2B") {
        BreakpointArgType::Addr(a) => assert_eq!(a, 0x401a2b),
        _ => panic!("expected an address"),
    }
    match BreakpointManager::parse_breakpoint_arg("*ff") {
        BreakpointArgType::Addr(a) => assert_eq!(a, 0xff),
        _ => panic!("expected an address"),
    }
    assert!(matches!(BreakpointManager::parse_breakpoint_arg("*main"), BreakpointArgType::Unknown));
    assert!(matches!(BreakpointManager::parse_breakpoint_arg("*"), BreakpointArgType::Unknown));
    assert!(matches!(BreakpointManager::parse_breakpoint_arg("42"), BreakpointArgType::Line(42)));
    assert!(matches!(BreakpointManager::parse_breakpoint_arg("+7"), BreakpointArgType::Line(7)));
    match BreakpointManager::parse_breakpoint_arg("main") {
        BreakpointArgType::FuncName(n) => assert_eq!(n, "main"),
        _ => panic!("expected a function name"),
    }
    match BreakpointManager::parse_breakpoint_arg("99999999999999999999999") {
        BreakpointArgType::FuncName(n) => assert_eq!(n, "99999999999999999999999"),
        _ => panic!("an out-of-range number is not a line"),
    }
}

#[test]
fn breakpoint_bookkeeping() {
    let mut m = BreakpointManager::new();
    assert_eq!(m.get_count(), 0);
    assert!(m.set(0x1000, Some(0x55)));
    assert!(m.set(0x2000, None));
    assert!(!m.set(0x1000, Some(0x55)));
    assert_eq!(m.get_count(), 2);
    assert_eq!(m.get(&0x1000), Some(Breakpoint::new(0x1000, 0x55)));
    assert_eq!(m.get(&0x2000), None);
    assert_eq!(m.get(&0x3000), None);
    let removed = m.unset(&0x1000).unwrap();
    assert_eq!(removed.addr(), 0x1000);
    assert_eq!(removed.orig_byte(), 0x55);
    assert_eq!(m.get(&0x1000), None);
    assert_eq!(m.get_count(), 2);
    assert!(m.set(0x1000, Some(0x90)));
    assert_eq!(m.get_count(), 3);
}

#[test]
fn word_patching() {
    assert_eq!(align_addr_to_word(0x1007), 0x1000);
    assert_eq!(align_addr_to_word(0x1008), 0x1008);
    let (orig, updated) = patch_word(0x1122334455667788, 2, 0xcc);
    assert_eq!(orig, 0x66);
    assert_eq!(updated, 0x1122334455cc7788);
    let (orig, updated) = patch_word(updated, 2, orig);
    assert_eq!(orig, 0xcc);
    assert_eq!(updated, 0x1122334455667788);
    assert_eq!(patch_word(0, 7, 0xff), (0, 0xff00000000000000));
}

#[test]
fn fd_names() {
    let names = vec![String::from("0"), String::from("1"), String::from("19")];
    assert_eq!(fds_from_names(&names), Some(vec![0, 1, 19]));
    let bad = vec![String::from("3"), String::from("x")];
    assert_eq!(fds_from_names(&bad), None);
    let p = Process::new(12, 1, String::from("sh"));
    assert_eq!((p.pid, p.ppid, p.command.as_str()), (12, 1, "sh"));
}
