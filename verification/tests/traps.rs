use lib::arch::interrupts::{classify_trap, exception_report, Trap};
use lib::time::timer::{next_timeout, TICK_PERIOD_MS};

#[test]
fn classify_trap_reads_mcause() {
    assert_eq!(classify_trap(0x8000_0007), Trap::TimerTick);
    assert_eq!(classify_trap(0x8000_000B), Trap::Interrupt { code: 11 });
    assert_eq!(classify_trap(2), Trap::Exception { code: 2 });
    assert_eq!(classify_trap(7), Trap::Exception { code: 7 });
}

#[test]
fn exception_report_names_known_codes() {
    assert_eq!(exception_report(2), Some("-> Code 2 : Instruction illegale"));
    assert_eq!(exception_report(15), Some("-> Code 15 : Defaut de page en ecriture"));
    assert_eq!(exception_report(10), None);
    assert_eq!(exception_report(14), None);
}

#[test]
fn next_timeout_is_a_period_later() {
    assert_eq!(next_timeout(5, TICK_PERIOD_MS), 5 + 10_000_000);
    assert_eq!(next_timeout(0, 1), 10_000);
    assert_eq!(next_timeout(100, 0), 100);
}
