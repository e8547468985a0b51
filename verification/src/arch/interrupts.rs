//! What a machine trap is, from the value of `mcause`.

use vstd::prelude::*;

verus! {

/// `mcause` values at or above this (and below twice this) are interrupts.
pub const INTERRUPT_FLAG: usize = 0x8000_0000;

/// The bits of `mcause` that hold the interrupt or exception code.
pub const CODE_MASK: usize = 0x7FFF_FFFF;

/// The interrupt code of the machine timer.
pub const TIMER_INTERRUPT: usize = 7;

/// What caused a trap.
#[derive(PartialEq, Eq, Structural, Clone, Copy, Debug)]
pub enum Trap {
    /// The machine timer went off: count a tick and set the next timeout.
    TimerTick,
    /// Another interrupt, with its code: report it and go on.
    Interrupt { code: usize },
    /// An exception, with its code: report it and stop.
    Exception { code: usize },
}

/// The trap that the `mcause` value `cause` reports: bit 31 set (and nothing above it) marks an
/// interrupt, the bits below it hold the code.
pub open spec fn trap_of(cause: usize) -> Trap {
    let code = (cause % INTERRUPT_FLAG) as usize;
    if cause / INTERRUPT_FLAG == 1 {
        if code == TIMER_INTERRUPT {
            Trap::TimerTick
        } else {
            Trap::Interrupt { code }
        }
    } else {
        Trap::Exception { code }
    }
}

/// Reads the cause of a trap.
pub fn classify_trap(cause: usize) -> (trap: Trap)
    ensures
        trap == trap_of(cause),
{
    let is_interrupt = (cause >> 31) == 1;
    let code = cause & CODE_MASK;
    assert(cause >> 31 == cause / 0x8000_0000) by (bit_vector);
    assert(cause & 0x7FFF_FFFF == cause % 0x8000_0000) by (bit_vector);
    if is_interrupt {
        if code == TIMER_INTERRUPT {
            Trap::TimerTick
        } else {
            Trap::Interrupt { code }
        }
    } else {
        Trap::Exception { code }
    }
}

/// Below bit 31, `mcause` is an exception whose code is the value itself. With bit 31 set (and
/// nothing above it) it is an interrupt whose code is the value less `0x8000_0000`, and that
/// interrupt is the timer tick exactly when its code is 7. Higher values, which carry bits above
/// bit 31, are exceptions whose code is the value's low 31 bits.
pub proof fn lemma_trap_of_cause(cause: usize)
    ensures
        cause < 0x8000_0000 ==> trap_of(cause) == (Trap::Exception { code: cause }),
        0x8000_0000 <= cause < 0x1_0000_0000 && cause - 0x8000_0000 == 7 ==> trap_of(cause)
            == Trap::TimerTick,
        0x8000_0000 <= cause < 0x1_0000_0000 && cause - 0x8000_0000 != 7 ==> trap_of(cause)
            == (Trap::Interrupt { code: (cause - 0x8000_0000) as usize }),
        cause >= 0x1_0000_0000 ==> trap_of(cause) is Exception && trap_of(cause)->Exception_code
            < 0x8000_0000 && (cause - trap_of(cause)->Exception_code) % 0x8000_0000 == 0,
{
    if 0x8000_0000 <= cause < 0x1_0000_0000 {
        assert(cause / 0x8000_0000 == 1);
        assert(cause % 0x8000_0000 == cause - 0x8000_0000);
    }
    if cause >= 0x1_0000_0000 {
        assert(cause / 0x8000_0000 >= 2);
        vstd::arithmetic::div_mod::lemma_fundamental_div_mod(cause as int, 0x8000_0000);
        vstd::arithmetic::div_mod::lemma_mod_multiples_basic(cause as int / 0x8000_0000, 0x8000_0000);
    }
}

/// The report line for a standard exception code; other codes have none.
pub open spec fn exception_report_spec(code: usize) -> Option<&'static str> {
    if code == 0 {
        Some("-> Code 0 : Adresse d'instruction non alignee")
    } else if code == 1 {
        Some("-> Code 1 : Defaut d'acces a l'instruction")
    } else if code == 2 {
        Some("-> Code 2 : Instruction illegale")
    } else if code == 3 {
        Some("-> Code 3 : Point d'arret (Breakpoint)")
    } else if code == 4 {
        Some("-> Code 4 : Adresse de lecture non alignee")
    } else if code == 5 {
        Some("-> Code 5 : Defaut d'acces en lecture (Load access fault)")
    } else if code == 6 {
        Some("-> Code 6 : Adresse d'ecriture non alignee")
    } else if code == 7 {
        Some("-> Code 7 : Defaut d'acces en ecriture (Store access fault)")
    } else if code == 8 {
        Some("-> Code 8 : Appel systeme depuis le mode U (User)")
    } else if code == 9 {
        Some("-> Code 9 : Appel systeme depuis le mode S (Supervisor)")
    } else if code == 11 {
        Some("-> Code 11 : Appel systeme depuis le mode M (Machine)")
    } else if code == 12 {
        Some("-> Code 12 : Defaut de page de l'instruction")
    } else if code == 13 {
        Some("-> Code 13 : Defaut de page en lecture")
    } else if code == 15 {
        Some("-> Code 15 : Defaut de page en ecriture")
    } else {
        None
    }
}

/// The report line for the exception with code `code`, or `None` for a code the machine does
/// not define.
pub fn exception_report(code: usize) -> (report: Option<&'static str>)
    ensures
        report == exception_report_spec(code),
{
    match code {
        0 => Some("-> Code 0 : Adresse d'instruction non alignee"),
        1 => Some("-> Code 1 : Defaut d'acces a l'instruction"),
        2 => Some("-> Code 2 : Instruction illegale"),
        3 => Some("-> Code 3 : Point d'arret (Breakpoint)"),
        4 => Some("-> Code 4 : Adresse de lecture non alignee"),
        5 => Some("-> Code 5 : Defaut d'acces en lecture (Load access fault)"),
        6 => Some("-> Code 6 : Adresse d'ecriture non alignee"),
        7 => Some("-> Code 7 : Defaut d'acces en ecriture (Store access fault)"),
        8 => Some("-> Code 8 : Appel systeme depuis le mode U (User)"),
        9 => Some("-> Code 9 : Appel systeme depuis le mode S (Supervisor)"),
        11 => Some("-> Code 11 : Appel systeme depuis le mode M (Machine)"),
        12 => Some("-> Code 12 : Defaut de page de l'instruction"),
        13 => Some("-> Code 13 : Defaut de page en lecture"),
        15 => Some("-> Code 15 : Defaut de page en ecriture"),
        _ => None,
    }
}

} // verus!
