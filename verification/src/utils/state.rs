use crate::utils::text::str_eq;
use vstd::prelude::*;

verus! {

/// The parameters of the compiler's code generation that assembly blocks are laid out for.
#[derive(Debug, Clone)]
pub struct GlobalState {
    pub min_instr_count: usize,
    pub skip_instr_count: usize,
    pub use_jtbl_for_rodata: bool,
    pub prelude_if_late_rodata: usize,
    pub mips1: bool,
    pub pascal: bool,
    /// The last number given out for a placeholder name.
    pub namectr: usize,
}

/// Whether `opt` names an optimization level: O0, O1, O2, g or g3.
pub open spec fn is_opt_level(opt: Seq<char>) -> bool {
    opt == "O0"@ || opt == "O1"@ || opt == "O2"@ || opt == "g"@ || opt == "g3"@
}

/// The minimum and skipped instruction counts of a function for an optimization level and
/// frame pointer setting, before any KPIC adjustment.
pub open spec fn base_instr_counts(opt: Seq<char>, framepointer: bool) -> (int, int) {
    if opt == "O1"@ || opt == "O2"@ {
        if framepointer { (6, 5) } else { (2, 1) }
    } else if opt == "O0"@ {
        if framepointer { (8, 8) } else { (4, 4) }
    } else if opt == "g"@ {
        if framepointer { (7, 7) } else { (4, 4) }
    } else {
        if framepointer { (4, 4) } else { (2, 2) }
    }
}

impl GlobalState {
    pub fn new(
        min_instr_count: usize,
        skip_instr_count: usize,
        use_jtbl_for_rodata: bool,
        prelude_if_late_rodata: usize,
        mips1: bool,
        pascal: bool,
    ) -> (s: Self)
        ensures
            s.min_instr_count == min_instr_count,
            s.skip_instr_count == skip_instr_count,
            s.use_jtbl_for_rodata == use_jtbl_for_rodata,
            s.prelude_if_late_rodata == prelude_if_late_rodata,
            s.mips1 == mips1,
            s.pascal == pascal,
            s.namectr == 0,
    {
        Self {
            min_instr_count,
            skip_instr_count,
            use_jtbl_for_rodata,
            prelude_if_late_rodata,
            mips1,
            pascal,
            namectr: 0,
        }
    }

    /// A fresh number for a placeholder name: one more than the last.
    pub fn get_next_id(&mut self) -> (id: usize)
        requires
            old(self).namectr < usize::MAX,
        ensures
            id == old(self).namectr + 1,
            *final(self) == (GlobalState { namectr: id, ..*old(self) }),
    {
        self.namectr = self.namectr + 1;
        self.namectr
    }

    /// The state for an optimization level and flags: instruction counts from the level and
    /// the frame pointer setting, raised by three with KPIC below -O2 (with -O2 or -g3, KPIC
    /// instead sets a prelude of three instructions when there is late rodata), and jump
    /// tables in rodata at -O2 or -g3 without frame pointer or KPIC.
    pub fn from_opts(opt: &str, framepointer: bool, mips1: bool, kpic: bool, pascal: bool) -> (s: Self)
        requires
            is_opt_level(opt@),
        ensures
            ({
                let (min, skip) = base_instr_counts(opt@, framepointer);
                let hi = opt@ == "g3"@ || opt@ == "O2"@;
                &&& s.min_instr_count == if kpic && !hi { min + 3 } else { min }
                &&& s.skip_instr_count == if kpic && !hi { skip + 3 } else { skip }
                &&& s.prelude_if_late_rodata == if kpic && hi { 3int } else { 0int }
                &&& s.use_jtbl_for_rodata == (hi && !framepointer && !kpic)
                &&& s.mips1 == mips1
                &&& s.pascal == pascal
                &&& s.namectr == 0
            }),
    {
        let o1 = str_eq(opt, "O1");
        let o2 = str_eq(opt, "O2");
        let o0 = str_eq(opt, "O0");
        let g = str_eq(opt, "g");
        let g3 = str_eq(opt, "g3");
        proof {
            reveal_strlit("O1");
            reveal_strlit("O2");
            reveal_strlit("O0");
            reveal_strlit("g");
            reveal_strlit("g3");
        }
        let (mut min_instr_count, mut skip_instr_count): (usize, usize) = if o1 || o2 {
            if framepointer { (6, 5) } else { (2, 1) }
        } else if o0 {
            if framepointer { (8, 8) } else { (4, 4) }
        } else if g {
            if framepointer { (7, 7) } else { (4, 4) }
        } else {
            if framepointer { (4, 4) } else { (2, 2) }
        };
        let prelude_if_late_rodata: usize = if kpic {
            if g3 || o2 {
                3
            } else {
                min_instr_count += 3;
                skip_instr_count += 3;
                0
            }
        } else {
            0
        };
        let use_jtbl_for_rodata = (o2 || g3) && !framepointer && !kpic;
        Self::new(
            min_instr_count,
            skip_instr_count,
            use_jtbl_for_rodata,
            prelude_if_late_rodata,
            mips1,
            pascal,
        )
    }
}

} // verus!
