//! Architectural-state sequences recorded per executed instruction.
use vstd::prelude::*;
use vstd::std_specs::iter::IteratorSpec;
use vstd::string::StrSliceExecFns;

verus! {

/// The pc before an executed instruction.
#[derive(Clone, Copy, Debug, PartialEq, Eq, Structural)]
pub struct PCState {
    pub value: u64,
}

/// The 32 integer registers before an executed instruction.
#[derive(Clone, Copy, Debug)]
pub struct ArchIntRegState {
    pub value: [u64; 32],
}

/// The privilege mode and machine/supervisor CSRs before an executed
/// instruction.
#[derive(Clone, Copy, Debug, PartialEq, Eq, Structural)]
pub struct CSRState {
    pub privilege_mode: u64,
    pub mstatus: u64,
    pub sstatus: u64,
    pub mepc: u64,
    pub sepc: u64,
    pub mtval: u64,
    pub stval: u64,
    pub mtvec: u64,
    pub stvec: u64,
    pub mcause: u64,
    pub scause: u64,
    pub satp: u64,
    pub mip: u64,
    pub mie: u64,
    pub mscratch: u64,
    pub sscratch: u64,
    pub mideleg: u64,
    pub medeleg: u64,
}

/// Number of positions `i < n` where `a[i] != b[i]`.
pub open spec fn count_diff(a: Seq<u64>, b: Seq<u64>, n: nat) -> nat
    decreases n,
{
    if n == 0 {
        0
    } else {
        count_diff(a, b, (n - 1) as nat) + if a[n - 1] != b[n - 1] {
            1nat
        } else {
            0nat
        }
    }
}

pub open spec fn ne(a: u64, b: u64) -> nat {
    if a != b {
        1
    } else {
        0
    }
}

impl ArchIntRegState {
    /// Number of the 32 registers that differ between the two states.
    pub fn differing_regs(&self, other: &Self) -> (n: usize)
        ensures
            n == count_diff(self.value@, other.value@, 32),
            n <= 32,
    {
        let mut n: usize = 0;
        let mut i: usize = 0;
        while i < 32
            invariant
                i <= 32,
                n == count_diff(self.value@, other.value@, i as nat),
                n <= i,
            decreases 32 - i,
        {
            if self.value[i] != other.value[i] {
                n += 1;
            }
            i += 1;
        }
        n
    }
}

impl CSRState {
    /// How many of the 17 compared fields differ: the privilege mode and
    /// all CSRs except `sstatus`.
    pub open spec fn diff_count(self, other: Self) -> nat {
        ne(self.privilege_mode, other.privilege_mode) + ne(self.mstatus, other.mstatus) + ne(
            self.mepc,
            other.mepc,
        ) + ne(self.sepc, other.sepc) + ne(self.mtval, other.mtval) + ne(self.stval, other.stval)
            + ne(self.mtvec, other.mtvec) + ne(self.stvec, other.stvec) + ne(
            self.mcause,
            other.mcause,
        ) + ne(self.scause, other.scause) + ne(self.satp, other.satp) + ne(self.mip, other.mip)
            + ne(self.mie, other.mie) + ne(self.mscratch, other.mscratch) + ne(
            self.sscratch,
            other.sscratch,
        ) + ne(self.mideleg, other.mideleg) + ne(self.medeleg, other.medeleg)
    }

    /// Number of differing fields among the 17 that the state distance
    /// compares.
    pub fn differing_fields(&self, other: &Self) -> (n: u32)
        ensures
            n == self.diff_count(*other),
            n <= 17,
    {
        let d0 = ne_u32(self.privilege_mode, other.privilege_mode);
        let d1 = ne_u32(self.mstatus, other.mstatus);
        let d2 = ne_u32(self.mepc, other.mepc);
        let d3 = ne_u32(self.sepc, other.sepc);
        let d4 = ne_u32(self.mtval, other.mtval);
        let d5 = ne_u32(self.stval, other.stval);
        let d6 = ne_u32(self.mtvec, other.mtvec);
        let d7 = ne_u32(self.stvec, other.stvec);
        let d8 = ne_u32(self.mcause, other.mcause);
        let d9 = ne_u32(self.scause, other.scause);
        let d10 = ne_u32(self.satp, other.satp);
        let d11 = ne_u32(self.mip, other.mip);
        let d12 = ne_u32(self.mie, other.mie);
        let d13 = ne_u32(self.mscratch, other.mscratch);
        let d14 = ne_u32(self.sscratch, other.sscratch);
        let d15 = ne_u32(self.mideleg, other.mideleg);
        let d16 = ne_u32(self.medeleg, other.medeleg);
        d0 + d1 + d2 + d3 + d4 + d5 + d6 + d7 + d8 + d9 + d10 + d11 + d12 + d13 + d14 + d15 + d16
    }
}

/// 1 when the values differ, else 0.
pub fn ne_u32(a: u64, b: u64) -> (r: u32)
    ensures
        r == ne(a, b),
{
    if a != b {
        1
    } else {
        0
    }
}

/// A named sequence of states, one per executed instruction.
#[derive(Clone, Debug)]
pub struct StateTracker<T> {
    name: String,
    tracker: Vec<T>,
}

impl<T> StateTracker<T> {
    pub closed spec fn name_view(&self) -> Seq<char> {
        self.name@
    }

    pub closed spec fn states(&self) -> Seq<T> {
        self.tracker@
    }

    /// An empty tracker called `name`.
    pub fn new(name: &str) -> (t: Self)
        ensures
            t.name_view() == name@,
            t.states() == Seq::<T>::empty(),
    {
        Self { name: name.to_owned(), tracker: Vec::new() }
    }

    /// Replaces the recorded states, keeping the name.
    pub fn update_from_states(&mut self, states: Vec<T>)
        ensures
            final(self).name_view() == old(self).name_view(),
            final(self).states() == states@,
    {
        self.tracker = states;
    }

    pub fn name(&self) -> (s: &str)
        ensures
            s@ == self.name_view(),
    {
        self.name.as_str()
    }

    pub fn len(&self) -> (n: usize)
        ensures
            n == self.states().len(),
    {
        self.tracker.len()
    }

    /// Iterates over the states in order.
    pub fn iter(&self) -> (it: std::slice::Iter<'_, T>)
        ensures
            it.remaining() == self.states().as_ref(),
    {
        self.tracker.as_slice().iter()
    }

    /// Iterates over the states in order, consuming the tracker.
    pub fn into_iter(self) -> (it: std::vec::IntoIter<T>)
        ensures
            it.remaining() == self.states(),
    {
        self.tracker.into_iter()
    }

    pub fn as_slice(&self) -> (s: &[T])
        ensures
            s@ == self.states(),
    {
        self.tracker.as_slice()
    }

    pub fn as_mut_slice(&mut self) -> (s: &mut [T])
        ensures
            s@ == old(self).states(),
            final(s)@ == final(self).states(),
            final(self).name_view() == old(self).name_view(),
    {
        self.tracker.as_mut_slice()
    }
}

impl<T: Copy> StateTracker<T> {
    /// The same tracker without its first `drop` states.
    pub fn without_first(&self, drop: usize) -> (t: Self)
        requires
            drop <= self.states().len(),
        ensures
            t.name_view() == self.name_view(),
            t.states() == self.states().skip(drop as int),
    {
        let mut tracker: Vec<T> = Vec::new();
        let mut i = drop;
        while i < self.tracker.len()
            invariant
                drop <= i <= self.tracker@.len(),
                tracker@ == self.tracker@.subrange(drop as int, i as int),
            decreases self.tracker@.len() - i,
        {
            tracker.push(self.tracker[i]);
            i += 1;
        }
        Self { name: self.name.clone(), tracker }
    }
}

/// `name` is one of `names`.
pub open spec fn names_contain(names: Seq<String>, name: Seq<char>) -> bool {
    exists|i: int| 0 <= i < names.len() && #[trigger] names[i]@ == name
}

/// Whether `name` is one of `names`.
pub fn contains_name(names: &Vec<String>, name: &str) -> (b: bool)
    ensures
        b == names_contain(names@, name@),
{
    let mut i: usize = 0;
    while i < names.len()
        invariant
            i <= names@.len(),
            forall|j: int| 0 <= j < i ==> #[trigger] names@[j]@ != name@,
        decreases names@.len() - i,
    {
        if str_eq(names[i].as_str(), name) {
            return true;
        }
        i += 1;
    }
    false
}

/// Equality of two string slices, character by character.
pub fn str_eq(a: &str, b: &str) -> (r: bool)
    ensures
        r == (a@ == b@),
{
    let n = a.unicode_len();
    if n != b.unicode_len() {
        return false;
    }
    let mut i: usize = 0;
    while i < n
        invariant
            i <= n,
            n == a@.len(),
            n == b@.len(),
            a@.subrange(0, i as int) == b@.subrange(0, i as int),
        decreases n - i,
    {
        if a.get_char(i) != b.get_char(i) {
            return false;
        }
        proof {
            assert(a@.subrange(0, i + 1) =~= a@.subrange(0, i as int).push(a@[i as int]));
            assert(b@.subrange(0, i + 1) =~= b@.subrange(0, i as int).push(b@[i as int]));
        }
        i += 1;
    }
    proof {
        assert(a@ =~= a@.subrange(0, n as int));
        assert(b@ =~= b@.subrange(0, n as int));
    }
    true
}

pub open spec fn max3(a: nat, b: nat, c: nat) -> nat {
    let m = if b >= c {
        b
    } else {
        c
    };
    if a >= m {
        a
    } else {
        m
    }
}

/// The pc, integer-register and CSR trackers of one run, and which of them
/// are enabled.
#[derive(Clone, Debug)]
pub struct StateTrackers {
    pub state_names: Vec<String>,
    pub pc_tracker: StateTracker<PCState>,
    pub arch_int_reg_tracker: StateTracker<ArchIntRegState>,
    pub csr_tracker: StateTracker<CSRState>,
}

impl StateTrackers {
    /// The longest of the three trackers.
    pub open spec fn max_len(self) -> nat {
        max3(
            self.pc_tracker.states().len(),
            self.arch_int_reg_tracker.states().len(),
            self.csr_tracker.states().len(),
        )
    }

    /// Every enabled tracker has the common length.
    pub open spec fn consistent(self) -> bool {
        &&& names_contain(self.state_names@, self.pc_tracker.name_view())
            ==> self.pc_tracker.states().len() == self.max_len()
        &&& names_contain(self.state_names@, self.arch_int_reg_tracker.name_view())
            ==> self.arch_int_reg_tracker.states().len() == self.max_len()
        &&& names_contain(self.state_names@, self.csr_tracker.name_view())
            ==> self.csr_tracker.states().len() == self.max_len()
    }

    /// Empty trackers named `PCState`, `ArchIntRegState` and `CSRState`, of
    /// which those in `state_names` are enabled.
    pub fn new(state_names: Vec<String>) -> (t: Self)
        ensures
            t.state_names@ == state_names@,
            t.pc_tracker.name_view() == "PCState"@,
            t.arch_int_reg_tracker.name_view() == "ArchIntRegState"@,
            t.csr_tracker.name_view() == "CSRState"@,
            t.pc_tracker.states().len() == 0,
            t.arch_int_reg_tracker.states().len() == 0,
            t.csr_tracker.states().len() == 0,
    {
        Self {
            state_names,
            pc_tracker: StateTracker::new("PCState"),
            arch_int_reg_tracker: StateTracker::new("ArchIntRegState"),
            csr_tracker: StateTracker::new("CSRState"),
        }
    }

    /// Number of recorded instructions: the longest tracker's length, which
    /// every enabled tracker shares.
    pub fn len(&self) -> (n: usize)
        requires
            self.consistent(),
        ensures
            n == self.max_len(),
    {
        let pc_len = self.pc_tracker.len();
        let arch_len = self.arch_int_reg_tracker.len();
        let csr_len = self.csr_tracker.len();
        let m = if arch_len >= csr_len {
            arch_len
        } else {
            csr_len
        };
        if pc_len >= m {
            pc_len
        } else {
            m
        }
    }

    /// The last `window_size` recorded instructions of every tracker.
    pub fn last_window(&self, window_size: usize) -> (t: Self)
        requires
            self.consistent(),
            self.pc_tracker.states().len() >= self.max_len() - window_size,
            self.arch_int_reg_tracker.states().len() >= self.max_len() - window_size,
            self.csr_tracker.states().len() >= self.max_len() - window_size,
        ensures
            ({
                let drop = if self.max_len() > window_size {
                    self.max_len() - window_size
                } else {
                    0
                };
                &&& t.state_names@ == self.state_names@
                &&& t.pc_tracker.name_view() == self.pc_tracker.name_view()
                &&& t.arch_int_reg_tracker.name_view() == self.arch_int_reg_tracker.name_view()
                &&& t.csr_tracker.name_view() == self.csr_tracker.name_view()
                &&& t.pc_tracker.states() == self.pc_tracker.states().skip(drop)
                &&& t.arch_int_reg_tracker.states() == self.arch_int_reg_tracker.states().skip(
                    drop,
                )
                &&& t.csr_tracker.states() == self.csr_tracker.states().skip(drop)
            }),
    {
        let drop = self.len().saturating_sub(window_size);
        let mut names: Vec<String> = Vec::new();
        let mut i: usize = 0;
        while i < self.state_names.len()
            invariant
                i <= self.state_names@.len(),
                names@ == self.state_names@.subrange(0, i as int),
            decreases self.state_names@.len() - i,
        {
            names.push(self.state_names[i].clone());
            i += 1;
        }
        Self {
            state_names: names,
            pc_tracker: self.pc_tracker.without_first(drop),
            arch_int_reg_tracker: self.arch_int_reg_tracker.without_first(drop),
            csr_tracker: self.csr_tracker.without_first(drop),
        }
    }
}

/// The three kinds of recorded state.
#[derive(Clone, Copy, Debug, PartialEq, Eq, Structural)]
pub enum TrackerKind {
    Pc,
    ArchIntReg,
    Csr,
}

/// The kind of state a tracker name stands for.
pub open spec fn tracker_kind_spec(name: Seq<char>) -> Option<TrackerKind> {
    if name == "PCState"@ {
        Some(TrackerKind::Pc)
    } else if name == "ArchIntRegState"@ {
        Some(TrackerKind::ArchIntReg)
    } else if name == "CSRState"@ {
        Some(TrackerKind::Csr)
    } else {
        None
    }
}

/// The kind of state a tracker name stands for; `None` for an unknown
/// name.
pub fn tracker_kind(name: &str) -> (r: Option<TrackerKind>)
    ensures
        r == tracker_kind_spec(name@),
{
    if str_eq(name, "PCState") {
        Some(TrackerKind::Pc)
    } else if str_eq(name, "ArchIntRegState") {
        Some(TrackerKind::ArchIntReg)
    } else if str_eq(name, "CSRState") {
        Some(TrackerKind::Csr)
    } else {
        None
    }
}

/// The recorded tracker of one kind of state, kept with a test case.
pub struct StateTrackerMetadata<T> {
    pub tracker: StateTracker<T>,
}

/// The recorded trackers, kept with a test case.
pub struct StateTrackersMetadata {
    pub trackers: StateTrackers,
}

} // verus!
