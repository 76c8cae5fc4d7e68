//! Reducing the coverage kept with a case to what its failure, or its
//! difference from the initial case, is responsible for.
use std::collections::HashSet;
use vstd::prelude::*;
use vstd::slice::slice_to_vec;

use crate::coverage::Coverages;
use crate::inst::{halfword_at, inst_fits_at, inst_len_of};
use crate::reduce::{nop_inst_at, with_nop, ExitStatus};
use crate::state_tracker::{PCState, StateTracker, StateTrackers};

verus! {

/// How many entries of the trace executed `pc`.
pub open spec fn pc_count(s: Seq<PCState>, pc: u64) -> nat {
    s.filter(|st: PCState| st.value == pc).len()
}

/// Whether the trace executed `pc` more than once.
pub fn pc_appears_more_than_once(pc_tracker: &StateTracker<PCState>, pc: u64) -> (b: bool)
    ensures
        b == (pc_count(pc_tracker.states(), pc) > 1),
{
    let pcs = pc_tracker.as_slice();
    let mut count: usize = 0;
    let mut i: usize = 0;
    while i < pcs.len()
        invariant
            i <= pcs@.len(),
            count == pcs@.take(i as int).filter(|st: PCState| st.value == pc).len(),
            count <= i,
        decreases pcs@.len() - i,
    {
        proof {
            pcs@.take(i as int).lemma_filter_len_push(|st: PCState| st.value == pc, pcs@[i as int]);
            assert(pcs@.take(i + 1) =~= pcs@.take(i as int).push(pcs@[i as int]));
        }
        if pcs[i].value == pc {
            count += 1;
        }
        i += 1;
    }
    proof {
        assert(pcs@.take(i as int) =~= pcs@);
    }
    count > 1
}

/// The pcs executed from index `prefix_len` on.
pub fn suffix_pcs(pc_tracker: &StateTracker<PCState>, prefix_len: usize) -> (r: HashSet<u64>)
    ensures
        forall|v: u64|
            r@.contains(v) <==> exists|j: int|
                prefix_len <= j < pc_tracker.states().len() && #[trigger] pc_tracker.states()[j].value
                    == v,
{
    let pcs = pc_tracker.as_slice();
    let mut set: HashSet<u64> = HashSet::new();
    let mut i = prefix_len;
    while i < pcs.len()
        invariant
            prefix_len <= i,
            pcs@ == pc_tracker.states(),
            forall|v: u64|
                set@.contains(v) <==> exists|j: int|
                    prefix_len <= j < i && j < pcs@.len() && #[trigger] pcs@[j].value == v,
        decreases pcs@.len() - i,
    {
        set.insert(pcs[i].value);
        proof {
            assert forall|v: u64| set@.contains(v) <==> exists|j: int|
                prefix_len <= j < i + 1 && j < pcs@.len() && #[trigger] pcs@[j].value == v by {
                if v == pcs@[i as int].value {
                    assert(pcs@[i as int].value == v);
                }
            }
        }
        i += 1;
    }
    set
}

/// `input` with a no-op written over the instruction at each of the first
/// `n` offsets, in order, each instruction's length read from `input`.
pub open spec fn nops_at(input: Seq<u8>, offsets: Seq<usize>, n: nat) -> Seq<u8>
    decreases n,
{
    if n == 0 {
        input
    } else {
        let off = offsets[n - 1] as int;
        with_nop(nops_at(input, offsets, (n - 1) as nat), off, inst_len_of(halfword_at(input, off)) as int)
    }
}

/// `input` with the instructions at `offsets` replaced by no-ops.
pub fn nopped_at_offsets(input: &[u8], offsets: &[usize]) -> (r: Vec<u8>)
    requires
        forall|i: int| 0 <= i < offsets@.len() ==> inst_fits_at(input@, #[trigger] offsets@[i] as int),
    ensures
        r@ == nops_at(input@, offsets@, offsets@.len()),
{
    let mut bytes = slice_to_vec(input);
    let mut i: usize = 0;
    while i < offsets.len()
        invariant
            i <= offsets@.len(),
            forall|k: int| 0 <= k < offsets@.len() ==> inst_fits_at(input@, #[trigger] offsets@[k] as int),
            bytes@ == nops_at(input@, offsets@, i as nat),
            bytes@.len() == input@.len(),
        decreases offsets@.len() - i,
    {
        assert(inst_fits_at(input@, offsets@[i as int] as int));
        nop_inst_at(bytes.as_mut_slice(), input, offsets[i]);
        i += 1;
    }
    bytes
}

/// The length of the longest common prefix of the two traces in which the
/// passing run executed no mutated pc.
pub open spec fn common_prefix_spec(
    init: Seq<PCState>,
    pass: Seq<PCState>,
    mutated: Set<u64>,
    n: nat,
) -> bool {
    &&& n <= init.len()
    &&& n <= pass.len()
    &&& forall|i: int|
        0 <= i < n ==> #[trigger] init[i] == pass[i] && !mutated.contains(pass[i].value)
    &&& (n < init.len() && n < pass.len()) ==> (init[n as int] != pass[n as int] || mutated.contains(
        pass[n as int].value,
    ))
}

/// How many first instructions the initial and the passing run share
/// before the passing run reaches a pc that a mutation touched.
pub fn common_prefix_len(
    init_pc_tracker: &StateTracker<PCState>,
    pass_pc_tracker: &StateTracker<PCState>,
    mutated_pcs: &HashSet<u64>,
) -> (n: usize)
    ensures
        common_prefix_spec(
            init_pc_tracker.states(),
            pass_pc_tracker.states(),
            mutated_pcs@,
            n as nat,
        ),
{
    let init = init_pc_tracker.as_slice();
    let pass = pass_pc_tracker.as_slice();
    let mut n: usize = 0;
    while n < init.len() && n < pass.len() && init[n].value == pass[n].value
        && !mutated_pcs.contains(&pass[n].value)
        invariant
            n <= init@.len(),
            n <= pass@.len(),
            forall|i: int| 0 <= i < n ==> #[trigger] init@[i] == pass@[i],
            forall|i: int| 0 <= i < n ==> !mutated_pcs@.contains(#[trigger] pass@[i].value),
        decreases init@.len() - n,
    {
        assert(init@[n as int] == pass@[n as int]);
        assert(!mutated_pcs@.contains(pass@[n as int].value));
        n += 1;
    }
    proof {
        if n < init@.len() && n < pass@.len() && init@[n as int] == pass@[n as int] {
            assert(init@[n as int].value == pass@[n as int].value);
        }
    }
    n
}

/// Index `i` of the first `p` entries executes a pc that the entries from
/// `p` on execute again.
pub open spec fn conflict_at(s: Seq<PCState>, p: int, i: int) -> bool {
    &&& 0 <= i < p
    &&& i < s.len()
    &&& exists|j: int| p <= j < s.len() && #[trigger] s[j].value == s[i].value
}

/// The first conflicting index, if any.
pub open spec fn first_conflict(s: Seq<PCState>, p: int) -> Option<int> {
    if exists|i: int| #[trigger] conflict_at(s, p, i) {
        Some(
            choose|i: int| #[trigger]
                conflict_at(s, p, i) && forall|k: int| 0 <= k < i ==> !conflict_at(s, p, k),
        )
    } else {
        None
    }
}

/// The prefix length that the search settles on, from `p`: shortened to the
/// first conflict until none is left.
pub open spec fn preserve_fix(s: Seq<PCState>, p: nat) -> nat
    decreases p,
{
    match first_conflict(s, p as int) {
        None => p,
        Some(c) => if 0 <= c < p {
            preserve_fix(s, c as nat)
        } else {
            p
        },
    }
}

proof fn lemma_first_conflict_is(s: Seq<PCState>, p: int, c: int)
    requires
        conflict_at(s, p, c),
        forall|k: int| 0 <= k < c ==> !#[trigger] conflict_at(s, p, k),
    ensures
        first_conflict(s, p) == Some(c),
{
    let d = choose|i: int| #[trigger]
        conflict_at(s, p, i) && forall|k: int| 0 <= k < i ==> !conflict_at(s, p, k);
    if d < c {
        assert(!conflict_at(s, p, d));
    } else if d > c {
        assert(!conflict_at(s, p, c));
    }
}

/// The first index below `p` whose pc the entries from `p` on execute
/// again.
fn first_conflict_index(pass_pc_tracker: &StateTracker<PCState>, p: usize) -> (r: Option<usize>)
    ensures
        match r {
            Some(c) => conflict_at(pass_pc_tracker.states(), p as int, c as int) && forall|k: int|
                0 <= k < c ==> !#[trigger] conflict_at(pass_pc_tracker.states(), p as int, k),
            None => forall|k: int| !#[trigger] conflict_at(pass_pc_tracker.states(), p as int, k),
        },
{
    let pcs = pass_pc_tracker.as_slice();
    let ghost s = pcs@;
    let suffix = suffix_pcs(pass_pc_tracker, p);
    let mut i: usize = 0;
    while i < p && i < pcs.len()
        invariant
            i <= p,
            s == pcs@,
            s == pass_pc_tracker.states(),
            forall|v: u64|
                suffix@.contains(v) <==> exists|j: int| p <= j < s.len() && #[trigger] s[j].value == v,
            forall|k: int| 0 <= k < i ==> !#[trigger] conflict_at(s, p as int, k),
        decreases p - i,
    {
        if suffix.contains(&pcs[i].value) {
            proof {
                assert(suffix@.contains(s[i as int].value));
                assert(conflict_at(s, p as int, i as int));
            }
            return Some(i);
        }
        proof {
            assert(!conflict_at(s, p as int, i as int)) by {
                if conflict_at(s, p as int, i as int) {
                    let j = choose|j: int| p <= j < s.len() && #[trigger] s[j].value == s[i as int].value;
                    assert(suffix@.contains(s[i as int].value));
                }
            }
        }
        i += 1;
    }
    proof {
        assert forall|k: int| !#[trigger] conflict_at(s, p as int, k) by {
            if conflict_at(s, p as int, k) {
                assert(k < i);
            }
        }
    }
    None
}

/// No pc of the first `p` entries is executed again from entry `p` on.
pub open spec fn prefix_preserved(s: Seq<PCState>, p: int) -> bool {
    forall|i: int, j: int| 0 <= i < p && p <= j < s.len() ==> #[trigger] s[i].value != #[trigger] s[j].value
}

proof fn lemma_minimal_conflict(s: Seq<PCState>, p: int, i: int)
    requires
        conflict_at(s, p, i),
    ensures
        exists|m: int| #[trigger]
            conflict_at(s, p, m) && forall|k: int| 0 <= k < m ==> !conflict_at(s, p, k),
    decreases i,
{
    if exists|k: int| 0 <= k < i && #[trigger] conflict_at(s, p, k) {
        let k = choose|k: int| 0 <= k < i && #[trigger] conflict_at(s, p, k);
        lemma_minimal_conflict(s, p, k);
    } else {
        assert(conflict_at(s, p, i) && forall|k: int| 0 <= k < i ==> !conflict_at(s, p, k));
    }
}

/// The prefix length the search settles on from `p` is the longest one up
/// to `p` that no later entry repeats a pc of: every length between it and
/// `p` has a pc executed again after it.
pub proof fn lemma_preserve_fix_longest(s: Seq<PCState>, p: nat, q: int)
    requires
        preserve_fix(s, p) < q <= p,
    ensures
        !prefix_preserved(s, q),
    decreases p,
{
    match first_conflict(s, p as int) {
        None => {},
        Some(c) => {
            let i = choose|i: int| #[trigger] conflict_at(s, p as int, i);
            lemma_minimal_conflict(s, p as int, i);
            assert(conflict_at(s, p as int, c));
            if c < q {
                let j = choose|j: int| p <= j < s.len() && #[trigger] s[j].value == s[c].value;
                assert(s[c].value == s[j].value);
            } else {
                lemma_preserve_fix_longest(s, c as nat, q);
            }
        },
    }
}

/// The longest prefix, starting from `prefix_len` and shortened to each
/// first conflict in turn, none of whose pcs the rest of the run executes
/// again: the suffix can then be replaced by no-ops without touching the
/// prefix.
pub fn max_prefix_len_preserving_suffix_nop(pass_pc_tracker: &StateTracker<PCState>, prefix_len: usize) -> (r:
    usize)
    ensures
        r == preserve_fix(pass_pc_tracker.states(), prefix_len as nat),
        r <= prefix_len,
        forall|i: int, j: int|
            0 <= i < r && r <= j < pass_pc_tracker.states().len() ==> #[trigger] pass_pc_tracker.states()[i].value
                != #[trigger] pass_pc_tracker.states()[j].value,
        forall|q: int| r < q <= prefix_len ==> !#[trigger] prefix_preserved(pass_pc_tracker.states(), q),
{
    let pcs = pass_pc_tracker.as_slice();
    let ghost s = pcs@;
    let mut p = prefix_len;
    loop
        invariant
            s == pcs@,
            s == pass_pc_tracker.states(),
            p <= prefix_len,
            preserve_fix(s, p as nat) == preserve_fix(s, prefix_len as nat),
        decreases p,
    {
        let conflict = first_conflict_index(pass_pc_tracker, p);
        match conflict {
            None => {
                proof {
                    assert(first_conflict(s, p as int) is None);
                    assert forall|a: int, b: int|
                        0 <= a < p && p <= b < s.len() implies #[trigger] s[a].value
                        != #[trigger] s[b].value by {
                        if s[a].value == s[b].value {
                            assert(conflict_at(s, p as int, a));
                        }
                    }
                    assert forall|q: int| preserve_fix(s, prefix_len as nat) < q <= prefix_len implies
                        !#[trigger] prefix_preserved(s, q) by {
                        lemma_preserve_fix_longest(s, prefix_len as nat, q);
                    }
                }
                return p;
            },
            Some(c) => {
                proof {
                    lemma_first_conflict_is(s, p as int, c as int);
                }
                p = c;
            },
        }
    }
}

/// What the failure of an initial case is narrowed to: its last pc, to be
/// replaced by a no-op, and how many instructions the run without it
/// executes. `None` when the trace is too short, or the last pc was
/// executed more than once, so that no single instruction stands for the
/// failure.
pub fn init_cover_target(trackers: &StateTrackers) -> (r: Option<(u64, usize)>)
    requires
        trackers.consistent(),
    ensures
        ({
            let s = trackers.pc_tracker.states();
            if trackers.max_len() <= 1 || s.len() == 0 || pc_count(s, s.last().value) > 1 {
                r is None
            } else {
                r == Some((s.last().value, (trackers.max_len() - 1) as usize))
            }
        }),
{
    let original_len = trackers.len();
    if original_len <= 1 {
        return None;
    }
    let pcs = trackers.pc_tracker.as_slice();
    if pcs.len() == 0 {
        return None;
    }
    let last_pc = pcs[pcs.len() - 1].value;
    if pc_appears_more_than_once(&trackers.pc_tracker, last_pc) {
        return None;
    }
    Some((last_pc, original_len - 1))
}

/// The coverage of an initial case after its last instruction was replaced
/// by a no-op and run again: the new run's coverage if it still crashed,
/// else what the original run covered beyond it.
pub fn combine_init_cover(covers: &Coverages, nopped_covers: Coverages, exit: ExitStatus) -> (r:
    Coverages)
    requires
        exit != ExitStatus::Other,
        nopped_covers.wf(),
    ensures
        exit == ExitStatus::Crash ==> r == nopped_covers,
        exit == ExitStatus::Success ==> r.entries().len() == covers.entries().len() && forall|
            i: int,
        |
            0 <= i < covers.entries().len() ==> (#[trigger] r.entries()[i]).0@ == covers.entries()[i].0@
                && match nopped_covers.coverage_of(covers.entries()[i].0@) {
                None => r.entries()[i].1.counts() == covers.entries()[i].1.counts(),
                Some(o) => r.entries()[i].1.counts() == crate::coverage::sub_counts(
                    covers.entries()[i].1,
                    o,
                ),
            },
{
    match exit {
        ExitStatus::Crash => nopped_covers,
        _ => covers.saturating_sub(&nopped_covers),
    }
}

/// Where the coverage reduction of a passing case starts: the common
/// prefix with the initial run, shortened until no prefix pc comes back in
/// the rest. `None` without a record of the mutated pcs.
pub fn pass_cover_start(
    init_pc_tracker: &StateTracker<PCState>,
    pass_pc_tracker: &StateTracker<PCState>,
    mutated_pcs: &Option<HashSet<u64>>,
) -> (r: Option<usize>)
    ensures
        match mutated_pcs {
            None => r is None,
            Some(m) => if m@.len() == 0 {
                r is None
            } else {
                exists|n: nat|
                    common_prefix_spec(init_pc_tracker.states(), pass_pc_tracker.states(), m@, n)
                        && r == Some(preserve_fix(pass_pc_tracker.states(), n) as usize)
            },
        },
{
    match mutated_pcs {
        None => None,
        Some(m) => {
            if m.len() == 0 {
                return None;
            }
            let n = common_prefix_len(init_pc_tracker, pass_pc_tracker, m);
            Some(max_prefix_len_preserving_suffix_nop(pass_pc_tracker, n))
        },
    }
}

/// What the coverage reduction of a passing case does next.
#[derive(Clone, Copy, Debug, PartialEq, Eq, Structural)]
pub enum PassCoverDecision {
    /// Subtract the coverage of the run of the common prefix.
    Subtract,
    /// Try again with this shorter prefix.
    Retry(usize),
    /// No stable common prefix is left.
    GiveUp,
}

/// After running the common prefix of `prefix_len` instructions with the
/// rest replaced by no-ops: a passing run is subtracted; a crash shortens
/// the prefix by one and past the next conflict.
pub fn pass_cover_decide(pass_pc_tracker: &StateTracker<PCState>, prefix_len: usize, exit: ExitStatus) -> (r:
    PassCoverDecision)
    requires
        prefix_len > 0,
        exit != ExitStatus::Other,
    ensures
        exit == ExitStatus::Success ==> r == PassCoverDecision::Subtract,
        exit == ExitStatus::Crash ==> ({
            let p = preserve_fix(pass_pc_tracker.states(), (prefix_len - 1) as nat);
            if p > 0 {
                r == PassCoverDecision::Retry(p as usize)
            } else {
                r == PassCoverDecision::GiveUp
            }
        }),
{
    match exit {
        ExitStatus::Success => PassCoverDecision::Subtract,
        _ => {
            let p = max_prefix_len_preserving_suffix_nop(pass_pc_tracker, prefix_len - 1);
            if p > 0 {
                PassCoverDecision::Retry(p)
            } else {
                PassCoverDecision::GiveUp
            }
        },
    }
}

} // verus!
