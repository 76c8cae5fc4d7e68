//! The spectrum of a cover point over the failing and passing cases, from
//! which suspiciousness scores are computed.
use vstd::prelude::*;

use crate::coverage::Coverages;
use crate::fuzzer::CaseMetadata;

verus! {

/// The formulas a suspiciousness score can be computed with.
#[derive(Clone, Copy, Debug, PartialEq, Eq, Structural)]
pub enum SpectrumMetric {
    Tarantula,
    Ochiai,
    Jaccard,
    Dstar,
    GP19,
    Barinel,
    Crosstab,
    Zoltar,
    Ample,
}

impl Default for SpectrumMetric {
    fn default() -> (m: Self)
        ensures
            m == SpectrumMetric::Ochiai,
    {
        SpectrumMetric::Ochiai
    }
}

/// How many failing (`ef`) and passing (`ep`) cases executed a point, and
/// how many did not (`nf`, `np`).
#[derive(Clone, Copy, Debug, PartialEq, Eq, Structural)]
pub struct CoverageStats {
    pub ef: usize,
    pub ep: usize,
    pub nf: usize,
    pub np: usize,
}

/// The point `i` of coverage `name` was hit in `case`.
pub open spec fn hit(case: CaseMetadata, name: Seq<char>, i: int) -> bool {
    case.covers.coverage_of(name).unwrap().counts()[i] != 0
}

/// The spectrum of point `i` over the first `n` cases.
pub open spec fn spectrum(cases: Seq<CaseMetadata>, name: Seq<char>, i: int, n: nat) -> (nat, nat, nat, nat)
    decreases n,
{
    if n == 0 {
        (0, 0, 0, 0)
    } else {
        let (ef, ep, nf, np) = spectrum(cases, name, i, (n - 1) as nat);
        let case = cases[n - 1];
        match (hit(case, name, i), case.is_passed) {
            (true, false) => (ef + 1, ep, nf, np),
            (true, true) => (ef, ep + 1, nf, np),
            (false, false) => (ef, ep, nf + 1, np),
            (false, true) => (ef, ep, nf, np + 1),
        }
    }
}

proof fn lemma_spectrum_total(cases: Seq<CaseMetadata>, name: Seq<char>, i: int, n: nat)
    ensures
        spectrum(cases, name, i, n).0 + spectrum(cases, name, i, n).1 + spectrum(cases, name, i, n).2
            + spectrum(cases, name, i, n).3 == n,
    decreases n,
{
    if n > 0 {
        lemma_spectrum_total(cases, name, i, (n - 1) as nat);
    }
}

/// Every case holds coverage `name` with `len` points.
pub open spec fn cases_have(cases: Seq<CaseMetadata>, name: Seq<char>, len: nat) -> bool {
    forall|k: int|
        0 <= k < cases.len() ==> (#[trigger] cases[k]).covers.wf() && cases[k].covers.coverage_of(
            name,
        ) is Some && cases[k].covers.coverage_of(name).unwrap().counts().len() == len
}

/// The spectrum of every point of coverage `cover_name` over the cases.
pub fn calculate_coverage_stats(cover_name: &str, len: usize, case_metas: &[CaseMetadata]) -> (r: Vec<
    CoverageStats,
>)
    requires
        cases_have(case_metas@, cover_name@, len as nat),
    ensures
        r@.len() == len,
        forall|i: int|
            0 <= i < len ==> {
                let s = spectrum(case_metas@, cover_name@, i, case_metas@.len());
                &&& (#[trigger] r@[i]).ef == s.0
                &&& r@[i].ep == s.1
                &&& r@[i].nf == s.2
                &&& r@[i].np == s.3
            },
{
    let mut stats: Vec<CoverageStats> = Vec::new();
    let mut i: usize = 0;
    while i < len
        invariant
            i <= len,
            stats@.len() == i,
            forall|k: int| 0 <= k < i ==> #[trigger] stats@[k] == (CoverageStats { ef: 0, ep: 0, nf: 0, np: 0 }),
        decreases len - i,
    {
        stats.push(CoverageStats { ef: 0, ep: 0, nf: 0, np: 0 });
        i += 1;
    }
    let n_cases = case_metas.len();
    let mut c: usize = 0;
    while c < n_cases
        invariant
            n_cases == case_metas@.len(),
            c <= case_metas@.len(),
            stats@.len() == len,
            cases_have(case_metas@, cover_name@, len as nat),
            forall|k: int|
                0 <= k < len ==> {
                    let s = spectrum(case_metas@, cover_name@, k, c as nat);
                    &&& (#[trigger] stats@[k]).ef == s.0
                    &&& stats@[k].ep == s.1
                    &&& stats@[k].nf == s.2
                    &&& stats@[k].np == s.3
                },
        decreases case_metas@.len() - c,
    {
        let case = &case_metas[c];
        assert(cases_have(case_metas@, cover_name@, len as nat));
        assert(case.covers.coverage_of(cover_name@) is Some);
        let bits = case.covers.get(cover_name).covered_bits();
        let is_passed = case.is_passed;
        let mut k: usize = 0;
        let ghost before = stats@;
        while k < len
            invariant
                k <= len,
                c < case_metas@.len(),
                n_cases == case_metas@.len(),
                stats@.len() == len,
                before.len() == len,
                bits@.len() == len,
                *case == case_metas@[c as int],
                is_passed == case.is_passed,
                forall|m: int| 0 <= m < len ==> #[trigger] bits@[m] == hit(*case, cover_name@, m),
                forall|m: int|
                    0 <= m < len ==> {
                        let s = spectrum(case_metas@, cover_name@, m, c as nat);
                        &&& (#[trigger] before[m]).ef == s.0
                        &&& before[m].ep == s.1
                        &&& before[m].nf == s.2
                        &&& before[m].np == s.3
                    },
                forall|m: int|
                    0 <= m < len ==> {
                        let s = spectrum(case_metas@, cover_name@, m, (if m < k { c + 1 } else { c as int }) as nat);
                        &&& (#[trigger] stats@[m]).ef == s.0
                        &&& stats@[m].ep == s.1
                        &&& stats@[m].nf == s.2
                        &&& stats@[m].np == s.3
                    },
            decreases len - k,
        {
            proof {
                lemma_spectrum_total(case_metas@, cover_name@, k as int, c as nat);
            }
            let mut st = stats[k];
            if bits[k] {
                if is_passed {
                    st.ep = st.ep + 1;
                } else {
                    st.ef = st.ef + 1;
                }
            } else {
                if is_passed {
                    st.np = st.np + 1;
                } else {
                    st.nf = st.nf + 1;
                }
            }
            stats.set(k, st);
            k += 1;
        }
        c += 1;
    }
    stats
}

} // verus!
