//! Coverage of one run: for each named coverage, a hit count (or flag) per
//! cover point, and what can be computed from them.
use vstd::prelude::*;
use vstd::std_specs::iter::IteratorSpec;

use crate::state_tracker::{names_contain, str_eq};

verus! {

/// A cover point's recorded value: a flag or a hit count.
pub trait CoveragePoint: Copy + Sized {
    /// The point's value as a count.
    spec fn count(self) -> nat;

    /// A point that was never hit.
    fn zero() -> (r: Self)
        ensures
            r.count() == 0,
    ;

    /// Whether the point was hit.
    fn is_covered(self) -> (b: bool)
        ensures
            b == (self.count() != 0),
    ;

    /// The point's value as a `u64`.
    fn as_u64(self) -> (r: u64)
        ensures
            r == self.count(),
    ;

    /// The hits of `self` that `other` does not account for.
    fn saturating_sub(self, other: Self) -> (r: Self)
        ensures
            r.count() == (if self.count() >= other.count() {
                self.count() - other.count()
            } else {
                0
            }),
    ;
}

impl CoveragePoint for bool {
    open spec fn count(self) -> nat {
        if self {
            1
        } else {
            0
        }
    }

    fn zero() -> (r: Self) {
        false
    }

    fn is_covered(self) -> (b: bool) {
        self
    }

    fn as_u64(self) -> (r: u64) {
        if self {
            1
        } else {
            0
        }
    }

    fn saturating_sub(self, other: Self) -> (r: Self) {
        self && !other
    }
}

impl CoveragePoint for u8 {
    open spec fn count(self) -> nat {
        self as nat
    }

    fn zero() -> (r: Self) {
        0
    }

    fn is_covered(self) -> (b: bool) {
        self != 0
    }

    fn as_u64(self) -> (r: u64) {
        self as u64
    }

    fn saturating_sub(self, other: Self) -> (r: Self) {
        if self >= other {
            self - other
        } else {
            0
        }
    }
}

impl CoveragePoint for u64 {
    open spec fn count(self) -> nat {
        self as nat
    }

    fn zero() -> (r: Self) {
        0
    }

    fn is_covered(self) -> (b: bool) {
        self != 0
    }

    fn as_u64(self) -> (r: u64) {
        self
    }

    fn saturating_sub(self, other: Self) -> (r: Self) {
        if self >= other {
            self - other
        } else {
            0
        }
    }
}

/// The recorded values of one coverage's points.
#[derive(Clone, Debug)]
pub struct Coverage<T> {
    point_counts: Vec<T>,
}

impl<T: CoveragePoint> Coverage<T> {
    pub closed spec fn points(self) -> Seq<T> {
        self.point_counts@
    }

    /// The points' values as counts.
    pub open spec fn counts(self) -> Seq<nat> {
        self.points().map_values(|p: T| p.count())
    }

    /// `n_cover` points, none hit.
    pub fn new(n_cover: usize) -> (c: Self)
        ensures
            c.points().len() == n_cover,
            forall|i: int| 0 <= i < n_cover ==> #[trigger] c.points()[i].count() == 0,
    {
        let mut point_counts: Vec<T> = Vec::new();
        let mut i: usize = 0;
        while i < n_cover
            invariant
                i <= n_cover,
                point_counts@.len() == i,
                forall|j: int| 0 <= j < i ==> #[trigger] point_counts@[j].count() == 0,
            decreases n_cover - i,
        {
            point_counts.push(T::zero());
            i += 1;
        }
        Self { point_counts }
    }

    pub fn len(&self) -> (n: usize)
        ensures
            n == self.points().len(),
    {
        self.point_counts.len()
    }

    pub fn as_slice(&self) -> (s: &[T])
        ensures
            s@ == self.points(),
    {
        self.point_counts.as_slice()
    }

    pub fn as_mut_slice(&mut self) -> (s: &mut [T])
        ensures
            s@ == old(self).points(),
            final(s)@ == final(self).points(),
    {
        self.point_counts.as_mut_slice()
    }

    /// For each point, whether it was hit.
    pub fn covered_bits(&self) -> (v: Vec<bool>)
        ensures
            v@.len() == self.points().len(),
            forall|i: int| 0 <= i < v@.len() ==> #[trigger] v@[i] == (self.points()[i].count() != 0),
    {
        let mut bits: Vec<bool> = Vec::new();
        let mut i: usize = 0;
        while i < self.point_counts.len()
            invariant
                i <= self.point_counts@.len(),
                bits@.len() == i,
                forall|j: int| 0 <= j < i ==> #[trigger] bits@[j] == (self.point_counts@[j].count() != 0),
            decreases self.point_counts@.len() - i,
        {
            bits.push(self.point_counts[i].is_covered());
            i += 1;
        }
        bits
    }

    /// Each point's value as a count.
    pub fn covered_counts(&self) -> (v: Vec<u64>)
        ensures
            v@.len() == self.points().len(),
            forall|i: int| 0 <= i < v@.len() ==> #[trigger] v@[i] == self.points()[i].count(),
    {
        let mut counts: Vec<u64> = Vec::new();
        let mut i: usize = 0;
        while i < self.point_counts.len()
            invariant
                i <= self.point_counts@.len(),
                counts@.len() == i,
                forall|j: int| 0 <= j < i ==> #[trigger] counts@[j] == self.point_counts@[j].count(),
            decreases self.point_counts@.len() - i,
        {
            counts.push(self.point_counts[i].as_u64());
            i += 1;
        }
        counts
    }

    /// Pointwise saturating difference; points past the end of `other`
    /// keep their value.
    pub fn saturating_sub(&self, other: &Self) -> (c: Self)
        ensures
            c.points().len() == self.points().len(),
            forall|i: int|
                0 <= i < self.points().len() ==> #[trigger] c.points()[i].count() == (if i
                    < other.points().len() {
                    if self.points()[i].count() >= other.points()[i].count() {
                        self.points()[i].count() - other.points()[i].count()
                    } else {
                        0
                    }
                } else {
                    self.points()[i].count() as int
                }),
    {
        let mut point_counts: Vec<T> = Vec::new();
        let mut i: usize = 0;
        while i < self.point_counts.len()
            invariant
                i <= self.point_counts@.len(),
                point_counts@.len() == i,
                forall|j: int|
                    0 <= j < i ==> #[trigger] point_counts@[j].count() == (if j
                        < other.point_counts@.len() {
                        if self.point_counts@[j].count() >= other.point_counts@[j].count() {
                            self.point_counts@[j].count() - other.point_counts@[j].count()
                        } else {
                            0
                        }
                    } else {
                        self.point_counts@[j].count() as int
                    }),
            decreases self.point_counts@.len() - i,
        {
            let p = self.point_counts[i];
            if i < other.point_counts.len() {
                point_counts.push(p.saturating_sub(other.point_counts[i]));
            } else {
                point_counts.push(p);
            }
            i += 1;
        }
        Self { point_counts }
    }
}

/// The width of a coverage's points.
#[derive(Clone, Copy, Debug, PartialEq, Eq, Structural)]
pub enum CoverageKind {
    Bool,
    U8,
    U64,
}

/// A coverage of any point width.
#[derive(Clone, Debug)]
pub enum AnyCoverage {
    Bool(Coverage<bool>),
    U8(Coverage<u8>),
    U64(Coverage<u64>),
}

impl AnyCoverage {
    /// The points' values as counts.
    pub open spec fn counts(self) -> Seq<nat> {
        match self {
            AnyCoverage::Bool(c) => c.counts(),
            AnyCoverage::U8(c) => c.counts(),
            AnyCoverage::U64(c) => c.counts(),
        }
    }

    pub open spec fn kind(self) -> CoverageKind {
        match self {
            AnyCoverage::Bool(_) => CoverageKind::Bool,
            AnyCoverage::U8(_) => CoverageKind::U8,
            AnyCoverage::U64(_) => CoverageKind::U64,
        }
    }

    /// `n_cover` unhit points of the given width.
    pub fn new(kind: CoverageKind, n_cover: usize) -> (c: Self)
        ensures
            c.kind() == kind,
            c.counts() == Seq::new(n_cover as nat, |i: int| 0nat),
    {
        let c = match kind {
            CoverageKind::Bool => AnyCoverage::Bool(Coverage::<bool>::new(n_cover)),
            CoverageKind::U8 => AnyCoverage::U8(Coverage::<u8>::new(n_cover)),
            CoverageKind::U64 => AnyCoverage::U64(Coverage::<u64>::new(n_cover)),
        };
        assert(c.counts() =~= Seq::new(n_cover as nat, |i: int| 0nat));
        c
    }

    pub fn len(&self) -> (n: usize)
        ensures
            n == self.counts().len(),
    {
        match self {
            AnyCoverage::Bool(c) => c.len(),
            AnyCoverage::U8(c) => c.len(),
            AnyCoverage::U64(c) => c.len(),
        }
    }

    /// For each point, whether it was hit.
    pub fn covered_bits(&self) -> (v: Vec<bool>)
        ensures
            v@ == self.counts().map_values(|n: nat| n != 0),
    {
        let v = match self {
            AnyCoverage::Bool(c) => c.covered_bits(),
            AnyCoverage::U8(c) => c.covered_bits(),
            AnyCoverage::U64(c) => c.covered_bits(),
        };
        assert(v@ =~= self.counts().map_values(|n: nat| n != 0));
        v
    }

    /// Each point's value as a count.
    pub fn covered_counts(&self) -> (v: Vec<u64>)
        ensures
            v@.map_values(|x: u64| x as nat) == self.counts(),
    {
        let v = match self {
            AnyCoverage::Bool(c) => c.covered_counts(),
            AnyCoverage::U8(c) => c.covered_counts(),
            AnyCoverage::U64(c) => c.covered_counts(),
        };
        assert(v@.map_values(|x: u64| x as nat) =~= self.counts());
        v
    }

    /// Pointwise saturating difference with a coverage of the same width;
    /// against another width the coverage is kept as it is.
    pub fn saturating_sub(&self, other: &Self) -> (c: Self)
        ensures
            c.kind() == self.kind(),
            c.counts().len() == self.counts().len(),
            self.kind() != other.kind() ==> c.counts() == self.counts(),
            self.kind() == other.kind() ==> forall|i: int|
                0 <= i < self.counts().len() ==> #[trigger] c.counts()[i] == (if i
                    < other.counts().len() {
                    if self.counts()[i] >= other.counts()[i] {
                        (self.counts()[i] - other.counts()[i]) as nat
                    } else {
                        0
                    }
                } else {
                    self.counts()[i]
                }),
    {
        match (self, other) {
            (AnyCoverage::Bool(a), AnyCoverage::Bool(b)) => AnyCoverage::Bool(a.saturating_sub(b)),
            (AnyCoverage::U8(a), AnyCoverage::U8(b)) => AnyCoverage::U8(a.saturating_sub(b)),
            (AnyCoverage::U64(a), AnyCoverage::U64(b)) => AnyCoverage::U64(a.saturating_sub(b)),
            _ => {
                let c = self.clone_coverage();
                c
            },
        }
    }

    /// A copy with the same points.
    pub fn clone_coverage(&self) -> (c: Self)
        ensures
            c.kind() == self.kind(),
            c.counts() == self.counts(),
    {
        match self {
            AnyCoverage::Bool(c) => AnyCoverage::Bool(Coverage { point_counts: copy_points(&c.point_counts) }),
            AnyCoverage::U8(c) => AnyCoverage::U8(Coverage { point_counts: copy_points(&c.point_counts) }),
            AnyCoverage::U64(c) => AnyCoverage::U64(Coverage { point_counts: copy_points(&c.point_counts) }),
        }
    }
}

fn copy_points<T: Copy>(v: &Vec<T>) -> (r: Vec<T>)
    ensures
        r@ == v@,
{
    let mut r: Vec<T> = Vec::new();
    let mut i: usize = 0;
    while i < v.len()
        invariant
            i <= v@.len(),
            r@ == v@.take(i as int),
        decreases v@.len() - i,
    {
        r.push(v[i]);
        proof {
            assert(v@.take(i + 1) =~= v@.take(i as int).push(v@[i as int]));
        }
        i += 1;
    }
    proof {
        assert(v@.take(i as int) =~= v@);
    }
    r
}

/// The coverages of one run, each under its name.
#[derive(Clone, Debug)]
pub struct Coverages {
    covers: Vec<(String, AnyCoverage)>,
}

impl Coverages {
    pub closed spec fn entries(self) -> Seq<(String, AnyCoverage)> {
        self.covers@
    }

    /// No name occurs twice.
    pub open spec fn wf(self) -> bool {
        distinct_names(self.entries())
    }

    /// The index of the coverage called `name`.
    pub open spec fn index_of(self, name: Seq<char>) -> Option<int> {
        if exists|i: int| 0 <= i < self.entries().len() && #[trigger] self.entries()[i].0@ == name {
            Some(choose|i: int| 0 <= i < self.entries().len() && #[trigger] self.entries()[i].0@ == name)
        } else {
            None
        }
    }

    /// The coverage called `name`.
    pub open spec fn coverage_of(self, name: Seq<char>) -> Option<AnyCoverage> {
        match self.index_of(name) {
            Some(i) => Some(self.entries()[i].1),
            None => None,
        }
    }

    /// The coverages for `cover_names`, each with the point count reported
    /// for it, of 64-bit points where the reported data size is 8 bytes and
    /// of 8-bit points otherwise. A repeated name keeps its last sizes.
    #[verifier::rlimit(80)]
    #[verifier::spinoff_prover]
    pub fn new(cover_names: &[String], data_sizes: &[u64], n_covers: &[usize]) -> (c: Self)
        requires
            data_sizes@.len() == cover_names@.len(),
            n_covers@.len() == cover_names@.len(),
        ensures
            c.wf(),
            forall|i: int|
                0 <= i < cover_names@.len() ==> (#[trigger] c.coverage_of(cover_names@[i]@)) is Some,
            forall|k: int|
                0 <= k < c.entries().len() ==> names_contain(cover_names@, #[trigger] c.entries()[k].0@),
            forall|i: int|
                0 <= i < cover_names@.len() && last_of_name(cover_names@, i, cover_names@.len() as int)
                    ==> made_for(
                    data_sizes@[i],
                    n_covers@[i],
                    (#[trigger] c.coverage_of(cover_names@[i]@)).unwrap(),
                ),
    {
        let mut covers: Vec<(String, AnyCoverage)> = Vec::new();
        let mut i: usize = 0;
        while i < cover_names.len()
            invariant
                i <= cover_names@.len(),
                data_sizes@.len() == cover_names@.len(),
                n_covers@.len() == cover_names@.len(),
                distinct_names(covers@),
                forall|j: int|
                    #![trigger cover_names@[j]]
                    0 <= j < i ==> exists|k: int|
                        #![trigger covers@[k]]
                        0 <= k < covers@.len() && covers@[k].0@ == cover_names@[j]@,
                forall|k: int|
                    #![trigger covers@[k]]
                    0 <= k < covers@.len() ==> exists|j: int|
                        #![trigger cover_names@[j]]
                        0 <= j < i && covers@[k].0@ == cover_names@[j]@ && last_of_name(
                            cover_names@,
                            j,
                            i as int,
                        ) && made_for(data_sizes@[j], n_covers@[j], covers@[k].1),
            decreases cover_names@.len() - i,
        {
            let kind = if data_sizes[i] == 8 {
                CoverageKind::U64
            } else {
                CoverageKind::U8
            };
            let coverage = AnyCoverage::new(kind, n_covers[i]);
            let name = cover_names[i].clone();
            let position = find_name(covers.as_slice(), name.as_str());
            let ghost before = covers@;
            if let Some(k) = position {
                covers.set(k, (name, coverage));
                proof {
                    assert(covers@[k as int].0@ == cover_names@[i as int]@);
                    assert forall|a: int, b: int|
                        0 <= a < b < covers@.len() implies #[trigger] covers@[a].0@
                        != #[trigger] covers@[b].0@ by {
                        assert(before[a].0@ != before[b].0@);
                    }
                    assert forall|j: int| #![trigger cover_names@[j]] 0 <= j < i + 1 implies exists|m: int|
                        #![trigger covers@[m]]
                        0 <= m < covers@.len() && covers@[m].0@ == cover_names@[j]@ by {
                        if j < i {
                            let m = choose|m: int|
                                #![trigger before[m]]
                                0 <= m < before.len() && before[m].0@ == cover_names@[j]@;
                            assert(covers@[m].0@ == cover_names@[j]@);
                        } else {
                            assert(covers@[k as int].0@ == cover_names@[j]@);
                        }
                    }
                    assert forall|m: int| #![trigger covers@[m]] 0 <= m < covers@.len() implies exists|j: int|
                        #![trigger cover_names@[j]]
                        0 <= j < i + 1 && covers@[m].0@ == cover_names@[j]@ && last_of_name(
                            cover_names@,
                            j,
                            i + 1,
                        ) && made_for(data_sizes@[j], n_covers@[j], covers@[m].1) by {
                        if m == k {
                            assert(covers@[m].0@ == cover_names@[i as int]@);
                            assert(last_of_name(cover_names@, i as int, i + 1));
                        } else {
                            assert(covers@[m] == before[m]);
                            let j = choose|j: int|
                                #![trigger cover_names@[j]]
                                0 <= j < i && before[m].0@ == cover_names@[j]@ && last_of_name(
                                    cover_names@,
                                    j,
                                    i as int,
                                ) && made_for(data_sizes@[j], n_covers@[j], before[m].1);
                            if m < k {
                                assert(before[m].0@ != before[k as int].0@);
                            } else {
                                assert(before[k as int].0@ != before[m].0@);
                            }
                            assert(cover_names@[j]@ == covers@[m].0@);
                            assert(last_of_name(cover_names@, j, i + 1));
                        }
                    }
                }
            } else {
                covers.push((name, coverage));
                proof {
                    assert forall|a: int, b: int|
                        0 <= a < b < covers@.len() implies #[trigger] covers@[a].0@
                        != #[trigger] covers@[b].0@ by {
                        if b < before.len() {
                            assert(before[a].0@ != before[b].0@);
                        }
                    }
                    assert forall|j: int| #![trigger cover_names@[j]] 0 <= j < i + 1 implies exists|m: int|
                        #![trigger covers@[m]]
                        0 <= m < covers@.len() && covers@[m].0@ == cover_names@[j]@ by {
                        if j < i {
                            let m = choose|m: int|
                                #![trigger before[m]]
                                0 <= m < before.len() && before[m].0@ == cover_names@[j]@;
                            assert(covers@[m].0@ == cover_names@[j]@);
                        } else {
                            assert(covers@[before.len() as int].0@ == cover_names@[j]@);
                        }
                    }
                    assert forall|m: int| #![trigger covers@[m]] 0 <= m < covers@.len() implies exists|j: int|
                        #![trigger cover_names@[j]]
                        0 <= j < i + 1 && covers@[m].0@ == cover_names@[j]@ && last_of_name(
                            cover_names@,
                            j,
                            i + 1,
                        ) && made_for(data_sizes@[j], n_covers@[j], covers@[m].1) by {
                        if m == before.len() {
                            assert(covers@[m].0@ == cover_names@[i as int]@);
                            assert(last_of_name(cover_names@, i as int, i + 1));
                        } else {
                            assert(covers@[m] == before[m]);
                            let j = choose|j: int|
                                #![trigger cover_names@[j]]
                                0 <= j < i && before[m].0@ == cover_names@[j]@ && last_of_name(
                                    cover_names@,
                                    j,
                                    i as int,
                                ) && made_for(data_sizes@[j], n_covers@[j], before[m].1);
                            assert(before[m].0@ != cover_names@[i as int]@);
                            assert(cover_names@[j]@ == covers@[m].0@);
                            assert(last_of_name(cover_names@, j, i + 1));
                        }
                    }
                }
            }
            i += 1;
        }
        let ghost cv = covers@;
        let c = Coverages { covers };
        proof {
            assert(c.entries() == cv);
            assert forall|k: int| 0 <= k < c.entries().len() implies names_contain(
                cover_names@,
                #[trigger] c.entries()[k].0@,
            ) by {
                assert(cv[k] == c.entries()[k]);
                assert(cv[k] == cv[k]);
                let j = choose|j: int|
                    #![trigger cover_names@[j]]
                    0 <= j < cover_names@.len() && cv[k].0@ == cover_names@[j]@;
                assert(cover_names@[j]@ == c.entries()[k].0@);
            }
            assert forall|j: int| 0 <= j < cover_names@.len() implies (#[trigger] c.coverage_of(
                cover_names@[j]@,
            )) is Some by {
                let m = choose|m: int|
                    #![trigger c.covers@[m]]
                    0 <= m < c.covers@.len() && c.covers@[m].0@ == cover_names@[j]@;
                assert(c.entries()[m].0@ == cover_names@[j]@);
            }
            let n = cover_names@.len() as int;
            assert forall|i: int|
                0 <= i < n && last_of_name(cover_names@, i, n) implies made_for(
                data_sizes@[i],
                n_covers@[i],
                (#[trigger] c.coverage_of(cover_names@[i]@)).unwrap(),
            ) by {
                let m = choose|m: int|
                    #![trigger c.covers@[m]]
                    0 <= m < c.covers@.len() && c.covers@[m].0@ == cover_names@[i]@;
                assert(c.entries()[m].0@ == cover_names@[i]@);
                let idx = c.index_of(cover_names@[i]@).unwrap();
                assert(c.entries()[idx].0@ == cover_names@[i]@);
                assert(cv[idx] == c.entries()[idx]);
                let j = choose|j: int|
                    #![trigger cover_names@[j]]
                    0 <= j < n && cv[idx].0@ == cover_names@[j]@ && last_of_name(cover_names@, j, n)
                        && made_for(data_sizes@[j], n_covers@[j], cv[idx].1);
                if j < i {
                    assert(cover_names@[i]@ != cover_names@[j]@);
                } else if i < j {
                    assert(cover_names@[j]@ != cover_names@[i]@);
                }
            }
        }
        c
    }

    /// The number of coverages.
    pub fn len(&self) -> (n: usize)
        ensures
            n == self.entries().len(),
    {
        self.covers.len()
    }

    /// Iterates over the coverages with their names, in stored order.
    pub fn iter(&self) -> (it: std::slice::Iter<'_, (String, AnyCoverage)>)
        ensures
            it.remaining() == self.entries().as_ref(),
    {
        self.covers.as_slice().iter()
    }

    /// Iterates over the coverages with their names, consuming them.
    pub fn into_iter(self) -> (it: std::vec::IntoIter<(String, AnyCoverage)>)
        ensures
            it.remaining() == self.entries(),
    {
        self.covers.into_iter()
    }

    /// The coverages with their names.
    pub fn entries_slice(&self) -> (s: &[(String, AnyCoverage)])
        ensures
            s@ == self.entries(),
    {
        self.covers.as_slice()
    }

    /// The position of the coverage called `name`.
    pub fn find(&self, name: &str) -> (r: Option<usize>)
        requires
            self.wf(),
        ensures
            match r {
                Some(i) => i < self.entries().len() && self.entries()[i as int].0@ == name@
                    && self.index_of(name@) == Some(i as int),
                None => self.index_of(name@) is None,
            },
    {
        match find_name(self.covers.as_slice(), name) {
            Some(i) => {
                proof {
                    assert(self.entries()[i as int].0@ == name@);
                    let c = choose|c: int|
                        0 <= c < self.entries().len() && #[trigger] self.entries()[c].0@ == name@;
                    if c != i {
                        if c < i {
                            assert(self.entries()[c].0@ != self.entries()[i as int].0@);
                        } else {
                            assert(self.entries()[i as int].0@ != self.entries()[c].0@);
                        }
                    }
                }
                Some(i)
            },
            None => None,
        }
    }

    /// The coverage called `name`.
    pub fn get(&self, name: &str) -> (c: &AnyCoverage)
        requires
            self.wf(),
            self.coverage_of(name@) is Some,
        ensures
            *c == self.coverage_of(name@).unwrap(),
    {
        match self.find(name) {
            Some(i) => &self.covers[i].1,
            None => {
                proof {
                    assert(false);
                }
                &self.covers[0].1
            },
        }
    }

    /// The coverage called `name`, to be written in place; the other
    /// coverages and every name stay as they are.
    pub fn get_mut(&mut self, name: &str) -> (c: &mut AnyCoverage)
        requires
            old(self).wf(),
            old(self).coverage_of(name@) is Some,
        ensures
            *c == old(self).coverage_of(name@).unwrap(),
            final(self).entries().len() == old(self).entries().len(),
            final(self).wf(),
            forall|k: int|
                0 <= k < old(self).entries().len() ==> {
                    &&& (#[trigger] final(self).entries()[k]).0 == old(self).entries()[k].0
                    &&& final(self).entries()[k].1 == (if Some(k) == old(self).index_of(name@) {
                        *final(c)
                    } else {
                        old(self).entries()[k].1
                    })
                },
    {
        let i = match self.find(name) {
            Some(i) => i,
            None => {
                proof {
                    assert(false);
                }
                0
            },
        };
        let entry = &mut self.covers[i];
        &mut entry.1
    }

    /// The names of the coverages, in their stored order.
    pub fn names(&self) -> (v: Vec<String>)
        ensures
            v@.len() == self.entries().len(),
            forall|i: int| 0 <= i < v@.len() ==> #[trigger] v@[i]@ == self.entries()[i].0@,
    {
        let mut names: Vec<String> = Vec::new();
        let mut i: usize = 0;
        while i < self.covers.len()
            invariant
                i <= self.covers@.len(),
                names@.len() == i,
                forall|j: int| 0 <= j < i ==> #[trigger] names@[j]@ == self.covers@[j].0@,
            decreases self.covers@.len() - i,
        {
            names.push(self.covers[i].0.clone());
            i += 1;
        }
        names
    }

    /// Each coverage minus the coverage of the same name in `other`, point
    /// by point and saturating; coverages that `other` lacks are kept.
    pub fn saturating_sub(&self, other: &Self) -> (c: Self)
        requires
            other.wf(),
        ensures
            c.entries().len() == self.entries().len(),
            forall|i: int|
                0 <= i < self.entries().len() ==> {
                    &&& (#[trigger] c.entries()[i]).0@ == self.entries()[i].0@
                    &&& match other.coverage_of(self.entries()[i].0@) {
                        None => c.entries()[i].1.counts() == self.entries()[i].1.counts(),
                        Some(o) => c.entries()[i].1.counts() == sub_counts(
                            self.entries()[i].1,
                            o,
                        ),
                    }
                },
    {
        let mut covers: Vec<(String, AnyCoverage)> = Vec::new();
        let mut i: usize = 0;
        while i < self.covers.len()
            invariant
                i <= self.covers@.len(),
                other.wf(),
                covers@.len() == i,
                forall|j: int|
                    0 <= j < i ==> {
                        &&& (#[trigger] covers@[j]).0@ == self.covers@[j].0@
                        &&& match other.coverage_of(self.covers@[j].0@) {
                            None => covers@[j].1.counts() == self.covers@[j].1.counts(),
                            Some(o) => covers@[j].1.counts() == sub_counts(self.covers@[j].1, o),
                        }
                    },
            decreases self.covers@.len() - i,
        {
            let name = self.covers[i].0.clone();
            let coverage = &self.covers[i].1;
            let reduced = match other.find(name.as_str()) {
                Some(k) => {
                    let r = coverage.saturating_sub(&other.covers[k].1);
                    proof {
                        assert(r.counts() =~= sub_counts(*coverage, other.covers@[k as int].1));
                    }
                    r
                },
                None => coverage.clone_coverage(),
            };
            covers.push((name, reduced));
            i += 1;
        }
        Coverages { covers }
    }
}

/// The coverage made for a reported data size and point count: 64-bit
/// points for a data size of 8 bytes, 8-bit points otherwise, none hit.
pub open spec fn made_for(data_size: u64, n_cover: usize, c: AnyCoverage) -> bool {
    &&& c.kind() == (if data_size == 8 {
        CoverageKind::U64
    } else {
        CoverageKind::U8
    })
    &&& c.counts() == Seq::new(n_cover as nat, |p: int| 0nat)
}

/// No name after the `j`-th and before the `i`-th repeats it.
pub open spec fn last_of_name(names: Seq<String>, j: int, i: int) -> bool {
    forall|m: int| j < m < i ==> #[trigger] names[m]@ != names[j]@
}

/// No name occurs twice among the entries.
pub open spec fn distinct_names(s: Seq<(String, AnyCoverage)>) -> bool {
    forall|i: int, j: int| 0 <= i < j < s.len() ==> #[trigger] s[i].0@ != #[trigger] s[j].0@
}

/// The position of the entry called `name`.
fn find_name(covers: &[(String, AnyCoverage)], name: &str) -> (r: Option<usize>)
    ensures
        match r {
            Some(i) => i < covers@.len() && covers@[i as int].0@ == name@,
            None => forall|m: int| 0 <= m < covers@.len() ==> #[trigger] covers@[m].0@ != name@,
        },
{
    let mut i: usize = 0;
    while i < covers.len()
        invariant
            i <= covers@.len(),
            forall|m: int| 0 <= m < i ==> #[trigger] covers@[m].0@ != name@,
        decreases covers@.len() - i,
    {
        if str_eq(covers[i].0.as_str(), name) {
            return Some(i);
        }
        i += 1;
    }
    None
}

/// `a` minus `b` point by point, saturating, when both have the same
/// width; `a` otherwise.
pub open spec fn sub_counts(a: AnyCoverage, b: AnyCoverage) -> Seq<nat> {
    if a.kind() != b.kind() {
        a.counts()
    } else {
        Seq::new(
            a.counts().len(),
            |i: int|
                if i < b.counts().len() {
                    if a.counts()[i] >= b.counts()[i] {
                        (a.counts()[i] - b.counts()[i]) as nat
                    } else {
                        0nat
                    }
                } else {
                    a.counts()[i]
                },
        )
    }
}

/// Marks as covered, in `accumulated`, every point that `bits` reports hit.
pub fn accumulate_bits(accumulated: &mut Vec<bool>, bits: &[bool])
    requires
        bits@.len() <= old(accumulated)@.len(),
    ensures
        final(accumulated)@.len() == old(accumulated)@.len(),
        forall|i: int|
            0 <= i < old(accumulated)@.len() ==> #[trigger] final(accumulated)@[i] == (old(
                accumulated,
            )@[i] || (i < bits@.len() && bits@[i])),
{
    let mut i: usize = 0;
    while i < bits.len()
        invariant
            i <= bits@.len() <= accumulated@.len(),
            accumulated@.len() == old(accumulated)@.len(),
            forall|j: int|
                0 <= j < accumulated@.len() ==> #[trigger] accumulated@[j] == (old(accumulated)@[j]
                    || (j < i && bits@[j])),
        decreases bits@.len() - i,
    {
        if bits[i] {
            accumulated.set(i, true);
        }
        i += 1;
    }
}

/// How many points of an accumulated coverage are covered.
pub fn covered_count(accumulated: &[bool]) -> (n: usize)
    ensures
        n == accumulated@.filter(|b: bool| b).len(),
{
    let mut n: usize = 0;
    let mut i: usize = 0;
    while i < accumulated.len()
        invariant
            i <= accumulated@.len(),
            n == accumulated@.take(i as int).filter(|b: bool| b).len(),
            n <= i,
        decreases accumulated@.len() - i,
    {
        proof {
            let s = accumulated@.take(i + 1);
            assert(s.drop_last() =~= accumulated@.take(i as int));
            accumulated@.take(i as int).lemma_filter_len_push(|b: bool| b, accumulated@[i as int]);
            assert(s =~= accumulated@.take(i as int).push(accumulated@[i as int]));
        }
        if accumulated[i] {
            n += 1;
        }
        i += 1;
    }
    proof {
        assert(accumulated@.take(i as int) =~= accumulated@);
    }
    n
}

} // verus!
