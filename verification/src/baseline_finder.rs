//! The baseline: the findings that come back so often, or so seldom, that
//! they are taken for what the layout is meant to be.

use vstd::arithmetic::div_mod::{lemma_fundamental_div_mod, lemma_fundamental_div_mod_converse};
use vstd::prelude::*;
use crate::layout_validator::validity_rules::{
    buckets_of, typed, views, Buckets, LayoutViolation, LayoutViolations, ViolationView,
};
use crate::sequences::lemma_filter_keeps_all;

verus! {

/// The violations that are taken for intended.
#[derive(Debug)]
pub struct Baseline {
    pub violations_to_accept: Vec<LayoutViolation>,
}

/// How many of the first `n` violations are the same finding as `v`.
pub open spec fn occurrences(all: Seq<ViolationView>, v: ViolationView, n: nat) -> nat
    decreases n,
{
    if n == 0 {
        0
    } else {
        occurrences(all, v, (n - 1) as nat) + if all[n - 1].same_finding(v) {
            1nat
        } else {
            0nat
        }
    }
}

/// True if no violation before the one at `i` is the same finding.
pub open spec fn is_first_of_finding(all: Seq<ViolationView>, i: int) -> bool {
    forall|j: int| 0 <= j < i ==> !(#[trigger] all[j]).same_finding(all[i])
}

/// True if the violation at `i` is an overlap that stands for its finding
/// and the finding occurs `cutoff` times or more.
pub open spec fn accepted_overlap(all: Seq<ViolationView>, cutoff: int, i: int) -> bool {
    &&& all[i] is Overlap
    &&& is_first_of_finding(all, i)
    &&& occurrences(all, all[i], all.len()) >= cutoff
}

/// True if the violation at `i` is an overflow that stands for its finding
/// and the finding occurs exactly `cutoff` times.
pub open spec fn accepted_overflow(all: Seq<ViolationView>, cutoff: int, i: int) -> bool {
    &&& all[i] is Overflow
    &&& is_first_of_finding(all, i)
    &&& occurrences(all, all[i], all.len()) == cutoff
}

/// True if the violation at `i` is a lost alignment of a pair that was seen
/// together less than `cutoff` times.
pub open spec fn accepted_alignment(all: Seq<ViolationView>, cutoff: int, i: int) -> bool {
    all[i] matches ViolationView::AlignmentLost { count, .. } && count < cutoff
}

/// Those of the first `n` items of `all` whose position meets `wanted`.
pub open spec fn selected(all: Seq<ViolationView>, wanted: spec_fn(int) -> bool, n: nat) -> Seq<
    ViolationView,
>
    decreases n,
{
    if n == 0 {
        Seq::empty()
    } else {
        let before = selected(all, wanted, (n - 1) as nat);
        if wanted(n - 1) {
            before.push(all[n - 1])
        } else {
            before
        }
    }
}

/// The overlaps that are accepted for the cutoff, one for each finding.
pub open spec fn accepted_overlaps(all: Seq<ViolationView>, cutoff: int) -> Seq<ViolationView> {
    selected(all, |i: int| accepted_overlap(all, cutoff, i), all.len())
}

/// The overflows that are accepted for the cutoff, one for each finding.
pub open spec fn accepted_overflows(all: Seq<ViolationView>, cutoff: int) -> Seq<ViolationView> {
    selected(all, |i: int| accepted_overflow(all, cutoff, i), all.len())
}

/// The lost alignments that are accepted for the cutoff.
pub open spec fn accepted_alignments(all: Seq<ViolationView>, cutoff: int) -> Seq<ViolationView> {
    selected(all, |i: int| accepted_alignment(all, cutoff, i), all.len())
}

/// The baseline of the violations `all`: the accepted overlaps and
/// overflows, if a cutoff for them is given, and then the accepted lost
/// alignments.
pub open spec fn baseline_of(
    all: Seq<ViolationView>,
    alignment_cutoff: int,
    overlap_overflow_cutoff: Option<int>,
) -> Seq<ViolationView> {
    let first = match overlap_overflow_cutoff {
        Some(cutoff) => accepted_overlaps(all, cutoff) + accepted_overflows(all, cutoff),
        None => Seq::empty(),
    };
    first + accepted_alignments(all, alignment_cutoff)
}

/// Counts the violations that are the same finding as the one at `i`.
fn count_occurrences(all: &Vec<LayoutViolation>, i: usize) -> (r: usize)
    requires
        i < all.len(),
    ensures
        r == occurrences(views(all@), all@[i as int]@, all@.len()),
{
    let mut count: usize = 0;
    let mut j: usize = 0;
    while j < all.len()
        invariant
            i < all.len(),
            j <= all.len(),
            count <= j,
            count == occurrences(views(all@), all@[i as int]@, j as nat),
        decreases all.len() - j,
    {
        if all[j].eq(&all[i]) {
            count += 1;
        }
        j += 1;
    }
    count
}

/// Tells whether no earlier violation is the same finding as the one at `i`.
fn is_first_occurrence(all: &Vec<LayoutViolation>, i: usize) -> (r: bool)
    requires
        i < all.len(),
    ensures
        r == is_first_of_finding(views(all@), i as int),
{
    let mut j: usize = 0;
    while j < i
        invariant
            i < all.len(),
            j <= i,
            forall|k: int| 0 <= k < j ==> !(#[trigger] views(all@)[k]).same_finding(views(all@)[i as int]),
        decreases i - j,
    {
        if all[j].eq(&all[i]) {
            proof {
                assert(views(all@)[j as int].same_finding(views(all@)[i as int]));
            }
            return false;
        }
        j += 1;
    }
    true
}

/// Which rule of acceptance to apply.
enum Acceptance {
    Overlaps,
    Overflows,
    Alignments,
}

/// What an [`Acceptance`] asks of the violation at `i`.
spec fn wanted_by(rule: Acceptance, all: Seq<ViolationView>, cutoff: int) -> spec_fn(int) -> bool {
    match rule {
        Acceptance::Overlaps => |i: int| accepted_overlap(all, cutoff, i),
        Acceptance::Overflows => |i: int| accepted_overflow(all, cutoff, i),
        Acceptance::Alignments => |i: int| accepted_alignment(all, cutoff, i),
    }
}

/// Tells whether the rule accepts the violation at `i`.
fn accepts(rule: &Acceptance, all: &Vec<LayoutViolation>, cutoff: i32, i: usize) -> (r: bool)
    requires
        i < all.len(),
    ensures
        r == wanted_by(*rule, views(all@), cutoff as int)(i as int),
{
    match rule {
        Acceptance::Overlaps => match &all[i] {
            LayoutViolation::Overlap { .. } => {
                if is_first_occurrence(all, i) {
                    let count = count_occurrences(all, i);
                    cutoff <= 0 || count >= cutoff as usize
                } else {
                    false
                }
            },
            _ => false,
        },
        Acceptance::Overflows => match &all[i] {
            LayoutViolation::Overflow { .. } => {
                if is_first_occurrence(all, i) {
                    let count = count_occurrences(all, i);
                    cutoff >= 0 && count == cutoff as usize
                } else {
                    false
                }
            },
            _ => false,
        },
        Acceptance::Alignments => match &all[i] {
            LayoutViolation::AlignmentLost { count, .. } => *count < cutoff,
            _ => false,
        },
    }
}

/// Appends a copy of each violation that the rule accepts.
fn accept(
    accepted: &mut Vec<LayoutViolation>,
    rule: Acceptance,
    all: &Vec<LayoutViolation>,
    cutoff: i32,
)
    ensures
        views(final(accepted)@) == views(old(accepted)@) + selected(
            views(all@),
            wanted_by(rule, views(all@), cutoff as int),
            all@.len(),
        ),
{
    let ghost before = views(accepted@);
    let ghost wanted = wanted_by(rule, views(all@), cutoff as int);
    let mut i: usize = 0;
    while i < all.len()
        invariant
            i <= all.len(),
            wanted == wanted_by(rule, views(all@), cutoff as int),
            views(accepted@) == before + selected(views(all@), wanted, i as nat),
        decreases all.len() - i,
    {
        if accepts(&rule, all, cutoff, i) {
            let ghost so_far = views(accepted@);
            let copy = all[i].clone();
            accepted.push(copy);
            proof {
                assert(views(accepted@) =~= so_far.push(copy@));
            }
        }
        i += 1;
    }
}

/// A share of the test sets, as a fraction: three of four is
/// `Threshold { numerator: 3, denominator: 4 }`.
#[derive(Debug, Clone, Copy, PartialEq, Eq, Structural)]
pub struct Threshold {
    pub numerator: u32,
    pub denominator: u32,
}

/// The number `v`, or the end of the `i32` range that lies nearest to it.
pub open spec fn saturated(v: int) -> int {
    if v > i32::MAX {
        i32::MAX as int
    } else if v < i32::MIN {
        i32::MIN as int
    } else {
        v
    }
}

/// The quotient of `a` by `d`, rounded down.
pub open spec fn floor_div(a: int, d: int) -> int {
    a / d
}

/// The quotient of `a` by `d`, rounded up.
pub open spec fn ceil_div(a: int, d: int) -> int {
    (a + d - 1) / d
}

/// [`floor_div`] is the greatest integer whose product with `d` is at most
/// `a`, and [`ceil_div`] is the least whose product with `d` is at least `a`.
pub proof fn lemma_floor_and_ceiling(a: int, d: int)
    requires
        d > 0,
    ensures
        floor_div(a, d) * d <= a < (floor_div(a, d) + 1) * d,
        (ceil_div(a, d) - 1) * d < a <= ceil_div(a, d) * d,
{
    lemma_fundamental_div_mod(a, d);
    lemma_fundamental_div_mod(a + d - 1, d);
    let q = a / d;
    let c = (a + d - 1) / d;
    assert(q * d == d * q) by (nonlinear_arith);
    assert((q + 1) * d == d * q + d) by (nonlinear_arith);
    assert(c * d == d * c) by (nonlinear_arith);
    assert((c - 1) * d == d * c - d) by (nonlinear_arith);
}

/// Divides and rounds down.
fn floor_div_exec(a: i128, d: i128) -> (q: i128)
    requires
        d > 0,
        -0x1_0000_0000_0000_0000 <= a <= 0x1_0000_0000_0000_0000,
        d <= 0x1_0000_0000,
    ensures
        q == floor_div(a as int, d as int),
        -0x1_0000_0000_0000_0000 <= q <= 0x1_0000_0000_0000_0000,
{
    let ud: u128 = d as u128;
    if a >= 0 {
        let ua: u128 = a as u128;
        let q: u128 = ua / ud;
        proof {
            lemma_fundamental_div_mod(a as int, d as int);
            let rest = (a as int) % (d as int);
            assert(q * d <= a) by (nonlinear_arith)
                requires
                    a == d * q + rest,
                    0 <= rest,
            ;
            assert(q <= a) by (nonlinear_arith)
                requires
                    q * d <= a,
                    d >= 1,
                    q >= 0,
            ;
        }
        q as i128
    } else {
        let m: u128 = (-a) as u128;
        let qm: u128 = m / ud;
        let rm: u128 = m % ud;
        proof {
            lemma_fundamental_div_mod(m as int, d as int);
            assert(qm * d <= m) by (nonlinear_arith)
                requires
                    m == d * qm + rm,
                    0 <= rm,
            ;
            assert(qm <= m) by (nonlinear_arith)
                requires
                    qm * d <= m,
                    d >= 1,
                    qm >= 0,
            ;
        }
        if rm == 0 {
            proof {
                assert(a == (-(qm as int)) * d + 0) by (nonlinear_arith)
                    requires
                        m == d * qm + rm,
                        rm == 0,
                        a == -(m as int),
                ;
                lemma_fundamental_div_mod_converse(a as int, d as int, -(qm as int), 0);
            }
            -(qm as i128)
        } else {
            proof {
                assert(qm < m) by (nonlinear_arith)
                    requires
                        m == d * qm + rm,
                        rm >= 1,
                        d >= 1,
                        qm >= 0,
                ;
                assert(a == (-(qm as int) - 1) * d + (d - rm)) by (nonlinear_arith)
                    requires
                        m == d * qm + rm,
                        a == -(m as int),
                ;
                lemma_fundamental_div_mod_converse(
                    a as int,
                    d as int,
                    -(qm as int) - 1,
                    d - rm,
                );
            }
            -(qm as i128) - 1
        }
    }
}

/// Brings a number into the range of `i32`.
fn saturate(v: i128) -> (r: i32)
    ensures
        r == saturated(v as int),
{
    if v > 2147483647 {
        2147483647
    } else if v < -2147483648 {
        -2147483648
    } else {
        v as i32
    }
}

impl Threshold {
    /// A fraction has a denominator other than zero.
    pub open spec fn wf(&self) -> bool {
        self.denominator > 0
    }

    /// The fraction, unless the denominator is zero.
    pub fn new(numerator: u32, denominator: u32) -> (r: Option<Threshold>)
        ensures
            r == if denominator > 0 {
                Some(Threshold { numerator, denominator })
            } else {
                None
            },
    {
        if denominator > 0 {
            Some(Threshold { numerator: numerator, denominator: denominator })
        } else {
            None
        }
    }

    /// The share of `n_test_sets` rounded down, within the range of `i32`.
    pub open spec fn spec_overlap_overflow_cutoff(&self, n_test_sets: int) -> int {
        saturated(floor_div(self.numerator * n_test_sets, self.denominator as int))
    }

    /// The share of `n_test_sets - 1` rounded up, within the range of `i32`.
    pub open spec fn spec_alignment_cutoff(&self, n_test_sets: int) -> int {
        saturated(ceil_div(self.numerator * (n_test_sets - 1), self.denominator as int))
    }

    /// The number of occurrences from which an overlap is taken for
    /// intended: the share of the number of test sets, rounded down.
    pub fn overlap_overflow_cutoff(&self, n_test_sets: i32) -> (r: i32)
        requires
            self.wf(),
        ensures
            r == self.spec_overlap_overflow_cutoff(n_test_sets as int),
    {
        let num: i128 = self.numerator as i128;
        let n: i128 = n_test_sets as i128;
        proof {
            assert(-0x1_0000_0000_0000_0000 <= num * n <= 0x1_0000_0000_0000_0000)
                by (nonlinear_arith)
                requires
                    0 <= num <= 0xffff_ffff,
                    -0x8000_0000 <= n <= 0x7fff_ffff,
            ;
        }
        saturate(floor_div_exec(num * n, self.denominator as i128))
    }

    /// The number of times below which a pair of node sides counts as
    /// aligned by chance: the share of the number of test sets less one,
    /// rounded up.
    pub fn alignment_cutoff(&self, n_test_sets: i32) -> (r: i32)
        requires
            self.wf(),
        ensures
            r == self.spec_alignment_cutoff(n_test_sets as int),
    {
        let num: i128 = self.numerator as i128;
        let n: i128 = n_test_sets as i128 - 1;
        let d: i128 = self.denominator as i128;
        proof {
            assert(-0x1_0000_0000_0000_0000 + 0x1_0000_0000 <= num * n <= 0x1_0000_0000_0000_0000
                - 0x1_0000_0000) by (nonlinear_arith)
                requires
                    0 <= num <= 0xffff_ffff,
                    -0x8000_0001 <= n <= 0x7fff_fffe,
            ;
        }
        saturate(floor_div_exec(num * n + d - 1, d))
    }
}

/// Finds the baseline for cutoffs that are given as counts. An overlap is
/// accepted if its finding occurs `overlap_overflow_cutoff` times or more,
/// an overflow if its finding occurs exactly that often, and neither where
/// no such cutoff is given. A lost alignment is accepted if its pair was
/// seen together less than `alignment_cutoff` times.
pub fn find_baseline_for_cutoffs(
    violations: &LayoutViolations,
    alignment_cutoff: i32,
    overlap_overflow_cutoff: Option<i32>,
) -> (r: Baseline)
    ensures
        views(r.violations_to_accept@) == baseline_of(
            violations.spec_all(),
            alignment_cutoff as int,
            match overlap_overflow_cutoff {
                Some(c) => Some(c as int),
                None => None,
            },
        ),
{
    let all = violations.all();
    let mut violations_to_accept: Vec<LayoutViolation> = Vec::new();
    proof {
        assert(views(violations_to_accept@) =~= Seq::<ViolationView>::empty());
    }
    match overlap_overflow_cutoff {
        Some(cutoff) => {
            accept(&mut violations_to_accept, Acceptance::Overlaps, &all, cutoff);
            accept(&mut violations_to_accept, Acceptance::Overflows, &all, cutoff);
        },
        None => {},
    }
    accept(&mut violations_to_accept, Acceptance::Alignments, &all, alignment_cutoff);
    proof {
        let a = views(all@);
        assert(wanted_by(Acceptance::Alignments, a, alignment_cutoff as int) == (|i: int|
            accepted_alignment(a, alignment_cutoff as int, i)));
        match overlap_overflow_cutoff {
            Some(cutoff) => {
                assert(wanted_by(Acceptance::Overlaps, a, cutoff as int) == (|i: int|
                    accepted_overlap(a, cutoff as int, i)));
                assert(wanted_by(Acceptance::Overflows, a, cutoff as int) == (|i: int|
                    accepted_overflow(a, cutoff as int, i)));
            },
            None => {},
        }
    }
    Baseline { violations_to_accept: violations_to_accept }
}

/// Finds the baseline. The threshold for overlaps and overflows is a share
/// of the number of test sets, rounded down; where none is given, no overlap
/// and no overflow is accepted. The threshold for lost alignments is a share
/// of the number of test sets less one, rounded up. See
/// [`find_baseline_for_cutoffs`] for what is accepted.
pub fn find_baseline(
    violations: &LayoutViolations,
    n_test_sets: i32,
    alignment_change_threshold: Threshold,
    overlap_overflow_threshold: Option<Threshold>,
) -> (r: Baseline)
    requires
        alignment_change_threshold.wf(),
        overlap_overflow_threshold matches Some(t) ==> t.wf(),
    ensures
        views(r.violations_to_accept@) == baseline_of(
            violations.spec_all(),
            alignment_change_threshold.spec_alignment_cutoff(n_test_sets as int),
            match overlap_overflow_threshold {
                Some(t) => Some(t.spec_overlap_overflow_cutoff(n_test_sets as int)),
                None => None,
            },
        ),
{
    let overlap_overflow_cutoff = match overlap_overflow_threshold {
        Some(t) => Some(t.overlap_overflow_cutoff(n_test_sets)),
        None => None,
    };
    let alignment_cutoff = alignment_change_threshold.alignment_cutoff(n_test_sets);
    find_baseline_for_cutoffs(violations, alignment_cutoff, overlap_overflow_cutoff)
}

/// True if the bucket holds a violation that is the same finding as `v`.
pub open spec fn holds_finding(bucket: Seq<LayoutViolation>, v: ViolationView) -> bool {
    exists|i: int| 0 <= i < bucket.len() && (#[trigger] bucket[i])@.same_finding(v)
}

/// The bucket without the violations that are the same finding as `v`.
pub open spec fn without_finding(bucket: Seq<LayoutViolation>, v: ViolationView) -> Seq<
    LayoutViolation,
> {
    bucket.filter(|x: LayoutViolation| !x@.same_finding(v))
}

/// The buckets after the finding `v` was removed: from the first bucket
/// that holds it, in the order overflows, overlaps, lost alignments, every
/// violation that is this finding is taken out.
pub open spec fn removed(b: Buckets, v: ViolationView) -> Buckets {
    if holds_finding(b.overflows, v) {
        Buckets { overflows: without_finding(b.overflows, v), ..b }
    } else if holds_finding(b.overlaps, v) {
        Buckets { overlaps: without_finding(b.overlaps, v), ..b }
    } else if holds_finding(b.alignment_changes, v) {
        Buckets { alignment_changes: without_finding(b.alignment_changes, v), ..b }
    } else {
        b
    }
}

/// The buckets after the first `n` findings of the baseline were removed.
pub open spec fn removed_all(b: Buckets, baseline: Seq<ViolationView>, n: nat) -> Buckets
    decreases n,
{
    if n == 0 {
        b
    } else {
        removed(removed_all(b, baseline, (n - 1) as nat), baseline[n - 1])
    }
}

/// Tells whether the bucket holds a violation that is the same finding.
fn bucket_holds(bucket: &Vec<LayoutViolation>, v: &LayoutViolation) -> (r: bool)
    ensures
        r == holds_finding(bucket@, v@),
{
    let mut i: usize = 0;
    while i < bucket.len()
        invariant
            i <= bucket.len(),
            forall|j: int| 0 <= j < i ==> !(#[trigger] bucket@[j])@.same_finding(v@),
        decreases bucket.len() - i,
    {
        if bucket[i].eq(v) {
            return true;
        }
        i += 1;
    }
    false
}

/// Takes every violation that is the same finding as `v` out of the bucket.
fn remove_finding(bucket: &mut Vec<LayoutViolation>, v: &LayoutViolation)
    ensures
        final(bucket)@ == without_finding(old(bucket)@, v@),
{
    let mut all: Vec<LayoutViolation> = Vec::new();
    std::mem::swap(&mut all, bucket);
    let ghost before = all@;
    let ghost keep = |x: LayoutViolation| !x@.same_finding(v@);
    for x in it: all
        invariant
            it.seq() == before,
            keep == (|x: LayoutViolation| !x@.same_finding(v@)),
            bucket@ == before.take(it.index() as int).filter(keep),
    {
        proof {
            let k = it.index() as int;
            assert(before.take(k + 1) =~= before.take(k).push(x));
            Seq::lemma_filter_push(before.take(k), x, keep);
        }
        if !x.eq(v) {
            bucket.push(x);
        }
    }
    proof {
        assert(before.take(before.len() as int) =~= before);
    }
}

/// Removes the findings of the baseline. Each is looked for in the
/// overflows, then in the overlaps, then in the lost alignments; from the
/// first of these that holds it, every violation that is this finding is
/// removed, however many there are.
pub fn remove_baseline_violations(violations: &mut LayoutViolations, baseline: &Baseline)
    ensures
        buckets_of(final(violations)) == removed_all(
            buckets_of(old(violations)),
            views(baseline.violations_to_accept@),
            baseline.violations_to_accept@.len(),
        ),
{
    let ghost start = buckets_of(violations);
    let ghost accepted = views(baseline.violations_to_accept@);
    let mut i: usize = 0;
    while i < baseline.violations_to_accept.len()
        invariant
            i <= baseline.violations_to_accept.len(),
            accepted == views(baseline.violations_to_accept@),
            buckets_of(violations) == removed_all(start, accepted, i as nat),
        decreases baseline.violations_to_accept.len() - i,
    {
        let v = &baseline.violations_to_accept[i];
        if bucket_holds(&violations.overflows, v) {
            remove_finding(&mut violations.overflows, v);
        } else if bucket_holds(&violations.overlaps, v) {
            remove_finding(&mut violations.overlaps, v);
        } else if bucket_holds(&violations.alignment_changes, v) {
            remove_finding(&mut violations.alignment_changes, v);
        }
        i += 1;
    }
}

/// True if no bucket holds a violation that is the same finding as `v`.
pub open spec fn nowhere(b: Buckets, v: ViolationView) -> bool {
    &&& !holds_finding(b.overflows, v)
    &&& !holds_finding(b.overlaps, v)
    &&& !holds_finding(b.alignment_changes, v)
}

/// What is left of a bucket after a removal was in it before, and does not
/// hold the finding that was removed.
pub proof fn lemma_without_finding(bucket: Seq<LayoutViolation>, v: ViolationView)
    ensures
        !holds_finding(without_finding(bucket, v), v),
        forall|i: int|
            0 <= i < without_finding(bucket, v).len() ==> bucket.contains(
                #[trigger] without_finding(bucket, v)[i],
            ),
        !holds_finding(bucket, v) ==> without_finding(bucket, v) == bucket,
{
    let keep = |x: LayoutViolation| !x@.same_finding(v);
    let rest = bucket.filter(keep);
    assert forall|i: int| 0 <= i < rest.len() implies bucket.contains(#[trigger] rest[i])
        && keep(rest[i]) by {
        bucket.lemma_filter_pred(keep, i);
        bucket.lemma_filter_contains_rev(keep, rest[i]);
    }
    if !holds_finding(bucket, v) {
        lemma_filter_keeps_all(bucket, keep);
    }
}

/// A removal leaves the buckets typed, and a finding that no bucket held
/// is held by none after it.
pub proof fn lemma_removed_keeps(b: Buckets, v: ViolationView, w: ViolationView)
    requires
        typed(b),
    ensures
        typed(removed(b, v)),
        nowhere(b, w) ==> nowhere(removed(b, v), w),
{
    lemma_without_finding(b.overflows, v);
    lemma_without_finding(b.overlaps, v);
    lemma_without_finding(b.alignment_changes, v);
    let after = removed(b, v);
    lemma_subsequence_holds(b.overflows, after.overflows, w);
    lemma_subsequence_holds(b.overlaps, after.overlaps, w);
    lemma_subsequence_holds(b.alignment_changes, after.alignment_changes, w);
    assert forall|i: int| 0 <= i < after.overflows.len() implies (
    #[trigger] after.overflows[i]) is Overflow by {
        lemma_member_of_typed(b.overflows, after.overflows[i]);
    }
    assert forall|i: int| 0 <= i < after.overlaps.len() implies (
    #[trigger] after.overlaps[i]) is Overlap by {
        lemma_member_of_typed(b.overlaps, after.overlaps[i]);
    }
    assert forall|i: int| 0 <= i < after.alignment_changes.len() implies (
    #[trigger] after.alignment_changes[i]) is AlignmentLost by {
        lemma_member_of_typed(b.alignment_changes, after.alignment_changes[i]);
    }
}

/// An item that a sequence holds stands at one of its positions.
pub proof fn lemma_member_of_typed(s: Seq<LayoutViolation>, x: LayoutViolation)
    requires
        s.contains(x),
    ensures
        exists|i: int| 0 <= i < s.len() && #[trigger] s[i] == x,
{
}

/// If every item of `part` is an item of `whole`, a finding that `whole`
/// does not hold is not held by `part`.
pub proof fn lemma_subsequence_holds(
    whole: Seq<LayoutViolation>,
    part: Seq<LayoutViolation>,
    w: ViolationView,
)
    requires
        forall|i: int| 0 <= i < part.len() ==> whole.contains(#[trigger] part[i]),
    ensures
        !holds_finding(whole, w) ==> !holds_finding(part, w),
{
    if holds_finding(part, w) {
        let i = choose|i: int| 0 <= i < part.len() && (#[trigger] part[i])@.same_finding(w);
        let j = choose|j: int| 0 <= j < whole.len() && whole[j] == part[i];
    }
}

/// After one removal from typed buckets no bucket holds the finding.
pub proof fn lemma_removed_is_exhaustive(b: Buckets, v: ViolationView)
    requires
        typed(b),
    ensures
        nowhere(removed(b, v), v),
{
    lemma_without_finding(b.overflows, v);
    lemma_without_finding(b.overlaps, v);
    lemma_without_finding(b.alignment_changes, v);
    assert forall|i: int| 0 <= i < b.overflows.len() && !(v is Overflow) implies !(
    #[trigger] b.overflows[i])@.same_finding(v) by {}
    assert forall|i: int| 0 <= i < b.overlaps.len() && !(v is Overlap) implies !(
    #[trigger] b.overlaps[i])@.same_finding(v) by {}
    assert forall|i: int| 0 <= i < b.alignment_changes.len() && !(v is AlignmentLost) implies !(
    #[trigger] b.alignment_changes[i])@.same_finding(v) by {}
}

/// Removal is exhaustive: where each bucket holds the findings of its own
/// rule, no violation is left that is the same finding as one of the
/// baseline, however many of them there were.
pub proof fn lemma_removal_is_exhaustive(b: Buckets, baseline: Seq<ViolationView>, n: nat, k: int)
    requires
        typed(b),
        n <= baseline.len(),
        0 <= k < n,
    ensures
        typed(removed_all(b, baseline, n)),
        nowhere(removed_all(b, baseline, n), baseline[k]),
    decreases n,
{
    lemma_removed_all_typed(b, baseline, (n - 1) as nat);
    let before = removed_all(b, baseline, (n - 1) as nat);
    lemma_removed_keeps(before, baseline[n - 1], baseline[k]);
    if k == n - 1 {
        lemma_removed_is_exhaustive(before, baseline[k]);
    } else {
        lemma_removal_is_exhaustive(b, baseline, (n - 1) as nat, k);
    }
}

/// Removals leave typed buckets typed.
pub proof fn lemma_removed_all_typed(b: Buckets, baseline: Seq<ViolationView>, n: nat)
    requires
        typed(b),
    ensures
        typed(removed_all(b, baseline, n)),
    decreases n,
{
    if n > 0 {
        lemma_removed_all_typed(b, baseline, (n - 1) as nat);
        lemma_removed_keeps(removed_all(b, baseline, (n - 1) as nat), baseline[n - 1], baseline[n - 1]);
    }
}

/// What [`selected`] gives stood in the sequence, at a wanted position.
pub proof fn lemma_selected_member(
    all: Seq<ViolationView>,
    wanted: spec_fn(int) -> bool,
    n: nat,
    k: int,
)
    requires
        n <= all.len(),
        0 <= k < selected(all, wanted, n).len(),
    ensures
        exists|i: int| 0 <= i < n && wanted(i) && all[i] == selected(all, wanted, n)[k],
    decreases n,
{
    if n > 0 {
        let before = selected(all, wanted, (n - 1) as nat);
        if k < before.len() {
            lemma_selected_member(all, wanted, (n - 1) as nat, k);
        } else {
            assert(wanted(n - 1));
        }
    }
}

/// Where no cutoff for overlaps and overflows is given, the baseline holds
/// lost alignments only.
pub proof fn lemma_baseline_without_cutoff(all: Seq<ViolationView>, alignment_cutoff: int, k: int)
    requires
        0 <= k < baseline_of(all, alignment_cutoff, None).len(),
    ensures
        baseline_of(all, alignment_cutoff, None)[k] is AlignmentLost,
{
    let wanted = |i: int| accepted_alignment(all, alignment_cutoff, i);
    lemma_selected_member(all, wanted, all.len(), k);
}

/// Removing lost alignments from typed buckets leaves the overflows and
/// the overlaps as they are.
pub proof fn lemma_removing_alignments_keeps_the_rest(
    b: Buckets,
    baseline: Seq<ViolationView>,
    n: nat,
)
    requires
        typed(b),
        n <= baseline.len(),
        forall|k: int| 0 <= k < baseline.len() ==> (#[trigger] baseline[k]) is AlignmentLost,
    ensures
        removed_all(b, baseline, n).overflows == b.overflows,
        removed_all(b, baseline, n).overlaps == b.overlaps,
    decreases n,
{
    if n > 0 {
        lemma_removing_alignments_keeps_the_rest(b, baseline, (n - 1) as nat);
        lemma_removed_all_typed(b, baseline, (n - 1) as nat);
        let before = removed_all(b, baseline, (n - 1) as nat);
        let v = baseline[n - 1];
        assert forall|i: int| 0 <= i < before.overflows.len() implies !(
        #[trigger] before.overflows[i])@.same_finding(v) by {}
        assert forall|i: int| 0 <= i < before.overlaps.len() implies !(
        #[trigger] before.overlaps[i])@.same_finding(v) by {}
    }
}

/// Without a cutoff for overlaps and overflows, every overlap and every
/// overflow that was found is still there after the baseline was removed.
pub proof fn lemma_no_cutoff_keeps_overlaps_and_overflows(
    violations: &LayoutViolations,
    alignment_cutoff: int,
)
    requires
        typed(buckets_of(violations)),
    ensures
        ({
            let baseline = baseline_of(violations.spec_all(), alignment_cutoff, None);
            let after = removed_all(buckets_of(violations), baseline, baseline.len());
            after.overflows == violations.overflows@ && after.overlaps == violations.overlaps@
        }),
{
    let baseline = baseline_of(violations.spec_all(), alignment_cutoff, None);
    assert forall|k: int| 0 <= k < baseline.len() implies (#[trigger] baseline[k]) is AlignmentLost by {
        lemma_baseline_without_cutoff(violations.spec_all(), alignment_cutoff, k);
    }
    lemma_removing_alignments_keeps_the_rest(buckets_of(violations), baseline, baseline.len());
}

} // verus!
