//! The per-chromosome overlap scan, the unmapped-read tally, and the
//! reduction of per-chromosome results into whole-genome totals.

use crate::cigar::{
    check_cigar_overlap, cigar_end_pos, lemma_overlap_bounds, overlaps, ref_len, CigarOp,
};
use crate::errors::CountError;
use crate::filter::{
    accepts, always_excluded, check_read, is_always_excluded, unmapped_options, unmapped_policy,
    ProgramOptions, ReadCheckOutcome,
};
use crate::regions::Region;
use vstd::prelude::*;

verus! {

broadcast use vstd::seq_lib::group_to_multiset_ensures;

/// What the scan reads of one alignment record: its 0-based leftmost
/// reference position, mapping quality, flag bitmask and CIGAR
/// operations.
#[derive(Debug, Clone)]
pub struct ReadRecord {
    pub pos: i64,
    pub mapq: u8,
    pub flags: u16,
    pub cigar: Vec<CigarOp>,
}

/// An accepted/rejected count pair for one category of records.
#[derive(Debug, Clone, Copy, PartialEq, Eq, Structural)]
pub struct CountResult {
    pub accepted: usize,
    pub rejected: usize,
}

/// Accepted and rejected counts of the classifier over a read sequence,
/// with always-excluded records counted in neither.
pub open spec fn classify_tally(args: ProgramOptions, reads: Seq<ReadRecord>) -> (int, int)
    decreases reads.len(),
{
    if reads.len() == 0 {
        (0, 0)
    } else {
        let p = classify_tally(args, reads.drop_last());
        let r = reads.last();
        if always_excluded(r.flags) {
            p
        } else if accepts(args, r.mapq, r.flags) {
            (p.0 + 1, p.1)
        } else {
            (p.0, p.1 + 1)
        }
    }
}

/// The read's CIGAR walk intersects at least one of the regions.
pub open spec fn read_overlaps_some(r: ReadRecord, regions: Seq<Region>) -> bool {
    exists|i: int|
        0 <= i < regions.len() && overlaps(
            r.pos as int,
            r.cigar@,
            #[trigger] regions[i].start as int,
            regions[i].end as int,
        )
}

/// Accepted and rejected counts of the reads that overlap some region,
/// with always-excluded records counted in neither. A read counts at
/// most once however many regions it touches.
pub open spec fn exon_tally(args: ProgramOptions, regions: Seq<Region>, reads: Seq<ReadRecord>) -> (
    int,
    int,
)
    decreases reads.len(),
{
    if reads.len() == 0 {
        (0, 0)
    } else {
        let p = exon_tally(args, regions, reads.drop_last());
        let r = reads.last();
        if !always_excluded(r.flags) && read_overlaps_some(r, regions) {
            if accepts(args, r.mapq, r.flags) {
                (p.0 + 1, p.1)
            } else {
                (p.0, p.1 + 1)
            }
        } else {
            p
        }
    }
}

/// Scan one chromosome's reads, delivered in non-decreasing position
/// order, against its region list, sorted by start. Returns the mapped
/// tally (every counted read, classified) and the exon tally (the
/// counted reads whose CIGAR walk overlaps some region, classified the
/// same way).
pub fn count_reads(regions: &Vec<Region>, reads: &Vec<ReadRecord>, args: &ProgramOptions) -> (r: (
    CountResult,
    CountResult,
))
    requires
        forall|i: int, j: int|
            0 <= i < j < regions@.len() ==> #[trigger] regions@[i].start <= #[trigger] regions@[j].start,
        forall|i: int, j: int|
            0 <= i < j < reads@.len() ==> #[trigger] reads@[i].pos <= #[trigger] reads@[j].pos,
        forall|i: int|
            0 <= i < reads@.len() ==> #[trigger] reads@[i].pos >= 0 && reads@[i].pos + ref_len(
                reads@[i].cigar@,
            ) <= i64::MAX,
    ensures
        r.0.accepted == classify_tally(*args, reads@).0,
        r.0.rejected == classify_tally(*args, reads@).1,
        r.1.accepted == exon_tally(*args, regions@, reads@).0,
        r.1.rejected == exon_tally(*args, regions@, reads@).1,
{
    let mut all_acc: usize = 0;
    let mut all_rej: usize = 0;
    let mut exon_acc: usize = 0;
    let mut exon_rej: usize = 0;
    let mut cursor: usize = 0;
    let mut k: usize = 0;
    while k < reads.len()
        invariant
            0 <= k <= reads@.len(),
            cursor <= regions@.len(),
            forall|i: int, j: int|
                0 <= i < j < regions@.len() ==> #[trigger] regions@[i].start
                    <= #[trigger] regions@[j].start,
            forall|i: int, j: int|
                0 <= i < j < reads@.len() ==> #[trigger] reads@[i].pos <= #[trigger] reads@[j].pos,
            forall|i: int|
                0 <= i < reads@.len() ==> #[trigger] reads@[i].pos >= 0 && reads@[i].pos + ref_len(
                    reads@[i].cigar@,
                ) <= i64::MAX,
            cursor > 0 ==> k > 0,
            forall|t: int|
                0 <= t < cursor ==> #[trigger] regions@[t].end <= reads@[k - 1].pos,
            all_acc <= k && all_rej <= k && exon_acc <= k && exon_rej <= k,
            all_acc == classify_tally(*args, reads@.take(k as int)).0,
            all_rej == classify_tally(*args, reads@.take(k as int)).1,
            exon_acc == exon_tally(*args, regions@, reads@.take(k as int)).0,
            exon_rej == exon_tally(*args, regions@, reads@.take(k as int)).1,
        decreases reads@.len() - k,
    {
        let read = &reads[k];
        proof {
            assert(reads@.take(k + 1).drop_last() =~= reads@.take(k as int));
            assert(reads@.take(k + 1).last() == reads@[k as int]);
        }
        if is_always_excluded(read.flags) {
            // contributes to no tally
        } else {
            let outcome = check_read(read.mapq, read.flags, args);
            match outcome {
                ReadCheckOutcome::Accept => {
                    all_acc = all_acc + 1;
                },
                ReadCheckOutcome::Reject => {
                    all_rej = all_rej + 1;
                },
            }
            while cursor < regions.len() && read.pos >= regions[cursor].end
                invariant
                    cursor <= regions@.len(),
                    read == &reads@[k as int],
                    k < reads@.len(),
                    forall|t: int|
                        0 <= t < cursor ==> #[trigger] regions@[t].end <= reads@[k as int].pos,
                decreases regions@.len() - cursor,
            {
                cursor = cursor + 1;
            }
            let mut hit: bool = false;
            if cursor < regions.len() {
                let end_pos = cigar_end_pos(read.pos, &read.cigar);
                let mut idx = cursor;
                loop
                    invariant_except_break
                        hit == false,
                        cursor <= idx <= regions@.len(),
                        end_pos == reads@[k as int].pos + ref_len(reads@[k as int].cigar@),
                        read == &reads@[k as int],
                        k < reads@.len(),
                        reads@[k as int].pos >= 0 && end_pos <= i64::MAX,
                        forall|i: int, j: int|
                            0 <= i < j < regions@.len() ==> #[trigger] regions@[i].start
                                <= #[trigger] regions@[j].start,
                        forall|t: int|
                            cursor <= t < idx ==> !overlaps(
                                reads@[k as int].pos as int,
                                reads@[k as int].cigar@,
                                #[trigger] regions@[t].start as int,
                                regions@[t].end as int,
                            ),
                    ensures
                        hit == exists|t: int|
                            cursor <= t < regions@.len() && overlaps(
                                reads@[k as int].pos as int,
                                reads@[k as int].cigar@,
                                #[trigger] regions@[t].start as int,
                                regions@[t].end as int,
                            ),
                    decreases regions@.len() - idx,
                {
                    if idx >= regions.len() {
                        break ;
                    }
                    let region = &regions[idx];
                    if region.start > end_pos {
                        proof {
                            assert forall|t: int|
                                idx <= t < regions@.len() implies !overlaps(
                                reads@[k as int].pos as int,
                                reads@[k as int].cigar@,
                                #[trigger] regions@[t].start as int,
                                regions@[t].end as int,
                            ) by {
                                if overlaps(
                                    reads@[k as int].pos as int,
                                    reads@[k as int].cigar@,
                                    regions@[t].start as int,
                                    regions@[t].end as int,
                                ) {
                                    lemma_overlap_bounds(
                                        reads@[k as int].pos as int,
                                        reads@[k as int].cigar@,
                                        regions@[t].start as int,
                                        regions@[t].end as int,
                                    );
                                    if t > idx {
                                        assert(regions@[idx as int].start <= regions@[t].start);
                                    }
                                }
                            }
                        }
                        break ;
                    }
                    if check_cigar_overlap(read.pos, &read.cigar, region.start, region.end) {
                        hit = true;
                        break ;
                    }
                    idx = idx + 1;
                }
            }
            proof {
                let rk = reads@[k as int];
                assert forall|t: int|
                    0 <= t < cursor implies !overlaps(
                    rk.pos as int,
                    rk.cigar@,
                    #[trigger] regions@[t].start as int,
                    regions@[t].end as int,
                ) by {
                    if overlaps(
                        rk.pos as int,
                        rk.cigar@,
                        regions@[t].start as int,
                        regions@[t].end as int,
                    ) {
                        lemma_overlap_bounds(
                            rk.pos as int,
                            rk.cigar@,
                            regions@[t].start as int,
                            regions@[t].end as int,
                        );
                    }
                }
                assert(hit == read_overlaps_some(rk, regions@));
            }
            if hit {
                match outcome {
                    ReadCheckOutcome::Accept => {
                        exon_acc = exon_acc + 1;
                    },
                    ReadCheckOutcome::Reject => {
                        exon_rej = exon_rej + 1;
                    },
                }
            }
        }
        k = k + 1;
    }
    proof {
        assert(reads@.take(reads@.len() as int) =~= reads@);
    }
    (
        CountResult { accepted: all_acc, rejected: all_rej },
        CountResult { accepted: exon_acc, rejected: exon_rej },
    )
}

/// Tally the unmapped-record partition: apply the always-exclude filter
/// and classify each remaining record under the policy derived for
/// unmapped reads.
pub fn count_unmapped_reads(args: &ProgramOptions, reads: &Vec<ReadRecord>) -> (r: CountResult)
    ensures
        r.accepted == classify_tally(unmapped_policy(*args), reads@).0,
        r.rejected == classify_tally(unmapped_policy(*args), reads@).1,
{
    let derived = unmapped_options(args);
    let mut acc: usize = 0;
    let mut rej: usize = 0;
    let mut k: usize = 0;
    while k < reads.len()
        invariant
            0 <= k <= reads@.len(),
            derived == unmapped_policy(*args),
            acc <= k && rej <= k,
            acc == classify_tally(derived, reads@.take(k as int)).0,
            rej == classify_tally(derived, reads@.take(k as int)).1,
        decreases reads@.len() - k,
    {
        let read = &reads[k];
        proof {
            assert(reads@.take(k + 1).drop_last() =~= reads@.take(k as int));
            assert(reads@.take(k + 1).last() == reads@[k as int]);
        }
        if is_always_excluded(read.flags) {
            // contributes to no tally
        } else {
            match check_read(read.mapq, read.flags, &derived) {
                ReadCheckOutcome::Accept => {
                    acc = acc + 1;
                },
                ReadCheckOutcome::Reject => {
                    rej = rej + 1;
                },
            }
        }
        k = k + 1;
    }
    proof {
        assert(reads@.take(reads@.len() as int) =~= reads@);
    }
    CountResult { accepted: acc, rejected: rej }
}

/// Component-wise sums of (mapped, exon) tally pairs:
/// (mapped accepted, mapped rejected, exon accepted, exon rejected).
pub open spec fn sum_tallies(s: Seq<(CountResult, CountResult)>) -> (int, int, int, int)
    decreases s.len(),
{
    if s.len() == 0 {
        (0, 0, 0, 0)
    } else {
        let p = sum_tallies(s.drop_last());
        let x = s.last();
        (p.0 + x.0.accepted, p.1 + x.0.rejected, p.2 + x.1.accepted, p.3 + x.1.rejected)
    }
}

/// The tally pairs of the successful results, in order.
pub open spec fn ok_tallies(s: Seq<Result<(CountResult, CountResult), CountError>>) -> Seq<
    (CountResult, CountResult),
>
    decreases s.len(),
{
    if s.len() == 0 {
        Seq::empty()
    } else {
        let p = ok_tallies(s.drop_last());
        if s.last() is Ok {
            p.push(s.last()->Ok_0)
        } else {
            p
        }
    }
}

/// Some result failed.
pub open spec fn has_err(s: Seq<Result<(CountResult, CountResult), CountError>>) -> bool {
    exists|i: int| 0 <= i < s.len() && (#[trigger] s[i]) is Err
}

/// The position of the first failed result.
pub open spec fn first_err_idx(s: Seq<Result<(CountResult, CountResult), CountError>>) -> int
    decreases s.len(),
{
    if s.len() == 0 {
        0
    } else if s[0] is Err {
        0
    } else {
        1 + first_err_idx(s.drop_first())
    }
}

proof fn lemma_first_err_idx(s: Seq<Result<(CountResult, CountResult), CountError>>, k: int)
    requires
        0 <= k < s.len(),
        s[k] is Err,
        forall|t: int| 0 <= t < k ==> !((#[trigger] s[t]) is Err),
    ensures
        first_err_idx(s) == k,
    decreases s.len(),
{
    if k > 0 {
        assert(forall|t: int|
            0 <= t < s.drop_first().len() ==> #[trigger] s.drop_first()[t] == s[t + 1]);
        lemma_first_err_idx(s.drop_first(), k - 1);
    }
}

proof fn lemma_ok_sum_step(s: Seq<Result<(CountResult, CountResult), CountError>>, k: int)
    requires
        0 <= k < s.len(),
    ensures
        s[k] is Ok ==> {
            let p = sum_tallies(ok_tallies(s.take(k)));
            let q = sum_tallies(ok_tallies(s.take(k + 1)));
            let x = s[k]->Ok_0;
            q.0 == p.0 + x.0.accepted && q.1 == p.1 + x.0.rejected && q.2 == p.2 + x.1.accepted
                && q.3 == p.3 + x.1.rejected
        },
        s[k] is Err ==> ok_tallies(s.take(k + 1)) == ok_tallies(s.take(k)),
{
    assert(s.take(k + 1).drop_last() =~= s.take(k));
    assert(s.take(k + 1).last() == s[k]);
    if s[k] is Ok {
        let x = s[k]->Ok_0;
        let p = ok_tallies(s.take(k));
        assert(ok_tallies(s.take(k + 1)) == p.push(x));
        assert(p.push(x).drop_last() =~= p);
        assert(p.push(x).last() == x);
    }
}

proof fn lemma_ok_sum_mono(s: Seq<Result<(CountResult, CountResult), CountError>>, k: int)
    requires
        0 <= k <= s.len(),
    ensures
        sum_tallies(ok_tallies(s.take(k))).0 <= sum_tallies(ok_tallies(s)).0,
        sum_tallies(ok_tallies(s.take(k))).1 <= sum_tallies(ok_tallies(s)).1,
        sum_tallies(ok_tallies(s.take(k))).2 <= sum_tallies(ok_tallies(s)).2,
        sum_tallies(ok_tallies(s.take(k))).3 <= sum_tallies(ok_tallies(s)).3,
    decreases s.len() - k,
{
    if k == s.len() {
        assert(s.take(k) =~= s);
    } else {
        lemma_ok_sum_step(s, k);
        lemma_ok_sum_mono(s, k + 1);
    }
}

/// Reduce per-chromosome scan results to whole-genome totals. Any
/// failure aborts the reduction: the first failed result is returned and
/// sibling tallies are discarded. With no failure, the four counters are
/// summed across chromosomes.
pub fn reduce_scan_results(results: Vec<Result<(CountResult, CountResult), CountError>>) -> (r:
    Result<(CountResult, CountResult), CountError>)
    requires
        sum_tallies(ok_tallies(results@)).0 <= usize::MAX,
        sum_tallies(ok_tallies(results@)).1 <= usize::MAX,
        sum_tallies(ok_tallies(results@)).2 <= usize::MAX,
        sum_tallies(ok_tallies(results@)).3 <= usize::MAX,
    ensures
        (r is Err) == has_err(results@),
        r is Err ==> r->Err_0 == results@[first_err_idx(results@)]->Err_0,
        r is Ok ==> {
            let t = sum_tallies(ok_tallies(results@));
            r->Ok_0.0.accepted == t.0 && r->Ok_0.0.rejected == t.1 && r->Ok_0.1.accepted == t.2
                && r->Ok_0.1.rejected == t.3
        },
{
    let mut all_acc: usize = 0;
    let mut all_rej: usize = 0;
    let mut exon_acc: usize = 0;
    let mut exon_rej: usize = 0;
    let mut k: usize = 0;
    let mut results = results;
    loop
        invariant_except_break
            0 <= k <= results@.len(),
            sum_tallies(ok_tallies(results@)).0 <= usize::MAX,
            sum_tallies(ok_tallies(results@)).1 <= usize::MAX,
            sum_tallies(ok_tallies(results@)).2 <= usize::MAX,
            sum_tallies(ok_tallies(results@)).3 <= usize::MAX,
            forall|t: int| 0 <= t < k ==> !((#[trigger] results@[t]) is Err),
            all_acc == sum_tallies(ok_tallies(results@.take(k as int))).0,
            all_rej == sum_tallies(ok_tallies(results@.take(k as int))).1,
            exon_acc == sum_tallies(ok_tallies(results@.take(k as int))).2,
            exon_rej == sum_tallies(ok_tallies(results@.take(k as int))).3,
        ensures
            0 <= k <= results@.len(),
            forall|t: int| 0 <= t < k ==> !((#[trigger] results@[t]) is Err),
            k == results@.len() || results@[k as int] is Err,
            k == results@.len() ==> {
                let t = sum_tallies(ok_tallies(results@));
                all_acc == t.0 && all_rej == t.1 && exon_acc == t.2 && exon_rej == t.3
            },
        decreases results@.len() - k,
    {
        if k >= results.len() {
            proof {
                assert(results@.take(k as int) =~= results@);
            }
            break ;
        }
        proof {
            lemma_ok_sum_step(results@, k as int);
            lemma_ok_sum_mono(results@, k + 1);
            lemma_sum_tallies_nonneg(ok_tallies(results@.take(k as int)));
        }
        match &results[k] {
            Ok(pair) => {
                all_acc = all_acc + pair.0.accepted;
                all_rej = all_rej + pair.0.rejected;
                exon_acc = exon_acc + pair.1.accepted;
                exon_rej = exon_rej + pair.1.rejected;
            },
            Err(_) => {
                break ;
            },
        }
        k = k + 1;
    }
    if k < results.len() {
        proof {
            lemma_first_err_idx(results@, k as int);
        }
        let first = results.remove(k);
        first
    } else {
        proof {
            if has_err(results@) {
                let t = choose|t: int| 0 <= t < results@.len() && (#[trigger] results@[t]) is Err;
            }
        }
        Ok(
            (
                CountResult { accepted: all_acc, rejected: all_rej },
                CountResult { accepted: exon_acc, rejected: exon_rej },
            ),
        )
    }
}

proof fn lemma_sum_tallies_nonneg(s: Seq<(CountResult, CountResult)>)
    ensures
        sum_tallies(s).0 >= 0,
        sum_tallies(s).1 >= 0,
        sum_tallies(s).2 >= 0,
        sum_tallies(s).3 >= 0,
    decreases s.len(),
{
    if s.len() > 0 {
        lemma_sum_tallies_nonneg(s.drop_last());
    }
}

proof fn lemma_sum_tallies_remove(s: Seq<(CountResult, CountResult)>, i: int)
    requires
        0 <= i < s.len(),
    ensures
        sum_tallies(s).0 == sum_tallies(s.remove(i)).0 + s[i].0.accepted,
        sum_tallies(s).1 == sum_tallies(s.remove(i)).1 + s[i].0.rejected,
        sum_tallies(s).2 == sum_tallies(s.remove(i)).2 + s[i].1.accepted,
        sum_tallies(s).3 == sum_tallies(s.remove(i)).3 + s[i].1.rejected,
    decreases s.len(),
{
    if i == s.len() - 1 {
        assert(s.remove(i) =~= s.drop_last());
    } else {
        assert(s.remove(i).drop_last() =~= s.drop_last().remove(i));
        assert(s.remove(i).last() == s.last());
        assert(s.drop_last()[i] == s[i]);
        lemma_sum_tallies_remove(s.drop_last(), i);
    }
}

/// Aggregation is deterministic: the whole-genome sums do not depend on
/// the order in which the per-chromosome tallies arrive. Any two
/// arrangements of the same tallies sum to the same four totals.
pub proof fn lemma_sum_tallies_permutation(
    s1: Seq<(CountResult, CountResult)>,
    s2: Seq<(CountResult, CountResult)>,
)
    requires
        s1.to_multiset() == s2.to_multiset(),
    ensures
        sum_tallies(s1) == sum_tallies(s2),
    decreases s1.len(),
{
    if s1.len() == 0 {
        assert(s1.to_multiset().len() == 0);
        assert(s2.len() == 0);
    } else {
        let x = s1.last();
        assert(s1.contains(x));
        assert(s1.to_multiset().count(x) > 0);
        assert(s2.to_multiset().count(x) > 0);
        assert(s2.contains(x));
        let i = choose|i: int| 0 <= i < s2.len() && s2[i] == x;
        assert(s1.drop_last() =~= s1.remove(s1.len() - 1));
        assert(s1.drop_last().to_multiset() == s1.to_multiset().remove(x));
        assert(s2.remove(i).to_multiset() == s2.to_multiset().remove(x));
        lemma_sum_tallies_permutation(s1.drop_last(), s2.remove(i));
        lemma_sum_tallies_remove(s2, i);
    }
}

} // verus!
