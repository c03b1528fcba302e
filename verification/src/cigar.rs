//! CIGAR alignment analysis: pure functions over an alignment's operation
//! sequence. `cigar_end_pos` computes the half-open end of the alignment's
//! reference footprint; `check_cigar_overlap` decides whether any aligned
//! (match-kind) segment intersects a half-open interval.

use vstd::prelude::*;

verus! {

/// The kind of one CIGAR operation.
#[derive(Debug, Clone, Copy, PartialEq, Eq, Structural)]
pub enum CigarKind {
    /// `M`: alignment match (may be a sequence match or mismatch).
    Match,
    /// `=`: sequence match.
    SeqMatch,
    /// `X`: sequence mismatch.
    SeqMismatch,
    /// `I`: insertion to the reference.
    Ins,
    /// `D`: deletion from the reference.
    Del,
    /// `N`: skipped region from the reference (an intron in spliced reads).
    RefSkip,
    /// `S`: soft clipping.
    SoftClip,
    /// `H`: hard clipping.
    HardClip,
    /// `P`: padding.
    Pad,
}

/// One CIGAR operation: a kind and a length.
#[derive(Debug, Clone, Copy, PartialEq, Eq, Structural)]
pub struct CigarOp {
    pub kind: CigarKind,
    pub len: u32,
}

/// Kinds whose span is aligned against the reference and is therefore
/// tested for overlap: `M`, `=` and `X`.
pub open spec fn is_match_kind(k: CigarKind) -> bool {
    k == CigarKind::Match || k == CigarKind::SeqMatch || k == CigarKind::SeqMismatch
}

/// Kinds that advance the reference cursor: the match kinds plus
/// deletions (`D`) and reference skips (`N`).
pub open spec fn consumes_ref(k: CigarKind) -> bool {
    is_match_kind(k) || k == CigarKind::Del || k == CigarKind::RefSkip
}

/// Reference-length contribution of one operation.
pub open spec fn ref_advance(op: CigarOp) -> int {
    if consumes_ref(op.kind) {
        op.len as int
    } else {
        0
    }
}

/// Total reference length consumed by a sequence of operations.
pub open spec fn ref_len(ops: Seq<CigarOp>) -> int
    decreases ops.len(),
{
    if ops.len() == 0 {
        0
    } else {
        ref_len(ops.drop_last()) + ref_advance(ops.last())
    }
}

/// The reference cursor just before operation `k` is processed.
pub open spec fn op_cursor(pos: int, ops: Seq<CigarOp>, k: int) -> int {
    pos + ref_len(ops.take(k))
}

/// Operation `k` is a match-kind segment whose reference span
/// `[cursor, cursor + len)` intersects the half-open interval
/// `[start, end)`.
pub open spec fn op_overlaps_at(pos: int, ops: Seq<CigarOp>, k: int, start: int, end: int) -> bool {
    let c = op_cursor(pos, ops, k);
    is_match_kind(ops[k].kind) && c < end && c + ops[k].len > start
}

/// Some aligned segment of the operation sequence intersects the
/// half-open interval `[start, end)`. Deletions and reference skips
/// advance the cursor but are never themselves tested, so a gap inside
/// the footprint does not count as an overlap.
pub open spec fn overlaps(pos: int, ops: Seq<CigarOp>, start: int, end: int) -> bool {
    exists|k: int| 0 <= k < ops.len() && op_overlaps_at(pos, ops, k, start, end)
}

pub proof fn lemma_ref_len_nonneg(ops: Seq<CigarOp>)
    ensures
        ref_len(ops) >= 0,
    decreases ops.len(),
{
    if ops.len() > 0 {
        lemma_ref_len_nonneg(ops.drop_last());
    }
}

pub proof fn lemma_ref_len_take_succ(ops: Seq<CigarOp>, i: int)
    requires
        0 <= i < ops.len(),
    ensures
        ref_len(ops.take(i + 1)) == ref_len(ops.take(i)) + ref_advance(ops[i]),
{
    assert(ops.take(i + 1).drop_last() =~= ops.take(i));
    assert(ops.take(i + 1).last() == ops[i]);
}

pub proof fn lemma_ref_len_take_bound(ops: Seq<CigarOp>, i: int)
    requires
        0 <= i <= ops.len(),
    ensures
        ref_len(ops.take(i)) <= ref_len(ops),
    decreases ops.len() - i,
{
    if i == ops.len() {
        assert(ops.take(i) =~= ops);
    } else {
        lemma_ref_len_take_succ(ops, i);
        lemma_ref_len_take_bound(ops, i + 1);
    }
}

/// Additivity of the consumed reference length over concatenation.
pub proof fn lemma_ref_len_concat(a: Seq<CigarOp>, b: Seq<CigarOp>)
    ensures
        ref_len(a + b) == ref_len(a) + ref_len(b),
    decreases b.len(),
{
    if b.len() == 0 {
        assert(a + b =~= a);
    } else {
        assert((a + b).drop_last() =~= a + b.drop_last());
        assert((a + b).last() == b.last());
        lemma_ref_len_concat(a, b.drop_last());
    }
}

/// Starting from a 0-based position, add the length of every operation
/// that consumes reference bases; the result is the half-open end of the
/// alignment's reference footprint.
pub fn cigar_end_pos(pos: i64, cigar: &Vec<CigarOp>) -> (end: i64)
    requires
        pos >= 0,
        pos + ref_len(cigar@) <= i64::MAX,
    ensures
        end == pos + ref_len(cigar@),
{
    let mut cur: i64 = pos;
    let mut i: usize = 0;
    while i < cigar.len()
        invariant
            0 <= i <= cigar.len(),
            pos >= 0,
            pos + ref_len(cigar@) <= i64::MAX,
            cur == pos + ref_len(cigar@.take(i as int)),
        decreases cigar.len() - i,
    {
        let op = cigar[i];
        proof {
            lemma_ref_len_take_succ(cigar@, i as int);
            lemma_ref_len_take_bound(cigar@, i + 1);
            lemma_ref_len_nonneg(cigar@.take(i as int));
        }
        match op.kind {
            CigarKind::Match
            | CigarKind::SeqMatch
            | CigarKind::SeqMismatch
            | CigarKind::Del
            | CigarKind::RefSkip => {
                cur = cur + (op.len as i64);
            },
            CigarKind::Ins | CigarKind::SoftClip | CigarKind::HardClip | CigarKind::Pad => {},
        }
        i = i + 1;
    }
    proof {
        assert(cigar@.take(cigar@.len() as int) =~= cigar@);
    }
    cur
}

/// Walk the operations with a reference cursor and report whether any
/// match-kind segment intersects the half-open interval
/// `[interval_start, interval_end)`, returning at the first hit.
pub fn check_cigar_overlap(
    pos: i64,
    cigar: &Vec<CigarOp>,
    interval_start: i64,
    interval_end: i64,
) -> (r: bool)
    requires
        pos >= 0,
        pos + ref_len(cigar@) <= i64::MAX,
    ensures
        r == overlaps(pos as int, cigar@, interval_start as int, interval_end as int),
{
    let mut cur: i64 = pos;
    let mut i: usize = 0;
    while i < cigar.len()
        invariant
            0 <= i <= cigar.len(),
            pos >= 0,
            pos + ref_len(cigar@) <= i64::MAX,
            cur == pos + ref_len(cigar@.take(i as int)),
            forall|k: int|
                0 <= k < i ==> !op_overlaps_at(
                    pos as int,
                    cigar@,
                    k,
                    interval_start as int,
                    interval_end as int,
                ),
        decreases cigar.len() - i,
    {
        let op = cigar[i];
        proof {
            lemma_ref_len_take_succ(cigar@, i as int);
            lemma_ref_len_take_bound(cigar@, i + 1);
            lemma_ref_len_nonneg(cigar@.take(i as int));
        }
        match op.kind {
            CigarKind::Match | CigarKind::SeqMatch | CigarKind::SeqMismatch => {
                if cur < interval_end && cur + (op.len as i64) > interval_start {
                    proof {
                        assert(op_overlaps_at(
                            pos as int,
                            cigar@,
                            i as int,
                            interval_start as int,
                            interval_end as int,
                        ));
                    }
                    return true;
                }
                cur = cur + (op.len as i64);
            },
            CigarKind::Del | CigarKind::RefSkip => {
                cur = cur + (op.len as i64);
            },
            CigarKind::Ins | CigarKind::SoftClip | CigarKind::HardClip | CigarKind::Pad => {},
        }
        i = i + 1;
    }
    false
}

/// Any overlap lies within the alignment's reference footprint: the
/// interval must begin before the footprint's end and end after its
/// start.
pub proof fn lemma_overlap_bounds(pos: int, ops: Seq<CigarOp>, start: int, end: int)
    requires
        overlaps(pos, ops, start, end),
    ensures
        start < pos + ref_len(ops),
        end > pos,
{
    let k = choose|k: int| 0 <= k < ops.len() && op_overlaps_at(pos, ops, k, start, end);
    lemma_ref_len_nonneg(ops.take(k));
    lemma_ref_len_take_succ(ops, k);
    lemma_ref_len_take_bound(ops, k + 1);
}

/// Gaps and clips alone never produce an overlap: an operation sequence
/// without match-kind operations overlaps no interval, wherever its
/// deletions, skips, insertions, clips or padding fall.
pub proof fn lemma_no_match_ops_no_overlap(pos: int, ops: Seq<CigarOp>, start: int, end: int)
    requires
        forall|k: int| 0 <= k < ops.len() ==> !is_match_kind(ops[k].kind),
    ensures
        !overlaps(pos, ops, start, end),
{
}

/// Operations that do not consume reference bases (insertions, soft and
/// hard clips, padding) have no effect on overlap: inserting one anywhere
/// in the sequence leaves the result of every overlap test unchanged.
pub proof fn lemma_nonconsuming_op_no_overlap_effect(
    pos: int,
    ops: Seq<CigarOp>,
    j: int,
    op: CigarOp,
    start: int,
    end: int,
)
    requires
        0 <= j <= ops.len(),
        !consumes_ref(op.kind),
    ensures
        overlaps(pos, ops.insert(j, op), start, end) == overlaps(pos, ops, start, end),
{
    let t = ops.insert(j, op);
    assert forall|k: int| 0 <= k < t.len() implies #[trigger] op_cursor(pos, t, k) == (if k <= j {
        op_cursor(pos, ops, k)
    } else {
        op_cursor(pos, ops, k - 1)
    }) && t[k] == (if k < j {
        ops[k]
    } else if k == j {
        op
    } else {
        ops[k - 1]
    }) by {
        if k <= j {
            assert(t.take(k) =~= ops.take(k));
        } else {
            assert(t.take(k) =~= ops.take(j).push(op) + ops.subrange(j, k - 1));
            assert(ops.take(k - 1) =~= ops.take(j) + ops.subrange(j, k - 1));
            lemma_ref_len_concat(ops.take(j).push(op), ops.subrange(j, k - 1));
            lemma_ref_len_concat(ops.take(j), ops.subrange(j, k - 1));
            assert(ops.take(j).push(op).drop_last() =~= ops.take(j));
            assert(ref_len(ops.take(j).push(op)) == ref_len(ops.take(j)));
        }
    }
    if overlaps(pos, ops, start, end) {
        let k = choose|k: int| 0 <= k < ops.len() && op_overlaps_at(pos, ops, k, start, end);
        if k < j {
            assert(op_overlaps_at(pos, t, k, start, end));
        } else {
            assert(op_overlaps_at(pos, t, k + 1, start, end));
        }
    }
    if overlaps(pos, t, start, end) {
        let k = choose|k: int| 0 <= k < t.len() && op_overlaps_at(pos, t, k, start, end);
        if k < j {
            assert(op_overlaps_at(pos, ops, k, start, end));
        } else {
            assert(op_overlaps_at(pos, ops, k - 1, start, end));
        }
    }
}

} // verus!
