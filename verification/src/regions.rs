//! Genomic regions and their normalization: sorting by chromosome and
//! position, merging overlapping or touching regions, and grouping the
//! merged list per chromosome.

use crate::errors::CountError;
use vstd::prelude::*;
use vstd::utf8::encode_utf8;

verus! {

broadcast use vstd::seq_lib::group_to_multiset_ensures;

/// A half-open, 0-based genomic interval `[start, end)` on one chromosome.
#[derive(Debug, Clone)]
pub struct Region {
    pub seqname: String,
    pub start: i64,
    pub end: i64,
}

/// The UTF-8 bytes of a region's chromosome name. Chromosome names are
/// ordered by these bytes, which is how Rust orders strings.
pub open spec fn name_bytes(r: Region) -> Seq<u8> {
    encode_utf8(r.seqname@)
}

/// Strict lexicographic order on byte sequences, with a proper prefix
/// ordered before its extensions.
pub open spec fn bytes_lt(a: Seq<u8>, b: Seq<u8>) -> bool
    decreases a.len(),
{
    if b.len() == 0 {
        false
    } else if a.len() == 0 {
        true
    } else if a[0] < b[0] {
        true
    } else if a[0] > b[0] {
        false
    } else {
        bytes_lt(a.drop_first(), b.drop_first())
    }
}

/// Total order on regions: by chromosome name bytes, then start, then end.
pub open spec fn region_le(a: Region, b: Region) -> bool {
    ||| bytes_lt(name_bytes(a), name_bytes(b))
    ||| (name_bytes(a) == name_bytes(b) && (a.start < b.start || (a.start == b.start && a.end
        <= b.end)))
}

/// Sorted ascending by `(chromosome, start, end)`.
pub open spec fn sorted_regions(s: Seq<Region>) -> bool {
    forall|i: int, j: int| 0 <= i < j < s.len() ==> region_le(s[i], s[j])
}

pub proof fn lemma_bytes_lt_trichotomy(a: Seq<u8>, b: Seq<u8>)
    ensures
        bytes_lt(a, b) || bytes_lt(b, a) || a == b,
    decreases a.len(),
{
    if a.len() == 0 && b.len() == 0 {
        assert(a =~= b);
    } else if a.len() > 0 && b.len() > 0 && a[0] == b[0] {
        lemma_bytes_lt_trichotomy(a.drop_first(), b.drop_first());
        if a.drop_first() == b.drop_first() {
            assert(a.drop_first().len() == a.len() - 1);
            assert(b.drop_first().len() == b.len() - 1);
            assert forall|i: int| 0 <= i < a.len() implies a[i] == b[i] by {
                if i > 0 {
                    assert(a.drop_first()[i - 1] == a[i]);
                    assert(b.drop_first()[i - 1] == b[i]);
                }
            }
            assert(a =~= b);
        }
    }
}

pub proof fn lemma_bytes_lt_trans(a: Seq<u8>, b: Seq<u8>, c: Seq<u8>)
    requires
        bytes_lt(a, b),
        bytes_lt(b, c),
    ensures
        bytes_lt(a, c),
    decreases a.len(),
{
    if a.len() > 0 && b.len() > 0 && c.len() > 0 && a[0] == b[0] && b[0] == c[0] {
        lemma_bytes_lt_trans(a.drop_first(), b.drop_first(), c.drop_first());
    }
}

pub proof fn lemma_region_le_total(a: Region, b: Region)
    ensures
        region_le(a, b) || region_le(b, a),
{
    lemma_bytes_lt_trichotomy(name_bytes(a), name_bytes(b));
}

pub proof fn lemma_region_le_trans(a: Region, b: Region, c: Region)
    requires
        region_le(a, b),
        region_le(b, c),
    ensures
        region_le(a, c),
{
    if bytes_lt(name_bytes(a), name_bytes(b)) && bytes_lt(name_bytes(b), name_bytes(c)) {
        lemma_bytes_lt_trans(name_bytes(a), name_bytes(b), name_bytes(c));
    }
}

pub proof fn lemma_bytes_lt_irrefl(a: Seq<u8>)
    ensures
        !bytes_lt(a, a),
    decreases a.len(),
{
    if a.len() > 0 {
        lemma_bytes_lt_irrefl(a.drop_first());
    }
}

/// UTF-8 encoding distinguishes distinct character sequences.
pub proof fn lemma_encode_utf8_injective(x: Seq<char>, y: Seq<char>)
    ensures
        (encode_utf8(x) == encode_utf8(y)) <==> (x == y),
{
    vstd::utf8::encode_utf8_decode_utf8(x);
    vstd::utf8::encode_utf8_decode_utf8(y);
}

/// Chromosome names are equal exactly when their UTF-8 bytes are.
pub proof fn lemma_name_bytes_eq(a: Region, b: Region)
    ensures
        (name_bytes(a) == name_bytes(b)) <==> same_chrom(a, b),
{
    lemma_encode_utf8_injective(a.seqname@, b.seqname@);
}

/// Decide string equality by comparing UTF-8 bytes.
fn str_eq(a: &str, b: &str) -> (r: bool)
    ensures
        r == (a@ == b@),
{
    proof {
        lemma_encode_utf8_injective(a@, b@);
    }
    let ab: &[u8] = a.as_bytes();
    let bb: &[u8] = b.as_bytes();
    if ab.len() != bb.len() {
        return false;
    }
    let mut i: usize = 0;
    while i < ab.len()
        invariant
            ab@ == encode_utf8(a@),
            bb@ == encode_utf8(b@),
            ab@.len() == bb@.len(),
            0 <= i <= ab@.len(),
            ab@.take(i as int) == bb@.take(i as int),
            (a@ == b@) == (ab@ == bb@),
        decreases ab@.len() - i,
    {
        if ab[i] != bb[i] {
            proof {
                if ab@ == bb@ {
                    assert(ab@[i as int] == bb@[i as int]);
                }
            }
            return false;
        }
        proof {
            assert(ab@.take(i + 1) =~= ab@.take(i as int).push(ab@[i as int]));
            assert(bb@.take(i + 1) =~= bb@.take(i as int).push(bb@[i as int]));
        }
        i = i + 1;
    }
    proof {
        assert(ab@.take(i as int) =~= ab@);
        assert(bb@.take(i as int) =~= bb@);
    }
    true
}

proof fn lemma_bytes_lt_skip_succ(a: Seq<u8>, b: Seq<u8>, i: int)
    requires
        0 <= i < a.len(),
        0 <= i < b.len(),
        a[i] == b[i],
    ensures
        bytes_lt(a.skip(i), b.skip(i)) == bytes_lt(a.skip(i + 1), b.skip(i + 1)),
{
    assert(a.skip(i).drop_first() =~= a.skip(i + 1));
    assert(b.skip(i).drop_first() =~= b.skip(i + 1));
    assert(a.skip(i)[0] == a[i]);
    assert(b.skip(i)[0] == b[i]);
}

/// Compare two regions in the `(chromosome, start, end)` order.
fn region_le_exec(a: &Region, b: &Region) -> (r: bool)
    ensures
        r == region_le(*a, *b),
{
    let ab: &[u8] = a.seqname.as_str().as_bytes();
    let bb: &[u8] = b.seqname.as_str().as_bytes();
    let mut i: usize = 0;
    proof {
        assert(ab@.skip(0) =~= ab@);
        assert(bb@.skip(0) =~= bb@);
    }
    while i < ab.len() && i < bb.len()
        invariant
            ab@ == name_bytes(*a),
            bb@ == name_bytes(*b),
            0 <= i <= ab@.len(),
            0 <= i <= bb@.len(),
            bytes_lt(ab@, bb@) == bytes_lt(ab@.skip(i as int), bb@.skip(i as int)),
            bytes_lt(bb@, ab@) == bytes_lt(bb@.skip(i as int), ab@.skip(i as int)),
            ab@.take(i as int) == bb@.take(i as int),
        decreases ab@.len() - i,
    {
        proof {
            assert(ab@.skip(0) =~= ab@);
            assert(bb@.skip(0) =~= bb@);
        }
        let x = ab[i];
        let y = bb[i];
        if x < y {
            proof {
                assert(ab@.skip(i as int)[0] == x);
                assert(bb@.skip(i as int)[0] == y);
            }
            return true;
        }
        if x > y {
            proof {
                assert(ab@.skip(i as int)[0] == x);
                assert(bb@.skip(i as int)[0] == y);
                if name_bytes(*a) == name_bytes(*b) {
                    assert(ab@[i as int] == bb@[i as int]);
                }
            }
            return false;
        }
        proof {
            lemma_bytes_lt_skip_succ(ab@, bb@, i as int);
            lemma_bytes_lt_skip_succ(bb@, ab@, i as int);
            assert(ab@.take(i + 1) =~= ab@.take(i as int).push(ab@[i as int]));
            assert(bb@.take(i + 1) =~= bb@.take(i as int).push(bb@[i as int]));
        }
        i = i + 1;
    }
    if ab.len() < bb.len() {
        proof {
            assert(ab@.skip(i as int).len() == 0);
            assert(bb@.skip(i as int).len() > 0);
        }
        true
    } else if ab.len() > bb.len() {
        proof {
            assert(bb@.skip(i as int).len() == 0);
            if name_bytes(*a) == name_bytes(*b) {
                assert(ab@.len() == bb@.len());
            }
        }
        false
    } else {
        proof {
            assert(ab@.skip(i as int).len() == 0);
            assert(bb@.skip(i as int).len() == 0);
            assert(ab@.take(i as int) =~= ab@);
            assert(bb@.take(i as int) =~= bb@);
        }
        if a.start < b.start {
            true
        } else if a.start == b.start {
            a.end <= b.end
        } else {
            false
        }
    }
}

proof fn lemma_to_multiset_insert(s: Seq<Region>, j: int, x: Region)
    requires
        0 <= j <= s.len(),
    ensures
        s.insert(j, x).to_multiset() == s.to_multiset().insert(x),
{
    broadcast use vstd::seq_lib::lemma_multiset_commutative;

    assert(s.insert(j, x) =~= s.take(j).push(x) + s.skip(j));
    assert(s =~= s.take(j) + s.skip(j));
    assert(s.take(j).push(x).to_multiset() =~= s.take(j).to_multiset().insert(x));
    assert(s.insert(j, x).to_multiset() =~= s.take(j).to_multiset().insert(x).add(
        s.skip(j).to_multiset(),
    ));
    assert(s.to_multiset() =~= s.take(j).to_multiset().add(s.skip(j).to_multiset()));
    assert(s.take(j).to_multiset().insert(x).add(s.skip(j).to_multiset()) =~= s.take(
        j,
    ).to_multiset().add(s.skip(j).to_multiset()).insert(x));
}

/// Find where to insert element `i` among the sorted first `i` elements.
fn insertion_point(regions: &Vec<Region>, i: usize) -> (j: usize)
    requires
        i < regions@.len(),
        sorted_regions(regions@.take(i as int)),
    ensures
        j <= i,
        forall|k: int| 0 <= k < j ==> region_le(regions@[k], regions@[i as int]),
        forall|k: int| j <= k < i ==> region_le(regions@[i as int], regions@[k]),
{
    let mut j: usize = 0;
    loop
        invariant_except_break
            j <= i,
            i < regions@.len(),
            sorted_regions(regions@.take(i as int)),
            forall|k: int| 0 <= k < j ==> region_le(regions@[k], regions@[i as int]),
        ensures
            j <= i,
            forall|k: int| 0 <= k < j ==> region_le(regions@[k], regions@[i as int]),
            forall|k: int| j <= k < i ==> region_le(regions@[i as int], regions@[k]),
        decreases i - j,
    {
        if j == i {
            break ;
        }
        if !region_le_exec(&regions[j], &regions[i]) {
            proof {
                lemma_region_le_total(regions@[j as int], regions@[i as int]);
                assert forall|k: int| j <= k < i implies region_le(
                    regions@[i as int],
                    regions@[k],
                ) by {
                    if k > j {
                        assert(regions@.take(i as int)[j as int] == regions@[j as int]);
                        assert(regions@.take(i as int)[k] == regions@[k]);
                        lemma_region_le_trans(
                            regions@[i as int],
                            regions@[j as int],
                            regions@[k],
                        );
                    }
                }
            }
            break ;
        }
        j = j + 1;
    }
    j
}

/// Sort regions ascending by `(chromosome, start, end)`. The result is a
/// rearrangement of the input: no region is added, dropped or altered.
pub fn sort_regions_in_place(regions: &mut Vec<Region>)
    ensures
        sorted_regions(final(regions)@),
        final(regions)@.to_multiset() == old(regions)@.to_multiset(),
        final(regions)@.len() == old(regions)@.len(),
{
    if regions.len() == 0 {
        return ;
    }
    let mut i: usize = 1;
    while i < regions.len()
        invariant
            1 <= i <= regions@.len(),
            regions@.len() == old(regions)@.len(),
            sorted_regions(regions@.take(i as int)),
            regions@.to_multiset() == old(regions)@.to_multiset(),
        decreases regions@.len() - i,
    {
        let j = insertion_point(regions, i);
        let ghost s = regions@;
        let x = regions.remove(i);
        regions.insert(j, x);
        proof {
            let t = regions@;
            lemma_to_multiset_insert(s.remove(i as int), j as int, x);
            assert(s.contains(s[i as int])) by {
                assert(s[i as int] == s[i as int]);
            }
            assert(s.to_multiset().count(x) > 0);
            assert(s.to_multiset().remove(x).insert(x) =~= s.to_multiset());
            assert(t.to_multiset() == s.to_multiset());
            assert forall|p: int, q: int| 0 <= p < q < i + 1 implies region_le(t[p], t[q]) by {
                assert(forall|k: int|
                    0 <= k <= i ==> t[k] == (if k < j {
                        s[k]
                    } else if k == j {
                        x
                    } else {
                        s[k - 1]
                    }));
                assert(forall|p2: int, q2: int|
                    0 <= p2 < q2 < i ==> region_le(
                        #[trigger] s.take(i as int)[p2],
                        #[trigger] s.take(i as int)[q2],
                    ));
                assert(forall|k: int| 0 <= k < i ==> s.take(i as int)[k] == s[k]);
                if p < j && q < j {
                    assert(region_le(s[p], s[q]));
                } else if p < j && q == j {
                    assert(region_le(s[p], x));
                } else if p < j && q > j {
                    assert(region_le(s[p], s[q - 1]));
                } else if p == j && q > j {
                    assert(region_le(x, s[q - 1]));
                } else if p > j && q > j {
                    assert(region_le(s[p - 1], s[q - 1]));
                }
            }
            assert(sorted_regions(t.take(i + 1))) by {
                assert(forall|k: int| 0 <= k < i + 1 ==> t.take(i + 1)[k] == t[k]);
            }
        }
        i = i + 1;
    }
    proof {
        assert(regions@.take(regions@.len() as int) =~= regions@);
    }
}

/// Copy one region.
fn clone_region(r: &Region) -> (res: Region)
    ensures
        res == *r,
{
    Region { seqname: r.seqname.clone(), start: r.start, end: r.end }
}

/// Two regions share a chromosome.
pub open spec fn same_chrom(a: Region, b: Region) -> bool {
    a.seqname@ == b.seqname@
}

/// A region extends the accumulator when it shares its chromosome and
/// starts no later than the accumulator ends (overlapping or touching).
pub open spec fn can_merge(acc: Region, r: Region) -> bool {
    same_chrom(acc, r) && r.start <= acc.end
}

/// The accumulator after absorbing a region: the end grows to cover both.
pub open spec fn merge_into(acc: Region, r: Region) -> Region {
    Region { end: if r.end > acc.end { r.end } else { acc.end }, ..acc }
}

/// One left-to-right merging pass, starting from accumulator `acc`.
pub open spec fn merge_from(acc: Region, rest: Seq<Region>) -> Seq<Region>
    decreases rest.len(),
{
    if rest.len() == 0 {
        seq![acc]
    } else if can_merge(acc, rest[0]) {
        merge_from(merge_into(acc, rest[0]), rest.drop_first())
    } else {
        seq![acc] + merge_from(rest[0], rest.drop_first())
    }
}

/// The merged form of a non-empty region list: a single left-to-right
/// pass that absorbs each region into the running accumulator when it
/// overlaps or touches it on the same chromosome, and emits the
/// accumulator otherwise.
pub open spec fn merge_spec(s: Seq<Region>) -> Seq<Region>
    recommends
        s.len() > 0,
{
    merge_from(s[0], s.drop_first())
}

/// Merge a sorted region list: overlapping or touching regions on the
/// same chromosome collapse into one; regions of different chromosomes
/// never combine. An empty input is rejected.
pub fn compress_regions(regions: &Vec<Region>) -> (r: Result<Vec<Region>, CountError>)
    ensures
        regions@.len() == 0 <==> r is Err,
        r is Err ==> r->Err_0 is EmptyRegionInput,
        r is Ok ==> r->Ok_0@ == merge_spec(regions@),
{
    if regions.len() == 0 {
        return Err(CountError::EmptyRegionInput);
    }
    let mut compressed: Vec<Region> = Vec::new();
    let mut current: Region = clone_region(&regions[0]);
    let mut i: usize = 1;
    proof {
        assert(regions@.skip(1) =~= regions@.drop_first());
    }
    while i < regions.len()
        invariant
            1 <= i <= regions@.len(),
            merge_spec(regions@) == compressed@ + merge_from(current, regions@.skip(i as int)),
        decreases regions@.len() - i,
    {
        let ghost rest = regions@.skip(i as int);
        proof {
            assert(rest[0] == regions@[i as int]);
            assert(rest.drop_first() =~= regions@.skip(i + 1));
        }
        let region = &regions[i];
        if region.seqname == current.seqname && region.start <= current.end {
            if region.end > current.end {
                current.end = region.end;
            }
        } else {
            let finished = clone_region(&current);
            compressed.push(finished);
            current = clone_region(region);
            proof {
                assert(compressed@ + (seq![finished] + merge_from(current, rest.drop_first()))
                    =~= compressed@ + seq![finished] + merge_from(current, rest.drop_first()));
            }
        }
        i = i + 1;
    }
    proof {
        assert(regions@.skip(regions@.len() as int) =~= Seq::<Region>::empty());
    }
    compressed.push(current);
    Ok(compressed)
}

/// No two consecutive regions could merge: each next region changes
/// chromosome or starts strictly past the previous end.
pub open spec fn merged_form(s: Seq<Region>) -> bool {
    forall|i: int| 0 <= i && i + 1 < s.len() ==> !can_merge(#[trigger] s[i], s[i + 1])
}

/// Position `p` of chromosome `c` lies inside some region of the list.
pub open spec fn covers(s: Seq<Region>, c: Seq<char>, p: int) -> bool {
    exists|i: int| 0 <= i < s.len() && s[i].seqname@ == c && s[i].start <= p < s[i].end
}

proof fn lemma_covers_concat(a: Seq<Region>, b: Seq<Region>, c: Seq<char>, p: int)
    ensures
        covers(a + b, c, p) == (covers(a, c, p) || covers(b, c, p)),
{
    if covers(a, c, p) {
        let i = choose|i: int| 0 <= i < a.len() && a[i].seqname@ == c && a[i].start <= p < a[i].end;
        assert((a + b)[i] == a[i]);
        assert(covers(a + b, c, p));
    }
    if covers(b, c, p) {
        let i = choose|i: int| 0 <= i < b.len() && b[i].seqname@ == c && b[i].start <= p < b[i].end;
        assert((a + b)[i + a.len()] == b[i]);
        assert(covers(a + b, c, p));
    }
    if covers(a + b, c, p) {
        let i = choose|i: int|
            0 <= i < (a + b).len() && (a + b)[i].seqname@ == c && (a + b)[i].start <= p < (a
                + b)[i].end;
        if i < a.len() {
            assert((a + b)[i] == a[i]);
            assert(covers(a, c, p));
        } else {
            assert((a + b)[i] == b[i - a.len()]);
            assert(covers(b, c, p));
        }
    }
}

/// One merge step keeps the list ahead of the accumulator sorted.
proof fn lemma_merge_step_sorted(acc: Region, rest: Seq<Region>)
    requires
        sorted_regions(seq![acc] + rest),
        rest.len() > 0,
        can_merge(acc, rest[0]),
    ensures
        sorted_regions(seq![merge_into(acc, rest[0])] + rest.drop_first()),
{
    let acc2 = merge_into(acc, rest[0]);
    let s = seq![acc] + rest;
    let t = seq![acc2] + rest.drop_first();
    assert(forall|k: int| 1 <= k < s.len() ==> s[k] == rest[k - 1]);
    assert(forall|k: int| 1 <= k < t.len() ==> t[k] == rest[k]);
    assert forall|i: int, j: int| 0 <= i < j < t.len() implies region_le(t[i], t[j]) by {
        if i >= 1 {
            assert(region_le(s[i + 1], s[j + 1]));
        } else {
            let r = rest[j];
            assert(region_le(s[0], s[j + 1]));
            assert(region_le(s[1], s[j + 1]));
            assert(region_le(acc, r));
            assert(region_le(rest[0], r));
            assert(name_bytes(acc2) == name_bytes(acc));
            if !bytes_lt(name_bytes(acc), name_bytes(r)) {
                assert(name_bytes(acc) == name_bytes(r));
                if !(acc.start < r.start) {
                    assert(acc.start == r.start && acc.end <= r.end);
                    lemma_name_bytes_eq(acc, rest[0]);
                    assert(name_bytes(rest[0]) == name_bytes(acc));
                    lemma_bytes_lt_irrefl(name_bytes(r));
                    assert(!bytes_lt(name_bytes(rest[0]), name_bytes(r)));
                    assert(region_le(s[0], s[1]));
                    assert(acc.start <= rest[0].start);
                    assert(rest[0].start <= r.start);
                    assert(rest[0].start == r.start);
                    assert(rest[0].end <= r.end);
                    assert(acc2.end <= r.end);
                }
            }
        }
    }
}

/// Merging a sorted list yields a list in merged form whose first region
/// keeps the accumulator's chromosome and start and covers at least its
/// span.
proof fn lemma_merge_from_props(acc: Region, rest: Seq<Region>)
    requires
        sorted_regions(seq![acc] + rest),
    ensures
        merge_from(acc, rest).len() > 0,
        merged_form(merge_from(acc, rest)),
        merge_from(acc, rest)[0].seqname@ == acc.seqname@,
        merge_from(acc, rest)[0].start == acc.start,
        merge_from(acc, rest)[0].end >= acc.end,
    decreases rest.len(),
{
    if rest.len() == 0 {
    } else if can_merge(acc, rest[0]) {
        lemma_merge_step_sorted(acc, rest);
        lemma_merge_from_props(merge_into(acc, rest[0]), rest.drop_first());
    } else {
        let s = seq![acc] + rest;
        let s2 = seq![rest[0]] + rest.drop_first();
        assert(s2 =~= rest);
        assert forall|i: int, j: int| 0 <= i < j < s2.len() implies region_le(s2[i], s2[j]) by {
            assert(s[i + 1] == s2[i]);
            assert(s[j + 1] == s2[j]);
        }
        lemma_merge_from_props(rest[0], rest.drop_first());
        let sub = merge_from(rest[0], rest.drop_first());
        let out = seq![acc] + sub;
        assert(out[0] == acc);
        assert forall|i: int| 0 <= i && i + 1 < out.len() implies !can_merge(#[trigger] out[i], out[i + 1]) by {
            if i == 0 {
                assert(out[1] == sub[0]);
                assert(!can_merge(acc, rest[0]));
                assert(same_chrom(acc, sub[0]) == same_chrom(acc, rest[0]));
            } else {
                assert(out[i] == sub[i - 1]);
                assert(out[i + 1] == sub[i]);
            }
        }
    }
}

/// A list already in merged form passes through merging unchanged.
proof fn lemma_merge_from_of_merged(acc: Region, rest: Seq<Region>)
    requires
        merged_form(rest),
        rest.len() > 0 ==> !can_merge(acc, rest[0]),
    ensures
        merge_from(acc, rest) == seq![acc] + rest,
    decreases rest.len(),
{
    if rest.len() == 0 {
        assert(seq![acc] + rest =~= seq![acc]);
    } else {
        assert forall|i: int|
            0 <= i && i + 1 < rest.drop_first().len() implies !can_merge(
            #[trigger] rest.drop_first()[i],
            rest.drop_first()[i + 1],
        ) by {
            assert(rest.drop_first()[i] == rest[i + 1]);
            assert(rest.drop_first()[i + 1] == rest[i + 2]);
            assert(!can_merge(rest[i + 1], rest[i + 2]));
        }
        assert(rest.len() > 1 ==> rest.drop_first()[0] == rest[1]);
        lemma_merge_from_of_merged(rest[0], rest.drop_first());
        assert(seq![acc] + (seq![rest[0]] + rest.drop_first()) =~= seq![acc] + rest);
    }
}

/// Region merging is idempotent: merging the merged form of a sorted
/// list returns it unchanged.
pub proof fn lemma_merge_idempotent(s: Seq<Region>)
    requires
        sorted_regions(s),
        s.len() > 0,
    ensures
        merge_spec(merge_spec(s)) == merge_spec(s),
{
    assert(seq![s[0]] + s.drop_first() =~= s);
    lemma_merge_from_props(s[0], s.drop_first());
    let t = merge_spec(s);
    assert forall|i: int|
        0 <= i && i + 1 < t.drop_first().len() implies !can_merge(
        #[trigger] t.drop_first()[i],
        t.drop_first()[i + 1],
    ) by {
        assert(t.drop_first()[i] == t[i + 1]);
        assert(t.drop_first()[i + 1] == t[i + 2]);
        assert(!can_merge(t[i + 1], t[i + 2]));
    }
    assert(t.len() > 1 ==> t.drop_first()[0] == t[1]);
    lemma_merge_from_of_merged(t[0], t.drop_first());
    assert(seq![t[0]] + t.drop_first() =~= t);
}

/// One merge step preserves coverage exactly: merging two overlapping or
/// touching same-chromosome regions covers the same positions.
proof fn lemma_merge_from_coverage(acc: Region, rest: Seq<Region>, c: Seq<char>, p: int)
    requires
        sorted_regions(seq![acc] + rest),
    ensures
        covers(merge_from(acc, rest), c, p) == covers(seq![acc] + rest, c, p),
    decreases rest.len(),
{
    if rest.len() == 0 {
        assert(seq![acc] + rest =~= seq![acc]);
    } else if can_merge(acc, rest[0]) {
        let acc2 = merge_into(acc, rest[0]);
        lemma_merge_step_sorted(acc, rest);
        lemma_merge_from_coverage(acc2, rest.drop_first(), c, p);
        let s = seq![acc] + rest;
        let t = seq![acc2] + rest.drop_first();
        assert(region_le(s[0], s[1]));
        lemma_name_bytes_eq(acc, rest[0]);
        lemma_bytes_lt_irrefl(name_bytes(acc));
        assert(acc.start <= rest[0].start);
        if covers(t, c, p) {
                let i = choose|i: int|
                    0 <= i < t.len() && t[i].seqname@ == c && t[i].start <= p < t[i].end;
                if i == 0 {
                    if p < acc.end {
                        assert(s[0].seqname@ == c && s[0].start <= p < s[0].end);
                    } else {
                        assert(acc2.end == rest[0].end);
                        assert(rest[0].start <= acc.end <= p);
                        assert(s[1].seqname@ == c && s[1].start <= p < s[1].end);
                    }
                } else {
                    assert(s[i + 1] == t[i]);
                }
                assert(covers(s, c, p));
        }
        if covers(s, c, p) {
                let i = choose|i: int|
                    0 <= i < s.len() && s[i].seqname@ == c && s[i].start <= p < s[i].end;
                if i == 0 {
                    assert(t[0].seqname@ == c && t[0].start <= p < t[0].end);
                } else if i == 1 {
                    assert(t[0].seqname@ == rest[0].seqname@);
                    assert(t[0].start == acc.start <= rest[0].start <= p);
                    assert(p < rest[0].end <= t[0].end);
                } else {
                    assert(t[i - 1] == s[i]);
                }
                assert(covers(t, c, p));
        }
    } else {
        let s2 = seq![rest[0]] + rest.drop_first();
        assert(s2 =~= rest);
        let s = seq![acc] + rest;
        assert forall|i: int, j: int| 0 <= i < j < s2.len() implies region_le(s2[i], s2[j]) by {
            assert(s[i + 1] == s2[i]);
            assert(s[j + 1] == s2[j]);
        }
        lemma_merge_from_coverage(rest[0], rest.drop_first(), c, p);
        lemma_covers_concat(seq![acc], merge_from(rest[0], rest.drop_first()), c, p);
        lemma_covers_concat(seq![acc], rest, c, p);
    }
}

/// Merging preserves coverage exactly: a position of a chromosome lies in
/// some merged region exactly when it lies in some input region. In
/// particular regions of different chromosomes never combine, however
/// their coordinates relate numerically.
pub proof fn lemma_merge_preserves_coverage(s: Seq<Region>, c: Seq<char>, p: int)
    requires
        sorted_regions(s),
        s.len() > 0,
    ensures
        covers(merge_spec(s), c, p) == covers(s, c, p),
{
    assert(seq![s[0]] + s.drop_first() =~= s);
    lemma_merge_from_coverage(s[0], s.drop_first(), c, p);
}

/// One parsed annotation row: chromosome, feature kind, 1-based start
/// and end as the annotation file carries them.
#[derive(Debug, Clone)]
pub struct GtfRow {
    pub seqname: String,
    pub feature: String,
    pub start: i64,
    pub end: i64,
}

/// Rows whose feature column reads `exon`.
pub open spec fn is_exon(row: GtfRow) -> bool {
    row.feature@ == "exon"@
}

/// The region a row describes, converted to a 0-based half-open interval.
pub open spec fn region_of_row(row: GtfRow) -> Region {
    Region { seqname: row.seqname, start: (row.start - 1) as i64, end: row.end }
}

/// The regions of the exon rows, in row order.
pub open spec fn exon_regions_spec(rows: Seq<GtfRow>) -> Seq<Region>
    decreases rows.len(),
{
    if rows.len() == 0 {
        Seq::empty()
    } else {
        let prefix = exon_regions_spec(rows.drop_last());
        if is_exon(rows.last()) {
            prefix.push(region_of_row(rows.last()))
        } else {
            prefix
        }
    }
}

/// Select the `exon` rows, convert their coordinates to 0-based
/// half-open intervals, and sort the result by chromosome and position.
pub fn exon_regions(rows: &Vec<GtfRow>) -> (r: Vec<Region>)
    requires
        forall|k: int| 0 <= k < rows@.len() ==> #[trigger] rows@[k].start > i64::MIN,
    ensures
        sorted_regions(r@),
        r@.to_multiset() == exon_regions_spec(rows@).to_multiset(),
{
    let mut out: Vec<Region> = Vec::new();
    let exon = "exon".to_owned();
    let mut k: usize = 0;
    while k < rows.len()
        invariant
            0 <= k <= rows@.len(),
            exon@ == "exon"@,
            forall|t: int| 0 <= t < rows@.len() ==> #[trigger] rows@[t].start > i64::MIN,
            out@ == exon_regions_spec(rows@.take(k as int)),
        decreases rows@.len() - k,
    {
        let row = &rows[k];
        proof {
            assert(rows@.take(k + 1).drop_last() =~= rows@.take(k as int));
            assert(rows@.take(k + 1).last() == rows@[k as int]);
        }
        if row.feature == exon {
            let region = Region { seqname: row.seqname.clone(), start: row.start - 1, end: row.end };
            proof {
                assert(region == region_of_row(rows@[k as int]));
            }
            out.push(region);
        }
        k = k + 1;
    }
    proof {
        assert(rows@.take(rows@.len() as int) =~= rows@);
    }
    sort_regions_in_place(&mut out);
    out
}

/// The input regions lying on chromosome `c`, in input order.
pub open spec fn regions_on(s: Seq<Region>, c: Seq<char>) -> Seq<Region>
    decreases s.len(),
{
    if s.len() == 0 {
        Seq::empty()
    } else if s.last().seqname@ == c {
        regions_on(s.drop_last(), c).push(s.last())
    } else {
        regions_on(s.drop_last(), c)
    }
}

/// Some input region lies on chromosome `c`.
pub open spec fn chrom_in(s: Seq<Region>, c: Seq<char>) -> bool {
    exists|k: int| 0 <= k < s.len() && #[trigger] s[k].seqname@ == c
}

proof fn lemma_regions_on_empty(s: Seq<Region>, c: Seq<char>)
    requires
        !chrom_in(s, c),
    ensures
        regions_on(s, c) == Seq::<Region>::empty(),
    decreases s.len(),
{
    if s.len() > 0 {
        assert(forall|k: int|
            0 <= k < s.drop_last().len() ==> #[trigger] s.drop_last()[k].seqname@ == s[k].seqname@);
        lemma_regions_on_empty(s.drop_last(), c);
    }
}

/// Per-chromosome region lists, keyed by chromosome name. Keys are
/// distinct; each value list is the chromosome's regions sorted by
/// position.
pub struct RegionIndex {
    entries: Vec<(String, Vec<Region>)>,
}

impl View for RegionIndex {
    type V = Seq<(Seq<char>, Seq<Region>)>;

    closed spec fn view(&self) -> Seq<(Seq<char>, Seq<Region>)> {
        self.entries@.map_values(|e: (String, Vec<Region>)| (e.0@, e.1@))
    }
}

/// Some entry of the list carries chromosome `c`.
pub open spec fn keys_has(s: Seq<(Seq<char>, Seq<Region>)>, c: Seq<char>) -> bool {
    exists|i: int| 0 <= i < s.len() && #[trigger] s[i].0 == c
}

/// All entries of the list carry distinct chromosomes.
pub open spec fn keys_distinct(s: Seq<(Seq<char>, Seq<Region>)>) -> bool {
    forall|i: int, j: int| 0 <= i < j < s.len() ==> s[i].0 != s[j].0
}

impl RegionIndex {
    /// A chromosome of this name has an entry.
    pub open spec fn has_chrom(&self, c: Seq<char>) -> bool {
        keys_has(self@, c)
    }

    /// No two entries share a chromosome name.
    pub open spec fn distinct_chroms(&self) -> bool {
        keys_distinct(self@)
    }

    /// An index with no entries.
    pub fn new() -> (r: RegionIndex)
        ensures
            r@.len() == 0,
            r.distinct_chroms(),
    {
        RegionIndex { entries: Vec::new() }
    }

    /// The number of chromosomes with an entry.
    pub fn len(&self) -> (n: usize)
        ensures
            n == self@.len(),
    {
        self.entries.len()
    }

    fn position_of(&self, name: &str) -> (r: Option<usize>)
        ensures
            match r {
                Some(i) => i < self@.len() && self@[i as int].0 == name@,
                None => !self.has_chrom(name@),
            },
    {
        let mut i: usize = 0;
        while i < self.entries.len()
            invariant
                0 <= i <= self@.len(),
                self@.len() == self.entries@.len(),
                forall|k: int| 0 <= k < i ==> #[trigger] self@[k].0 != name@,
            decreases self@.len() - i,
        {
            if str_eq(self.entries[i].0.as_str(), name) {
                return Some(i);
            }
            i = i + 1;
        }
        None
    }

    /// Look one chromosome's region list up by name.
    pub fn get(&self, name: &str) -> (r: Option<&Vec<Region>>)
        ensures
            match r {
                Some(v) => exists|i: int|
                    0 <= i < self@.len() && #[trigger] self@[i].0 == name@ && v@ == self@[i].1,
                None => !self.has_chrom(name@),
            },
    {
        match self.position_of(name) {
            Some(i) => Some(&self.entries[i].1),
            None => None,
        }
    }

    /// The chromosome name of the entry at a position.
    pub fn name_at(&self, i: usize) -> (r: &String)
        requires
            i < self@.len(),
        ensures
            r@ == self@[i as int].0,
    {
        &self.entries[i].0
    }

    /// The region list of the entry at a position.
    pub fn regions_at(&self, i: usize) -> (r: &Vec<Region>)
        requires
            i < self@.len(),
        ensures
            r@ == self@[i as int].1,
    {
        &self.entries[i].1
    }

    /// Add an empty entry for a chromosome that has none yet, so that
    /// every chromosome of the alignment file is visited uniformly.
    pub fn ensure_chromosome(&mut self, name: String)
        requires
            old(self).distinct_chroms(),
        ensures
            final(self).distinct_chroms(),
            old(self).has_chrom(name@) ==> final(self)@ == old(self)@,
            !old(self).has_chrom(name@) ==> final(self)@ == old(self)@.push(
                (name@, Seq::<Region>::empty()),
            ),
    {
        match self.position_of(name.as_str()) {
            Some(_) => {},
            None => {
                let ghost before = self@;
                self.entries.push((name, Vec::new()));
                proof {
                    assert(self@ =~= before.push((name@, Seq::<Region>::empty())));
                }
            },
        }
    }
}

/// Group regions by chromosome: one entry per distinct chromosome,
/// holding exactly that chromosome's regions sorted by position.
pub fn convert_regions_vec_to_hashmap(regions: Vec<Region>) -> (r: RegionIndex)
    ensures
        r.distinct_chroms(),
        forall|c: Seq<char>| #[trigger] r.has_chrom(c) == chrom_in(regions@, c),
        forall|i: int|
            0 <= i < r@.len() ==> sorted_regions(#[trigger] r@[i].1) && r@[i].1.to_multiset()
                == regions_on(regions@, r@[i].0).to_multiset(),
{
    let mut idx = RegionIndex::new();
    let mut k: usize = 0;
    while k < regions.len()
        invariant
            0 <= k <= regions@.len(),
            keys_distinct(idx@),
            forall|c: Seq<char>| #[trigger] keys_has(idx@, c) == chrom_in(
                regions@.take(k as int),
                c,
            ),
            forall|i: int|
                0 <= i < idx@.len() ==> #[trigger] idx@[i].1 == regions_on(
                    regions@.take(k as int),
                    idx@[i].0,
                ),
        decreases regions@.len() - k,
    {
        let ghost prefix = regions@.take(k as int);
        let ghost next = regions@.take(k + 1);
        let ghost name = regions@[k as int].seqname@;
        let region = clone_region(&regions[k]);
        proof {
            assert(next.drop_last() =~= prefix);
            assert(next.last() == regions@[k as int]);
            assert forall|c: Seq<char>| #[trigger] chrom_in(next, c) == (chrom_in(prefix, c)
                || name == c) by {
                if chrom_in(next, c) {
                    let t = choose|t: int| 0 <= t < next.len() && #[trigger] next[t].seqname@ == c;
                    if t < k {
                        assert(prefix[t].seqname@ == c);
                    }
                }
                if chrom_in(prefix, c) {
                    let t = choose|t: int|
                        0 <= t < prefix.len() && #[trigger] prefix[t].seqname@ == c;
                    assert(next[t].seqname@ == c);
                }
                if name == c {
                    assert(next[k as int].seqname@ == c);
                }
            }
        }
        let ghost before = idx@;
        match idx.position_of(region.seqname.as_str()) {
            Some(i) => {
                let mut e = idx.entries.remove(i);
                e.1.push(region);
                idx.entries.insert(i, e);
                proof {
                    assert(idx@ =~= before.update(
                        i as int,
                        (before[i as int].0, before[i as int].1.push(regions@[k as int])),
                    ));
                    assert(before[i as int].0 == name);
                    assert(forall|t: int|
                        0 <= t < idx@.len() ==> #[trigger] idx@[t].0 == before[t].0);
                    assert forall|c: Seq<char>| #[trigger] keys_has(idx@, c) == chrom_in(
                        next,
                        c,
                    ) by {
                        if keys_has(idx@, c) {
                            let t = choose|t: int|
                                0 <= t < idx@.len() && #[trigger] idx@[t].0 == c;
                            assert(before[t].0 == c);
                            assert(keys_has(before, c));
                        }
                        if chrom_in(next, c) {
                            if chrom_in(prefix, c) {
                                assert(keys_has(before, c));
                                let t = choose|t: int|
                                    0 <= t < before.len() && #[trigger] before[t].0 == c;
                                assert(idx@[t].0 == c);
                            } else {
                                assert(idx@[i as int].0 == c);
                            }
                        }
                    }
                    assert forall|t: int| 0 <= t < idx@.len() implies #[trigger] idx@[t].1
                        == regions_on(next, idx@[t].0) by {
                        if t == i {
                            assert(before[t].1 == regions_on(prefix, before[t].0));
                            assert(regions_on(next, name) == regions_on(prefix, name).push(
                                regions@[k as int],
                            ));
                        } else {
                            assert(before[t].0 != name);
                            assert(regions_on(next, before[t].0) == regions_on(
                                prefix,
                                before[t].0,
                            ));
                            assert(before[t].1 == regions_on(prefix, before[t].0));
                        }
                    }
                }
            },
            None => {
                let mut init: Vec<Region> = Vec::new();
                init.push(region);
                idx.entries.push((init_name_of(&regions, k), init));
                proof {
                    assert(idx@ =~= before.push((name, seq![regions@[k as int]])));
                    assert(!keys_has(before, name));
                    assert(!chrom_in(prefix, name));
                    lemma_regions_on_empty(prefix, name);
                    assert(regions_on(next, name) =~= seq![regions@[k as int]]);
                    assert forall|t: int| 0 <= t < idx@.len() implies #[trigger] idx@[t].1
                        == regions_on(next, idx@[t].0) by {
                        if t < before.len() {
                            assert(idx@[t] == before[t]);
                            assert(before[t].0 != name);
                            assert(regions_on(next, before[t].0) == regions_on(
                                prefix,
                                before[t].0,
                            ));
                            assert(before[t].1 == regions_on(prefix, before[t].0));
                        } else {
                            assert(idx@[t] == (name, seq![regions@[k as int]]));
                        }
                    }
                    assert forall|c: Seq<char>| #[trigger] keys_has(idx@, c) == chrom_in(
                        next,
                        c,
                    ) by {
                        if keys_has(idx@, c) {
                            let t = choose|t: int|
                                0 <= t < idx@.len() && #[trigger] idx@[t].0 == c;
                            if t < before.len() {
                                assert(before[t].0 == c);
                                assert(keys_has(before, c));
                            } else {
                                assert(c == name);
                            }
                        }
                        if chrom_in(next, c) {
                            if chrom_in(prefix, c) {
                                assert(keys_has(before, c));
                                let t = choose|t: int|
                                    0 <= t < before.len() && #[trigger] before[t].0 == c;
                                assert(idx@[t].0 == c);
                            } else {
                                assert(c == name);
                                assert(idx@[before.len() as int].0 == c);
                            }
                        }
                    }
                    assert forall|a: int, b: int|
                        0 <= a < b < idx@.len() implies idx@[a].0 != idx@[b].0 by {
                        if b < before.len() {
                            assert(before[a].0 != before[b].0);
                        } else {
                            assert(before[a].0 == idx@[a].0);
                            assert(keys_has(before, before[a].0));
                        }
                    }
                }
            },
        }
        k = k + 1;
    }
    proof {
        assert(regions@.take(regions@.len() as int) =~= regions@);
    }
    let ghost grouped = idx@;
    let mut t: usize = 0;
    while t < idx.entries.len()
        invariant
            0 <= t <= idx@.len(),
            idx@.len() == idx.entries@.len(),
            idx@.len() == grouped.len(),
            forall|i: int| 0 <= i < idx@.len() ==> #[trigger] idx@[i].0 == grouped[i].0,
            forall|i: int| t <= i < idx@.len() ==> #[trigger] idx@[i].1 == grouped[i].1,
            forall|i: int|
                0 <= i < t ==> sorted_regions(#[trigger] idx@[i].1) && idx@[i].1.to_multiset()
                    == grouped[i].1.to_multiset(),
        decreases idx@.len() - t,
    {
        let ghost eb = idx@;
        let mut e = idx.entries.remove(t);
        sort_regions_in_place(&mut e.1);
        let ghost sorted_seq = e.1@;
        let ghost ename = e.0@;
        idx.entries.insert(t, e);
        proof {
            assert(idx@ =~= eb.update(t as int, (ename, sorted_seq)));
            assert(ename == eb[t as int].0);
            assert(sorted_seq.to_multiset() == eb[t as int].1.to_multiset());
        }
        t = t + 1;
    }
    proof {
        assert forall|c: Seq<char>| #[trigger] keys_has(idx@, c) == chrom_in(regions@, c) by {
            if keys_has(idx@, c) {
                let t2 = choose|t2: int| 0 <= t2 < idx@.len() && #[trigger] idx@[t2].0 == c;
                assert(grouped[t2].0 == c);
                assert(keys_has(grouped, c));
            }
            if keys_has(grouped, c) {
                let t2 = choose|t2: int| 0 <= t2 < grouped.len() && #[trigger] grouped[t2].0 == c;
                assert(idx@[t2].0 == c);
            }
        }
        assert forall|i: int, j: int| 0 <= i < j < idx@.len() implies idx@[i].0 != idx@[j].0 by {
            assert(grouped[i].0 != grouped[j].0);
        }
    }
    idx
}

/// Copy the chromosome name of one region.
fn init_name_of(regions: &Vec<Region>, k: usize) -> (r: String)
    requires
        k < regions@.len(),
    ensures
        r@ == regions@[k as int].seqname@,
{
    regions[k].seqname.clone()
}

} // verus!
