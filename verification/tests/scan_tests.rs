use exoncount::cigar::{CigarKind, CigarOp};
use exoncount::errors::CountError;
use exoncount::filter::{
    check_read, is_always_excluded, unmapped_options, ProgramOptions, ReadCheckOutcome,
    FLAGS_ALWAYS_FILTERED,
};
use exoncount::regions::{compress_regions, convert_regions_vec_to_hashmap, Region};
use exoncount::scan::{
    count_reads, count_unmapped_reads, reduce_scan_results, CountResult, ReadRecord,
};

fn options(minmapqual: u8, required_flag: u16, filtered_flag: u16) -> ProgramOptions {
    ProgramOptions {
        bamfile: "sample.bam".to_string(),
        gtf: "annotation.gtf.gz".to_string(),
        minmapqual,
        required_flag,
        filtered_flag,
    }
}

fn match_read(pos: i64, mapq: u8, flags: u16, len: u32) -> ReadRecord {
    ReadRecord {
        pos,
        mapq,
        flags,
        cigar: vec![CigarOp {
            kind: CigarKind::Match,
            len,
        }],
    }
}

#[test]
fn test_check_read_accepts_only_matching_reads() {
    let args = options(35, 3, 2816);
    // quality and flags in order
    assert_eq!(check_read(60, 3, &args), ReadCheckOutcome::Accept);
    // mapping quality below the minimum
    assert_eq!(check_read(34, 3, &args), ReadCheckOutcome::Reject);
    // a required flag bit missing
    assert_eq!(check_read(60, 1, &args), ReadCheckOutcome::Reject);
    // a filtered flag bit set (1024 is not in 2816; 256 is)
    assert_eq!(check_read(60, 3 | 256, &args), ReadCheckOutcome::Reject);
    // boundary: quality exactly at the minimum passes
    assert_eq!(check_read(35, 3, &args), ReadCheckOutcome::Accept);
}

#[test]
fn test_always_excluded_flags() {
    assert!(is_always_excluded(256)); // secondary alignment
    assert!(is_always_excluded(512)); // quality-check failed
    assert!(is_always_excluded(2048)); // supplementary alignment
    assert!(is_always_excluded(FLAGS_ALWAYS_FILTERED));
    assert!(!is_always_excluded(0));
    assert!(!is_always_excluded(3));
}

#[test]
fn test_unmapped_options_derivation() {
    let args = options(35, 3, 2816);
    let derived = unmapped_options(&args);
    assert_eq!(derived.minmapqual, 0);
    // proper-pair requirement (2) dropped, unmapped requirement (4) added
    assert_eq!(derived.required_flag, (3 & !2) | 4);
    // 2816 has no mapping-related bits, so the filter is unchanged
    assert_eq!(derived.filtered_flag, 2816);
    let args2 = options(10, 2, 63);
    let derived2 = unmapped_options(&args2);
    assert_eq!(derived2.required_flag, 4);
    assert_eq!(derived2.filtered_flag, 0);
}

#[test]
fn test_count_reads_end_to_end() {
    // regions chr1:[100,200) and chr1:[150,300) merge to chr1:[100,300)
    let mut raw = vec![
        Region {
            seqname: "chr1".to_string(),
            start: 100,
            end: 200,
        },
        Region {
            seqname: "chr1".to_string(),
            start: 150,
            end: 300,
        },
    ];
    exoncount::regions::sort_regions_in_place(&mut raw);
    let merged = compress_regions(&raw).unwrap();
    assert_eq!(merged.len(), 1);
    assert_eq!(merged[0].start, 100);
    assert_eq!(merged[0].end, 300);
    let regions_map = convert_regions_vec_to_hashmap(merged);
    let chr1 = regions_map.get("chr1").unwrap();

    let args = options(35, 0, 2816);
    let reads = vec![
        match_read(250, 60, 0, 50), // overlaps [100,300)
        match_read(400, 60, 0, 50), // past every region
    ];
    let (mapped, exon) = count_reads(chr1, &reads, &args);
    assert_eq!(mapped, CountResult { accepted: 2, rejected: 0 });
    assert_eq!(exon, CountResult { accepted: 1, rejected: 0 });
}

#[test]
fn test_count_reads_classifies_both_tallies() {
    let regions = vec![Region {
        seqname: "chr1".to_string(),
        start: 100,
        end: 300,
    }];
    let args = options(35, 0, 2816);
    let reads = vec![
        match_read(120, 60, 0, 50),   // accepted, overlaps
        match_read(130, 10, 0, 50),   // rejected (low quality), overlaps
        match_read(400, 60, 0, 50),   // accepted, no overlap
        match_read(410, 60, 256, 50), // secondary alignment: excluded entirely
    ];
    let (mapped, exon) = count_reads(&regions, &reads, &args);
    assert_eq!(mapped, CountResult { accepted: 2, rejected: 1 });
    assert_eq!(exon, CountResult { accepted: 1, rejected: 1 });
}

#[test]
fn test_count_reads_counts_once_per_read() {
    // two adjacent regions; a read overlapping both counts once
    let regions = vec![
        Region {
            seqname: "chr1".to_string(),
            start: 100,
            end: 150,
        },
        Region {
            seqname: "chr1".to_string(),
            start: 160,
            end: 210,
        },
    ];
    let args = options(0, 0, 0);
    let reads = vec![match_read(120, 60, 0, 80)]; // spans 120..200
    let (mapped, exon) = count_reads(&regions, &reads, &args);
    assert_eq!(mapped, CountResult { accepted: 1, rejected: 0 });
    assert_eq!(exon, CountResult { accepted: 1, rejected: 0 });
}

#[test]
fn test_count_reads_gap_does_not_count() {
    // the read's reference skip covers the region entirely
    let regions = vec![Region {
        seqname: "chr1".to_string(),
        start: 140,
        end: 150,
    }];
    let args = options(0, 0, 0);
    let reads = vec![ReadRecord {
        pos: 100,
        mapq: 60,
        flags: 0,
        cigar: vec![
            CigarOp {
                kind: CigarKind::Match,
                len: 20,
            },
            CigarOp {
                kind: CigarKind::RefSkip,
                len: 60,
            },
            CigarOp {
                kind: CigarKind::Match,
                len: 20,
            },
        ],
    }];
    let (mapped, exon) = count_reads(&regions, &reads, &args);
    assert_eq!(mapped, CountResult { accepted: 1, rejected: 0 });
    assert_eq!(exon, CountResult { accepted: 0, rejected: 0 });
}

#[test]
fn test_count_unmapped_reads_uses_derived_policy() {
    let args = options(35, 3, 2816);
    let reads = vec![
        match_read(0, 0, 5, 10),       // paired + unmapped: accepted despite mapq 0
        match_read(0, 0, 1, 10),       // unmapped bit missing: rejected
        match_read(0, 0, 5 | 512, 10), // quality-check failed: excluded entirely
    ];
    let tally = count_unmapped_reads(&args, &reads);
    assert_eq!(tally, CountResult { accepted: 1, rejected: 1 });
}

#[test]
fn test_reduce_scan_results_sums_all() {
    let results = vec![
        Ok((
            CountResult { accepted: 1, rejected: 2 },
            CountResult { accepted: 3, rejected: 4 },
        )),
        Ok((
            CountResult { accepted: 10, rejected: 20 },
            CountResult { accepted: 30, rejected: 40 },
        )),
    ];
    let (mapped, exon) = reduce_scan_results(results).unwrap();
    assert_eq!(mapped, CountResult { accepted: 11, rejected: 22 });
    assert_eq!(exon, CountResult { accepted: 33, rejected: 44 });
}

#[test]
fn test_reduce_scan_results_surfaces_first_error() {
    let results = vec![
        Ok((
            CountResult { accepted: 1, rejected: 0 },
            CountResult { accepted: 0, rejected: 0 },
        )),
        Err(CountError::ChromosomeScan {
            chrom: "chr2".to_string(),
            message: "cannot open".to_string(),
        }),
        Err(CountError::ChromosomeScan {
            chrom: "chr3".to_string(),
            message: "later".to_string(),
        }),
    ];
    let err = reduce_scan_results(results).unwrap_err();
    match err {
        CountError::ChromosomeScan { chrom, message } => {
            assert_eq!(chrom, "chr2");
            assert_eq!(message, "cannot open");
        }
        other => panic!("unexpected error: {:?}", other),
    }
}

#[test]
fn test_reduce_scan_results_order_independent_sums() {
    let a = Ok((
        CountResult { accepted: 5, rejected: 1 },
        CountResult { accepted: 2, rejected: 0 },
    ));
    let b = Ok((
        CountResult { accepted: 7, rejected: 3 },
        CountResult { accepted: 1, rejected: 9 },
    ));
    let c = Ok((
        CountResult { accepted: 0, rejected: 0 },
        CountResult { accepted: 4, rejected: 4 },
    ));
    let one = reduce_scan_results(vec![a.clone(), b.clone(), c.clone()]).unwrap();
    let two = reduce_scan_results(vec![c, a, b]).unwrap();
    assert_eq!(one, two);
}
