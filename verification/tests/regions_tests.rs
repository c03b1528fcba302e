use exoncount::errors::CountError;
use exoncount::regions::{
    compress_regions, convert_regions_vec_to_hashmap, exon_regions, sort_regions_in_place, GtfRow,
    Region,
};

#[test]
fn test_sort_regions_in_place_different_seqnames() {
    let mut regions = vec![
        Region {
            seqname: "chr2".to_string(),
            start: 100,
            end: 200,
        },
        Region {
            seqname: "chr1".to_string(),
            start: 100,
            end: 200,
        },
    ];
    sort_regions_in_place(&mut regions);
    assert_eq!(regions[0].seqname, "chr1");
    assert_eq!(regions[1].seqname, "chr2");
}

#[test]
fn test_sort_regions_in_place_same_seqname_different_starts() {
    let mut regions = vec![
        Region {
            seqname: "chr1".to_string(),
            start: 200,
            end: 300,
        },
        Region {
            seqname: "chr1".to_string(),
            start: 100,
            end: 200,
        },
    ];
    sort_regions_in_place(&mut regions);
    assert_eq!(regions[0].start, 100);
    assert_eq!(regions[1].start, 200);
}

#[test]
fn test_sort_regions_in_place_same_seqname_same_starts() {
    let mut regions = vec![
        Region {
            seqname: "chr1".to_string(),
            start: 100,
            end: 300,
        },
        Region {
            seqname: "chr1".to_string(),
            start: 100,
            end: 200,
        },
    ];
    sort_regions_in_place(&mut regions);
    assert_eq!(regions[0].end, 200);
    assert_eq!(regions[1].end, 300);
}

#[test]
fn test_compress_regions_non_overlapping() {
    let regions = vec![
        Region {
            seqname: "chr1".to_string(),
            start: 100,
            end: 200,
        },
        Region {
            seqname: "chr1".to_string(),
            start: 300,
            end: 400,
        },
    ];
    let compressed = compress_regions(&regions).unwrap();
    assert_eq!(compressed.len(), 2);
    assert_eq!(compressed[0].start, 100);
    assert_eq!(compressed[1].start, 300);
}

#[test]
fn test_compress_regions_overlapping() {
    let regions = vec![
        Region {
            seqname: "chr1".to_string(),
            start: 100,
            end: 200,
        },
        Region {
            seqname: "chr1".to_string(),
            start: 150,
            end: 250,
        },
        Region {
            seqname: "chr1".to_string(),
            start: 240,
            end: 300,
        },
    ];
    let compressed = compress_regions(&regions).unwrap();
    assert_eq!(compressed.len(), 1);
    assert_eq!(compressed[0].start, 100);
    assert_eq!(compressed[0].end, 300);
}

#[test]
fn test_compress_regions_multiple_seqnames() {
    let regions = vec![
        Region {
            seqname: "chr1".to_string(),
            start: 100,
            end: 200,
        },
        Region {
            seqname: "chr2".to_string(),
            start: 100,
            end: 200,
        },
    ];
    let compressed = compress_regions(&regions).unwrap();
    assert_eq!(compressed.len(), 2);
    assert_eq!(compressed[0].seqname, "chr1");
    assert_eq!(compressed[1].seqname, "chr2");
}

#[test]
fn test_convert_regions_vec_to_hashmap() {
    let regions = vec![
        Region {
            seqname: "chr1".to_string(),
            start: 100,
            end: 200,
        },
        Region {
            seqname: "chr1".to_string(),
            start: 150,
            end: 250,
        },
        Region {
            seqname: "chr2".to_string(),
            start: 100,
            end: 200,
        },
    ];
    let regions_map = convert_regions_vec_to_hashmap(regions);
    assert_eq!(regions_map.len(), 2);
    assert_eq!(regions_map.get("chr1").unwrap().len(), 2);
    assert_eq!(regions_map.get("chr2").unwrap().len(), 1);
}

#[test]
fn test_compress_regions_empty_input_is_an_error() {
    let regions: Vec<Region> = vec![];
    let result = compress_regions(&regions);
    assert!(matches!(result, Err(CountError::EmptyRegionInput)));
}

#[test]
fn test_compress_regions_touching_regions_merge() {
    let regions = vec![
        Region {
            seqname: "chr1".to_string(),
            start: 100,
            end: 200,
        },
        Region {
            seqname: "chr1".to_string(),
            start: 200,
            end: 300,
        },
    ];
    let compressed = compress_regions(&regions).unwrap();
    assert_eq!(compressed.len(), 1);
    assert_eq!(compressed[0].start, 100);
    assert_eq!(compressed[0].end, 300);
}

#[test]
fn test_compress_regions_contained_region_keeps_long_end() {
    // a region nested inside the accumulator must not shrink it
    let regions = vec![
        Region {
            seqname: "chr1".to_string(),
            start: 100,
            end: 300,
        },
        Region {
            seqname: "chr1".to_string(),
            start: 150,
            end: 200,
        },
    ];
    let compressed = compress_regions(&regions).unwrap();
    assert_eq!(compressed.len(), 1);
    assert_eq!(compressed[0].start, 100);
    assert_eq!(compressed[0].end, 300);
}

#[test]
fn test_compress_regions_is_idempotent() {
    let mut regions = vec![
        Region {
            seqname: "chr2".to_string(),
            start: 10,
            end: 20,
        },
        Region {
            seqname: "chr1".to_string(),
            start: 100,
            end: 200,
        },
        Region {
            seqname: "chr1".to_string(),
            start: 150,
            end: 300,
        },
    ];
    sort_regions_in_place(&mut regions);
    let once = compress_regions(&regions).unwrap();
    let twice = compress_regions(&once).unwrap();
    assert_eq!(once.len(), twice.len());
    for (a, b) in once.iter().zip(twice.iter()) {
        assert_eq!(a.seqname, b.seqname);
        assert_eq!(a.start, b.start);
        assert_eq!(a.end, b.end);
    }
}

#[test]
fn test_exon_regions_filters_converts_and_sorts() {
    let rows = vec![
        GtfRow {
            seqname: "chr2".to_string(),
            feature: "exon".to_string(),
            start: 500,
            end: 600,
        },
        GtfRow {
            seqname: "chr1".to_string(),
            feature: "gene".to_string(),
            start: 1,
            end: 1000,
        },
        GtfRow {
            seqname: "chr1".to_string(),
            feature: "exon".to_string(),
            start: 101,
            end: 200,
        },
    ];
    let regions = exon_regions(&rows);
    assert_eq!(regions.len(), 2);
    assert_eq!(regions[0].seqname, "chr1");
    assert_eq!(regions[0].start, 100); // 1-based 101 becomes 0-based 100
    assert_eq!(regions[0].end, 200);
    assert_eq!(regions[1].seqname, "chr2");
    assert_eq!(regions[1].start, 499);
}

#[test]
fn test_region_index_ensure_chromosome() {
    let regions = vec![Region {
        seqname: "chr1".to_string(),
        start: 100,
        end: 200,
    }];
    let mut regions_map = convert_regions_vec_to_hashmap(regions);
    assert_eq!(regions_map.len(), 1);
    regions_map.ensure_chromosome("chr2".to_string());
    assert_eq!(regions_map.len(), 2);
    assert_eq!(regions_map.get("chr2").unwrap().len(), 0);
    regions_map.ensure_chromosome("chr1".to_string());
    assert_eq!(regions_map.len(), 2);
    assert_eq!(regions_map.get("chr1").unwrap().len(), 1);
    assert!(regions_map.get("chr3").is_none());
}

#[test]
fn test_convert_sorts_each_chromosome_list() {
    let regions = vec![
        Region {
            seqname: "chr1".to_string(),
            start: 300,
            end: 400,
        },
        Region {
            seqname: "chr1".to_string(),
            start: 100,
            end: 200,
        },
    ];
    let regions_map = convert_regions_vec_to_hashmap(regions);
    let chr1 = regions_map.get("chr1").unwrap();
    assert_eq!(chr1[0].start, 100);
    assert_eq!(chr1[1].start, 300);
}
