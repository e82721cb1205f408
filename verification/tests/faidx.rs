use fakit::errors::FakitError;
use fakit::index::IndexRecord;
use fakit::query::{byte_offset, extract_bases, region_plan, resolve_query, whole_plan};
use fakit::region::parse_region;
use fakit::scan::index_fasta;
use fakit::sidecar::parse_sidecar;
use fakit::store::IndexStore;

fn lines_of(strs: &[&str]) -> Vec<Vec<u8>> {
    strs.iter().map(|s| s.as_bytes().to_vec()).collect()
}

fn file_bytes(strs: &[&str]) -> Vec<u8> {
    let mut out = Vec::new();
    for s in strs {
        out.extend_from_slice(s.as_bytes());
        out.push(b'\n');
    }
    out
}

fn extract(store: &IndexStore, file: &[u8], name: &[u8], start: u64, end: u64) -> Vec<u8> {
    let rec = store.lookup(name).expect("unknown sequence");
    let plan = region_plan(rec, start, end).expect("bad range");
    let a = plan.byte_offset as usize;
    let b = a + plan.bytes_needed as usize;
    extract_bases(&file[a..b], &plan)
}

#[test]
fn scenario_one_record_wrapped_at_four() {
    let lines = lines_of(&[">chr1", "ACGT", "ACGT", "AC"]);
    let store = index_fasta(&lines).expect("scan failed");
    assert_eq!(store.len(), 1);
    let rec = store.lookup(b"chr1").expect("chr1 missing");
    assert_eq!(rec.name, b"chr1".to_vec());
    assert_eq!(rec.sequence_length, 10);
    assert_eq!(rec.offset, 6);
    assert_eq!(rec.line_bases, 4);
    assert_eq!(rec.line_width, 5);
    assert_eq!(store.to_sidecar(), b"chr1\t10\t6\t4\t5\n".to_vec());

    let file = file_bytes(&[">chr1", "ACGT", "ACGT", "AC"]);
    assert_eq!(extract(&store, &file, b"chr1", 5, 8), b"ACGT".to_vec());
    assert_eq!(extract(&store, &file, b"chr1", 9, 10), b"AC".to_vec());
}

#[test]
fn round_trip_whole_sequence() {
    let strs = [">chr1 some description", "ACGT", "ACGT", "AC"];
    let lines = lines_of(&strs);
    let store = index_fasta(&lines).expect("scan failed");
    let file = file_bytes(&strs);
    assert_eq!(extract(&store, &file, b"chr1", 1, 10), b"ACGTACGTAC".to_vec());
}

#[test]
fn byte_offset_of_start_one_is_stored_offset() {
    let lines = lines_of(&[">a", "ACGTA", "CG"]);
    let store = index_fasta(&lines).expect("scan failed");
    let rec = store.lookup(b"a").expect("a missing");
    assert_eq!(byte_offset(rec, 1), rec.offset);
}

#[test]
fn range_spanning_line_boundary() {
    let strs = [">chr1", "ACGT", "ACGT", "AC"];
    let lines = lines_of(&strs);
    let store = index_fasta(&lines).expect("scan failed");
    let file = file_bytes(&strs);
    // bases 4 and 5 sit either side of the first line boundary
    assert_eq!(extract(&store, &file, b"chr1", 4, 5), b"TA".to_vec());
}

#[test]
fn rebuilding_index_is_byte_identical() {
    let strs = [">a", "ACGTA", "CG", ">b", "ACG", "ACG", "A"];
    let lines = lines_of(&strs);
    let s1 = index_fasta(&lines).expect("scan failed").to_sidecar();
    let s2 = index_fasta(&lines).expect("scan failed").to_sidecar();
    assert_eq!(s1, s2);
}

#[test]
fn bounds_rejected_without_breaking_batch() {
    let strs = [">chr1", "ACGT", "ACGT", "AC"];
    let lines = lines_of(&strs);
    let store = index_fasta(&lines).expect("scan failed");
    let file = file_bytes(&strs);
    let rec = store.lookup(b"chr1").expect("chr1 missing");
    assert_eq!(region_plan(rec, 0, 3).unwrap_err(), FakitError::RegionOutOfBounds);
    assert_eq!(region_plan(rec, 7, 5).unwrap_err(), FakitError::RegionOutOfBounds);
    assert_eq!(region_plan(rec, 3, 11).unwrap_err(), FakitError::RegionOutOfBounds);
    // the same record still serves a valid region afterwards
    assert_eq!(extract(&store, &file, b"chr1", 1, 4), b"ACGT".to_vec());
}

#[test]
fn two_records_with_differing_widths() {
    let strs = [">a", "ACGTA", "CG", ">b", "ACG", "ACG", "A"];
    let lines = lines_of(&strs);
    let store = index_fasta(&lines).expect("scan failed");
    assert_eq!(store.len(), 2);
    let a = store.lookup(b"a").expect("a missing");
    assert_eq!(a.sequence_length, 7);
    assert_eq!(a.offset, 3);
    assert_eq!(a.line_bases, 5);
    assert_eq!(a.line_width, 6);
    let b = store.lookup(b"b").expect("b missing");
    assert_eq!(b.sequence_length, 7);
    // >a\n (3) + ACGTA\n (6) + CG\n (3) + >b\n (3)
    assert_eq!(b.offset, 15);
    assert_eq!(b.line_bases, 3);
    assert_eq!(b.line_width, 4);

    let file = file_bytes(&strs);
    assert_eq!(extract(&store, &file, b"a", 1, 7), b"ACGTACG".to_vec());
    assert_eq!(extract(&store, &file, b"b", 1, 7), b"ACGACGA".to_vec());
    assert_eq!(extract(&store, &file, b"b", 3, 4), b"GA".to_vec());
}

#[test]
fn malformed_region_skipped_then_valid_region_served() {
    let strs = [">chr1", "ACGT", "ACGT", "AC"];
    let lines = lines_of(&strs);
    let store = index_fasta(&lines).expect("scan failed");
    let file = file_bytes(&strs);
    // start > end is malformed, never swapped
    assert_eq!(parse_region(b"chr1:10-5").unwrap_err(), FakitError::MalformedRegion);
    // a later region in the same batch is still processed
    let q = parse_region(b"chr1:5-8").expect("parse failed");
    let (start, end) = q.range.expect("range missing");
    assert_eq!(extract(&store, &file, &q.name, start, end), b"ACGT".to_vec());
}

#[test]
fn region_descriptor_grammar() {
    let q = parse_region(b"chr1").expect("name alone");
    assert_eq!(q.name, b"chr1".to_vec());
    assert!(q.range.is_none());

    let q = parse_region(b"chr1:3-17").expect("range");
    assert_eq!(q.name, b"chr1".to_vec());
    assert_eq!(q.range, Some((3, 17)));

    let q = parse_region(b":1-2").expect("empty name");
    assert_eq!(q.name, b"".to_vec());
    assert_eq!(q.range, Some((1, 2)));

    for bad in [
        &b"chr1:5"[..],
        b"chr1:a-b",
        b"chr1:1-2-3",
        b"chr1:-2",
        b"chr1:1-",
        b"chr1:1-18446744073709551616",
    ] {
        assert_eq!(parse_region(bad).unwrap_err(), FakitError::MalformedRegion);
    }
    // start == 0 parses; the query engine rejects it as out of bounds
    let q = parse_region(b"chr1:0-2").expect("zero start parses");
    assert_eq!(q.range, Some((0, 2)));
}

#[test]
fn sidecar_round_trip_and_errors() {
    let strs = [">a", "ACGTA", "CG", ">b", "ACG", "ACG", "A"];
    let lines = lines_of(&strs);
    let store = index_fasta(&lines).expect("scan failed");
    let text = store.to_sidecar();
    assert_eq!(text, b"a\t7\t3\t5\t6\nb\t7\t15\t3\t4\n".to_vec());

    let loaded = parse_sidecar(&text).expect("parse failed");
    assert_eq!(loaded.len(), 2);
    let a = loaded.lookup(b"a").expect("a missing");
    assert_eq!(
        (a.sequence_length, a.offset, a.line_bases, a.line_width),
        (7, 3, 5, 6)
    );
    let b = loaded.lookup(b"b").expect("b missing");
    assert_eq!(
        (b.sequence_length, b.offset, b.line_bases, b.line_width),
        (7, 15, 3, 4)
    );

    assert_eq!(
        parse_sidecar(b"a\t7\t3\t5\t6\nbad row\n").unwrap_err(),
        FakitError::MalformedIndexLine(2)
    );
    assert_eq!(
        parse_sidecar(b"a\t7\t3\t5\t6\tz\n").unwrap_err(),
        FakitError::MalformedIndexLine(1)
    );
    // metadata that seeking could not trust is rejected
    assert_eq!(
        parse_sidecar(b"a\t10\t6\t4\t9\n").unwrap_err(),
        FakitError::MalformedIndexLine(1)
    );
}

#[test]
fn scan_rejects_malformed_files() {
    assert_eq!(
        index_fasta(&lines_of(&["ACGT", ">a"])).unwrap_err(),
        FakitError::MissingHeader
    );
    // a body line longer than the established width
    assert_eq!(
        index_fasta(&lines_of(&[">a", "ACGT", "ACGTA"])).unwrap_err(),
        FakitError::NonUniformLineLength(3)
    );
    // a body line after a shorter-than-full line
    assert_eq!(
        index_fasta(&lines_of(&[">a", "ACGT", "AC", "G"])).unwrap_err(),
        FakitError::NonUniformLineLength(4)
    );
}

#[test]
fn duplicate_name_overwrites_in_place() {
    let lines = lines_of(&[">a", "AC", ">b", "GGG", ">a", "TTTT"]);
    let store = index_fasta(&lines).expect("scan failed");
    assert_eq!(store.len(), 2);
    // position of the first "a" row is kept, its metadata overwritten
    let first = store.get(0);
    assert_eq!(first.name, b"a".to_vec());
    assert_eq!(first.sequence_length, 4);
    assert_eq!(first.line_bases, 4);
    assert_eq!(store.get(1).name, b"b".to_vec());
}

#[test]
fn empty_records() {
    // an intermediate record with no bases is dropped
    let store = index_fasta(&lines_of(&[">a", ">b", "AC"])).expect("scan failed");
    assert_eq!(store.len(), 1);
    assert!(store.lookup(b"a").is_none());
    assert!(store.lookup(b"b").is_some());

    // the final record is committed even when empty
    let store = index_fasta(&lines_of(&[">a", "AC", ">b"])).expect("scan failed");
    assert_eq!(store.len(), 2);
    let b = store.lookup(b"b").expect("b missing");
    assert_eq!((b.sequence_length, b.line_bases, b.line_width), (0, 0, 0));
    let plan = whole_plan(b);
    assert_eq!((plan.count, plan.bytes_needed), (0, 0));
    assert_eq!(extract_bases(b"", &plan), b"".to_vec());
}

#[test]
fn whole_sequence_plan() {
    let strs = [">chr1", "ACGT", "ACGT", "AC"];
    let lines = lines_of(&strs);
    let store = index_fasta(&lines).expect("scan failed");
    let file = file_bytes(&strs);
    let rec = store.lookup(b"chr1").expect("chr1 missing");
    let plan = whole_plan(rec);
    assert_eq!(plan.byte_offset, rec.offset);
    assert_eq!(plan.count, 10);
    assert_eq!(plan.bytes_needed, 12);
    let a = plan.byte_offset as usize;
    let b = a + plan.bytes_needed as usize;
    assert_eq!(extract_bases(&file[a..b], &plan), b"ACGTACGTAC".to_vec());
}

#[test]
fn empty_input_yields_empty_index() {
    let store = index_fasta(&Vec::new()).expect("scan failed");
    assert_eq!(store.len(), 0);
    assert_eq!(store.to_sidecar(), Vec::<u8>::new());
    let store = parse_sidecar(b"").expect("parse failed");
    assert_eq!(store.len(), 0);
}

#[test]
fn header_name_stops_at_whitespace() {
    let store = index_fasta(&lines_of(&[">chr1 rest of header", "AC"])).expect("scan failed");
    assert!(store.lookup(b"chr1").is_some());
    assert!(store.lookup(b"chr1 rest of header").is_none());
    let store = index_fasta(&lines_of(&["> chr1", "AC"])).expect("scan failed");
    assert!(store.lookup(b"").is_some());
}

#[test]
fn unknown_sequence_is_none() {
    let store = index_fasta(&lines_of(&[">a", "AC"])).expect("scan failed");
    assert!(store.lookup(b"missing").is_none());
}

#[test]
fn insert_replaces_by_name() {
    let mut store = IndexStore::new();
    store.insert(IndexRecord {
        name: b"x".to_vec(),
        sequence_length: 4,
        offset: 3,
        line_bases: 4,
        line_width: 5,
    });
    store.insert(IndexRecord {
        name: b"y".to_vec(),
        sequence_length: 2,
        offset: 11,
        line_bases: 2,
        line_width: 3,
    });
    store.insert(IndexRecord {
        name: b"x".to_vec(),
        sequence_length: 8,
        offset: 20,
        line_bases: 8,
        line_width: 9,
    });
    assert_eq!(store.len(), 2);
    assert_eq!(store.get(0).sequence_length, 8);
    assert_eq!(store.get(1).name, b"y".to_vec());
}

#[test]
fn query_engine_resolves_names_and_ranges() {
    let lines = lines_of(&[">chr1", "ACGT", "ACGT", "AC"]);
    let store = index_fasta(&lines).expect("scan failed");

    let q = parse_region(b"nope:1-2").expect("parse failed");
    assert_eq!(
        resolve_query(&store, &q).unwrap_err(),
        FakitError::UnknownSequence
    );

    let q = parse_region(b"chr1").expect("parse failed");
    let p = resolve_query(&store, &q).expect("whole plan");
    assert_eq!((p.byte_offset, p.count), (6, 10));

    let q = parse_region(b"chr1:5-8").expect("parse failed");
    let p = resolve_query(&store, &q).expect("range plan");
    assert_eq!((p.byte_offset, p.bytes_needed, p.count), (11, 4, 4));

    let q = parse_region(b"chr1:0-3").expect("parse failed");
    assert_eq!(
        resolve_query(&store, &q).unwrap_err(),
        FakitError::RegionOutOfBounds
    );
}
