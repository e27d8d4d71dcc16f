use primer_pairs::pipeline::scan_records;
use primer_pairs::primers::{bytes_equal, copy_range, PrimerSet};
use primer_pairs::scanner::{
    in_same_group, match_pair, prefixes_agree, scan_record, Match, Record, ScanConfig, SpanPolicy,
};
use primer_pairs::workers::{resolve_worker_count, worker_count, RESERVED_CPUS};

fn primer_set(entries: &[(&str, &str)]) -> PrimerSet {
    let mut set = PrimerSet::new();
    for (id, seq) in entries {
        set.insert(id.as_bytes().to_vec(), seq.as_bytes().to_vec());
    }
    set
}

fn record(id: &str, seq: &str) -> Record {
    Record { id: id.as_bytes().to_vec(), description: None, sequence: seq.as_bytes().to_vec() }
}

fn config(policy: SpanPolicy, prefix_len: Option<usize>) -> ScanConfig {
    ScanConfig { prefix_len, policy }
}

fn text(v: &[u8]) -> String {
    String::from_utf8(v.to_vec()).unwrap()
}

fn line(m: &Match) -> String {
    format!(
        "{}\t{}\t{}\t{}\t{}\t{}\t{}",
        text(&m.record_id),
        text(&m.first_primer_id),
        text(&m.first_primer_seq),
        text(&m.second_primer_id),
        text(&m.second_primer_seq),
        text(&m.amplicon),
        m.amplicon_length
    )
}

#[test]
fn inclusive_end_to_end() {
    let ps = primer_set(&[("P1", "ACGT"), ("P2", "TTTT")]);
    let r = record("chr1", "GGACGTCCTTTTGG");
    let out = scan_record(&r, &ps, &config(SpanPolicy::Inclusive, None));
    assert_eq!(out.len(), 1);
    assert_eq!(line(&out[0]), "chr1\tP1\tACGT\tP2\tTTTT\tACGTCCTTTT\t10");
}

#[test]
fn strict_gap_end_to_end() {
    let ps = primer_set(&[("P1", "ACGT"), ("P2", "TTTT")]);
    let r = record("chr1", "GGACGTCCTTTTGG");
    let out = scan_record(&r, &ps, &config(SpanPolicy::StrictGap, None));
    assert_eq!(out.len(), 1);
    assert_eq!(line(&out[0]), "chr1\tP1\tACGT\tP2\tTTTT\tCC\t2");
}

#[test]
fn inclusive_swaps_roles_when_second_comes_first() {
    let ps = primer_set(&[("P2", "TTTT"), ("P1", "ACGT")]);
    let r = record("chr1", "GGACGTCCTTTTGG");
    let out = scan_record(&r, &ps, &config(SpanPolicy::Inclusive, None));
    assert_eq!(out.len(), 1);
    assert_eq!(line(&out[0]), "chr1\tP1\tACGT\tP2\tTTTT\tACGTCCTTTT\t10");
    let gap = scan_record(&r, &ps, &config(SpanPolicy::StrictGap, None));
    assert_eq!(line(&gap[0]), "chr1\tP1\tACGT\tP2\tTTTT\tCC\t2");
}

#[test]
fn strict_gap_skips_overlapping_primers() {
    let ps = primer_set(&[("A", "ACGT"), ("B", "GTCC")]);
    let r = record("r", "AACGTCCA");
    assert_eq!(scan_record(&r, &ps, &config(SpanPolicy::StrictGap, None)).len(), 0);
    let out = scan_record(&r, &ps, &config(SpanPolicy::Inclusive, None));
    assert_eq!(out.len(), 1);
    assert_eq!(line(&out[0]), "r\tA\tACGT\tB\tGTCC\tACGTCC\t6");
    assert!(out[0].amplicon_length >= 4);
}

#[test]
fn adjacent_primers_give_empty_gap() {
    let ps = primer_set(&[("A", "AC"), ("B", "GT")]);
    let r = record("r", "ACGT");
    let out = scan_record(&r, &ps, &config(SpanPolicy::StrictGap, None));
    assert_eq!(out.len(), 1);
    assert_eq!(out[0].amplicon_length, 0);
    assert!(out[0].amplicon.is_empty());
}

#[test]
fn identical_primers_give_one_primer_span() {
    let ps = primer_set(&[("A", "ACGT"), ("B", "acgt")]);
    let r = record("r", "TTACGTTT");
    let out = scan_record(&r, &ps, &config(SpanPolicy::Inclusive, None));
    assert_eq!(out.len(), 1);
    assert_eq!(line(&out[0]), "r\tA\tACGT\tB\tacgt\tACGT\t4");
    assert_eq!(scan_record(&r, &ps, &config(SpanPolicy::StrictGap, None)).len(), 0);
}

#[test]
fn inclusive_span_ends_at_later_primer() {
    let ps = primer_set(&[("A", "ACGT"), ("B", "CG")]);
    let r = record("r", "ACGT");
    let out = scan_record(&r, &ps, &config(SpanPolicy::Inclusive, None));
    assert_eq!(out.len(), 1);
    assert_eq!(line(&out[0]), "r\tA\tACGT\tB\tCG\tACG\t3");
}

#[test]
fn missing_primer_gives_nothing() {
    let ps = primer_set(&[("P1", "ACGT"), ("P2", "GGGGG")]);
    let r = record("r", "ACGTACGT");
    assert_eq!(scan_record(&r, &ps, &config(SpanPolicy::Inclusive, None)).len(), 0);
    assert_eq!(scan_record(&r, &ps, &config(SpanPolicy::StrictGap, None)).len(), 0);
}

#[test]
fn pairs_come_in_primer_order() {
    let ps = primer_set(&[("a", "AA"), ("b", "CC"), ("c", "GG")]);
    let r = record("r", "AATCCTGG");
    let out = scan_record(&r, &ps, &config(SpanPolicy::StrictGap, None));
    let lines: Vec<String> = out.iter().map(line).collect();
    assert_eq!(
        lines,
        vec![
            "r\ta\tAA\tb\tCC\tT\t1".to_string(),
            "r\ta\tAA\tc\tGG\tTCCT\t4".to_string(),
            "r\tb\tCC\tc\tGG\tT\t1".to_string(),
        ]
    );
}

#[test]
fn prefix_grouping_skips_other_groups() {
    let ps = primer_set(&[("g1_f", "AA"), ("g1_r", "CC"), ("g2_f", "GG"), ("g", "TT")]);
    let r = record("r", "AATCCTGGTT");
    let out = scan_record(&r, &ps, &config(SpanPolicy::Inclusive, Some(2)));
    let lines: Vec<String> = out.iter().map(line).collect();
    assert_eq!(lines, vec!["r\tg1_f\tAA\tg1_r\tCC\tAATCC\t5".to_string()]);
    for m in &out {
        assert_eq!(m.first_primer_id[..2], m.second_primer_id[..2]);
    }
    let all = scan_record(&r, &ps, &config(SpanPolicy::Inclusive, None));
    assert_eq!(all.len(), 6);
    let zero = scan_record(&r, &ps, &config(SpanPolicy::Inclusive, Some(0)));
    assert_eq!(zero.len(), 6);
}

#[test]
fn single_primer_gives_no_pairs() {
    let ps = primer_set(&[("A", "AC")]);
    let r = record("r", "ACAC");
    assert_eq!(scan_record(&r, &ps, &config(SpanPolicy::Inclusive, None)).len(), 0);
}

#[test]
fn match_pair_reports_one_pair() {
    let ps = primer_set(&[("P1", "ACGT"), ("P2", "TTTT")]);
    let r = record("chr1", "GGACGTCCTTTTGG");
    let m = match_pair(&r, ps.primer(0), ps.primer(1), &config(SpanPolicy::StrictGap, None));
    assert_eq!(line(&m.unwrap()), "chr1\tP1\tACGT\tP2\tTTTT\tCC\t2");
    let none = match_pair(&r, ps.primer(0), ps.primer(1), &config(SpanPolicy::StrictGap, Some(3)));
    assert!(none.is_none());
}

#[test]
fn later_duplicate_id_overwrites() {
    let ps = primer_set(&[("P1", "ACGT"), ("P2", "TTTT"), ("P1", "GGGG")]);
    assert_eq!(ps.len(), 2);
    assert_eq!(ps.get(b"P1"), Some(b"GGGG".to_vec()));
    assert_eq!(ps.get(b"P2"), Some(b"TTTT".to_vec()));
    assert_eq!(ps.get(b"P3"), None);
    assert_eq!(ps.primer(0).id, b"P1".to_vec());
    assert_eq!(ps.primer(0).sequence, b"GGGG".to_vec());
    assert_eq!(ps.position(b"P2"), Some(1));
}

#[test]
fn empty_primer_set() {
    let ps = PrimerSet::new();
    assert_eq!(ps.len(), 0);
    assert_eq!(ps.get(b"P1"), None);
    let r = record("r", "ACGT");
    assert!(scan_record(&r, &ps, &config(SpanPolicy::Inclusive, None)).is_empty());
}

fn sorted_lines(out: &[Match]) -> Vec<String> {
    let mut v: Vec<String> = out.iter().map(line).collect();
    v.sort();
    v
}

#[test]
fn record_order_does_not_change_matches() {
    let ps = primer_set(&[("P1", "ACGT"), ("P2", "TTTT"), ("P3", "CC")]);
    let recs = vec![
        record("a", "GGACGTCCTTTTGG"),
        record("b", "TTTTACGTCC"),
        record("c", "AAAA"),
    ];
    let reversed = vec![
        record("c", "AAAA"),
        record("b", "TTTTACGTCC"),
        record("a", "GGACGTCCTTTTGG"),
    ];
    for policy in [SpanPolicy::Inclusive, SpanPolicy::StrictGap] {
        let cfg = config(policy, None);
        let one = scan_records(&recs, &ps, &cfg);
        let again = scan_records(&recs, &ps, &cfg);
        let other = scan_records(&reversed, &ps, &cfg);
        let lines: Vec<String> = one.iter().map(line).collect();
        let lines_again: Vec<String> = again.iter().map(line).collect();
        assert_eq!(lines, lines_again);
        assert_eq!(sorted_lines(&one), sorted_lines(&other));
        assert!(!one.is_empty());
    }
}

#[test]
fn records_split_between_workers_give_same_matches() {
    let ps = primer_set(&[("P1", "ACGT"), ("P2", "TTTT")]);
    let cfg = config(SpanPolicy::Inclusive, None);
    let all = scan_records(&vec![record("a", "GGACGTCCTTTTGG"), record("b", "TTTTGACGT")], &ps, &cfg);
    let mut split = scan_records(&vec![record("b", "TTTTGACGT")], &ps, &cfg);
    split.extend(scan_records(&vec![record("a", "GGACGTCCTTTTGG")], &ps, &cfg));
    assert_eq!(sorted_lines(&all), sorted_lines(&split));
    assert_eq!(all.len(), 2);
}

#[test]
fn worker_count_resolution() {
    assert_eq!(RESERVED_CPUS, 2);
    assert_eq!(resolve_worker_count(None, 8), 6);
    assert_eq!(resolve_worker_count(None, 3), 1);
    assert_eq!(resolve_worker_count(None, 2), 1);
    assert_eq!(resolve_worker_count(None, 1), 1);
    assert_eq!(resolve_worker_count(None, 0), 1);
    assert_eq!(resolve_worker_count(Some(4), 8), 4);
    assert_eq!(resolve_worker_count(Some(0), 8), 6);
    assert_eq!(worker_count(Some(5)), 5);
    assert!(worker_count(None) >= 1);
}

#[test]
fn byte_helpers() {
    assert!(prefixes_agree(b"g1_f", b"g1_r", 2));
    assert!(!prefixes_agree(b"g1_f", b"g2_r", 2));
    assert!(!prefixes_agree(b"g", b"g1", 2));
    assert!(prefixes_agree(b"", b"", 0));
    assert!(in_same_group(b"x", b"y", None));
    assert!(!in_same_group(b"x", b"y", Some(1)));
    assert!(bytes_equal(b"ACGT", b"ACGT"));
    assert!(!bytes_equal(b"ACGT", b"ACG"));
    assert!(!bytes_equal(b"ACGT", b"ACGA"));
    assert_eq!(copy_range(b"GGACGTCC", 2, 6), b"ACGT".to_vec());
}
