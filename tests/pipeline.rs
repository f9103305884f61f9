use phased_human::compression::{choose_compression, get_compression, CompressionFormat};
use phased_human::emit::{assignment_header, assignment_row, contig_record, emit_read, filter_reads, pass_contigs, read_record};
use phased_human::mapping::{parse_mapping_line, read2tig_pos, MappingIndex, ParseError};
use phased_human::select::{parse_overlap_line, select_read_by_dist, select_read_by_read_ovl, OverlapExpansion};
use phased_human::text::{parse_u64, split_fields};

fn lines(ls: &[&str]) -> Vec<String> {
    ls.iter().map(|l| l.to_string()).collect()
}

#[test]
fn mapping_example_is_kept_with_distance() {
    let rec = parse_mapping_line("r1\t10000\tx\tx\tx\ttigA\t50000\t100\t8000").ok().unwrap();
    assert_eq!(rec.read_name, "r1");
    assert_eq!(rec.read_len, 10000);
    assert_eq!(rec.tig_name, "tigA");
    assert_eq!(rec.tig_len, 50000);
    assert_eq!(rec.tig_end - rec.tig_beg, 7900);
    let idx = read2tig_pos(&lines(&["r1\t10000\tx\tx\tx\ttigA\t50000\t100\t8000"])).ok().unwrap();
    let b = idx.best("r1").unwrap();
    assert_eq!(b.aln_len, 7900);
    assert_eq!(b.distance, 100);
    assert_eq!(b.tig_name, "tigA");
    assert_eq!(idx.contig_len("tigA"), Some(50000));
}

#[test]
fn reversed_ends_are_canonicalised() {
    let a = parse_mapping_line("r1\t10000\tx\tx\tx\ttigA\t50000\t8000\t100").ok().unwrap();
    assert_eq!(a.tig_beg, 100);
    assert_eq!(a.tig_end, 8000);
    let fwd = read2tig_pos(&lines(&["r1\t5000\tx\tx\tx\ttigA\t50000\t45000\t49000"])).ok().unwrap();
    let rev = read2tig_pos(&lines(&["r1\t5000\tx\tx\tx\ttigA\t50000\t49000\t45000"])).ok().unwrap();
    assert_eq!(fwd.best("r1").unwrap().distance, 1000);
    assert_eq!(rev.best("r1").unwrap().distance, 1000);
}

#[test]
fn short_alignment_is_not_indexed() {
    let idx = read2tig_pos(&lines(&[
        "r1\t10000\tx\tx\tx\ttigA\t50000\t100\t7100",
        "r2\t10000\tx\tx\tx\ttigB\t20000\t100\t7101",
    ]))
    .ok()
    .unwrap();
    assert!(idx.best("r1").is_none());
    assert_eq!(idx.best("r2").unwrap().aln_len, 7001);
    assert_eq!(idx.contig_len("tigA"), Some(50000));
    assert_eq!(idx.read_names().len(), 1);
}

#[test]
fn longest_alignment_wins_and_first_wins_ties() {
    let idx = read2tig_pos(&lines(&[
        "r1\t1000\tx\tx\tx\ttigA\t50000\t0\t800",
        "r1\t1000\tx\tx\tx\ttigB\t50000\t0\t800",
        "r1\t1000\tx\tx\tx\ttigC\t60000\t59000\t59900",
        "r1\t1000\tx\tx\tx\ttigD\t60000\t0\t850",
    ]))
    .ok()
    .unwrap();
    let b = idx.best("r1").unwrap();
    assert_eq!(b.tig_name, "tigC");
    assert_eq!(b.aln_len, 900);
    assert_eq!(b.distance, 100);
    assert_eq!(idx.read_names().len(), 1);
}

#[test]
fn first_contig_length_is_kept() {
    let idx = read2tig_pos(&lines(&[
        "r1\t1000\tx\tx\tx\ttigA\t5000\t0\t10",
        "r2\t1000\tx\tx\tx\ttigA\t9000\t0\t10",
    ]))
    .ok()
    .unwrap();
    assert_eq!(idx.contig_len("tigA"), Some(5000));
    assert_eq!(idx.contig_len("tigZ"), None);
}

#[test]
fn mapping_errors() {
    assert!(matches!(parse_mapping_line("r1\t10000\tx\tx\tx\ttigA\t50000\t100"), Err(ParseError::MissingField)));
    assert!(matches!(parse_mapping_line("r1\tlong\tx\tx\tx\ttigA\t50000\t100\t8000"), Err(ParseError::BadNumber)));
    assert!(matches!(parse_mapping_line("r1\t100\tx\tx\tx\ttigA\t-5\t100\t8000"), Err(ParseError::BadNumber)));
    assert!(matches!(parse_mapping_line("r1\t100\tx\tx\tx\ttigA\t5000\t100\t8000"), Err(ParseError::EndBeyondContig)));
    let r = read2tig_pos(&lines(&["r1\t10000\tx\tx\tx\ttigA\t50000\t100\t8000", "bad"]));
    assert!(matches!(r, Err(ParseError::MissingField)));
    let mut idx = MappingIndex::new();
    assert!(idx.add_line("r1\t10000\tx\tx\tx\ttigA\t50000\t100\tx").is_err());
    assert!(idx.read_names().is_empty());
    assert_eq!(idx.contig_len("tigA"), None);
}

#[test]
fn extra_columns_are_ignored() {
    let rec = parse_mapping_line("r1\t10000\tx\tx\tx\ttigA\t50000\t100\t8000\textra\tmore").ok().unwrap();
    assert_eq!(rec.tig_end, 8000);
}

#[test]
fn proximity_and_one_hop_expansion() {
    let idx = read2tig_pos(&lines(&[
        "r1\t10000\tx\tx\tx\ttigA\t50000\t100\t8000",
        "r2\t10000\tx\tx\tx\ttigA\t50000\t3000\t11000",
        "r3\t10000\tx\tx\tx\ttigA\t50000\t20000\t28000",
    ]))
    .ok()
    .unwrap();
    assert_eq!(idx.best("r2").unwrap().distance, 3000);
    let sel = select_read_by_dist(&idx, 2500);
    assert!(sel.contains("r1"));
    assert!(!sel.contains("r2"));
    assert!(!sel.contains("r3"));
    assert_eq!(sel.len(), 1);
    let all = select_read_by_dist(&idx, 3000);
    assert!(all.contains("r2"));
    let grown = select_read_by_read_ovl(sel, &lines(&["r2\tx\tx\tx\tx\tr1", "r3\tx\tx\tx\tx\tr2"])).ok().unwrap();
    assert!(grown.contains("r1"));
    assert!(grown.contains("r2"));
    assert!(!grown.contains("r3"));
    assert_eq!(grown.len(), 2);
}

#[test]
fn expansion_works_from_either_column() {
    let idx = read2tig_pos(&lines(&["r1\t10000\tx\tx\tx\ttigA\t50000\t100\t8000"])).ok().unwrap();
    let sel = select_read_by_dist(&idx, 2500);
    let mut exp = OverlapExpansion::new(sel);
    assert!(exp.add_line("r1\tx\tx\tx\tx\tr5").is_ok());
    assert!(exp.add_line("r6\tx\tx\tx\tx\tr1").is_ok());
    assert!(exp.add_line("r7\tx\tx\tx\tx\tr8").is_ok());
    assert!(matches!(exp.add_line("r1\tx"), Err(ParseError::MissingField)));
    let out = exp.finish();
    assert!(out.contains("r5"));
    assert!(out.contains("r6"));
    assert!(!out.contains("r7"));
    assert_eq!(out.len(), 3);
}

#[test]
fn overlap_errors() {
    let idx = read2tig_pos(&lines(&["r1\t10000\tx\tx\tx\ttigA\t50000\t100\t8000"])).ok().unwrap();
    let sel = select_read_by_dist(&idx, 2500);
    assert!(matches!(select_read_by_read_ovl(sel, &lines(&["r1\tx\tx\tx\tx\tr2", "r1"])), Err(ParseError::MissingField)));
    let (q, t) = parse_overlap_line("q\t1\t2\t3\t4\tt\t6").ok().unwrap();
    assert_eq!(q, "q");
    assert_eq!(t, "t");
}

#[test]
fn numbers_and_fields() {
    assert_eq!(parse_u64("0"), Some(0));
    assert_eq!(parse_u64("+12"), Some(12));
    assert_eq!(parse_u64("007"), Some(7));
    assert_eq!(parse_u64(""), None);
    assert_eq!(parse_u64("+"), None);
    assert_eq!(parse_u64("1a"), None);
    assert_eq!(parse_u64(" 1"), None);
    assert_eq!(parse_u64("18446744073709551615"), Some(u64::MAX));
    assert_eq!(parse_u64("18446744073709551616"), None);
    assert_eq!(split_fields("a\t\tb"), vec!["a".to_string(), String::new(), "b".to_string()]);
    assert_eq!(split_fields(""), vec![String::new()]);
}

#[test]
fn emission_keeps_rows_and_records_in_step() {
    let idx = read2tig_pos(&lines(&[
        "r1\t10000\tx\tx\tx\ttigA\t50000\t100\t8000",
        "r2\t10000\tx\tx\tx\ttigB\t40000\t3000\t11000",
    ]))
    .ok()
    .unwrap();
    let sel = select_read_by_dist(&idx, 2500);
    let sel = select_read_by_read_ovl(sel, &lines(&["r1\tx\tx\tx\tx\tr2", "r1\tx\tx\tx\tx\tr9"])).ok().unwrap();
    assert!(sel.contains("r9"));
    let reads = vec![
        ("r9".to_string(), "AAAA".to_string()),
        ("r2".to_string(), "CCCC".to_string()),
        ("r4".to_string(), "GGGG".to_string()),
        ("r1".to_string(), "TTTT".to_string()),
    ];
    let (rows, recs) = filter_reads(&idx, &sel, &reads);
    assert_eq!(rows, vec!["r2,tigB,40000\n".to_string(), "r1,tigA,50000\n".to_string()]);
    assert_eq!(recs, vec![">r2\nCCCC\n".to_string(), ">r1\nTTTT\n".to_string()]);
    assert!(emit_read(&idx, &sel, "r9", "AAAA").is_none());
    let (row, rec) = emit_read(&idx, &sel, "r1", "TTTT").unwrap();
    assert_eq!(row, "r1,tigA,50000\n");
    assert_eq!(rec, ">r1\nTTTT\n");
}

#[test]
fn record_text() {
    assert_eq!(contig_record("c1", Some("len=4"), "ACGT"), ">c1 len=4\nACGT\n");
    assert_eq!(contig_record("c1", None, "ACGT"), ">c1 \nACGT\n");
    assert_eq!(read_record("r1", "AC"), ">r1\nAC\n");
    assert_eq!(assignment_row("r", "t", 0), "r,t,0\n");
    assert_eq!(assignment_row("r", "t", 1234567890), "r,t,1234567890\n");
    assert_eq!(assignment_row("r", "t", u64::MAX), "r,t,18446744073709551615\n");
    assert_eq!(assignment_header(), "read,tig,tig_len\n");
    let contigs = vec![
        ("c2".to_string(), Some("d".to_string()), "GG".to_string()),
        ("c1".to_string(), None, "AT".to_string()),
    ];
    assert_eq!(pass_contigs(&contigs), vec![">c2 d\nGG\n".to_string(), ">c1 \nAT\n".to_string()]);
}

#[test]
fn compression_detection_and_choice() {
    assert_eq!(get_compression(&[0x1F, 0x8B, 0, 0, 0]), CompressionFormat::Gzip);
    assert_eq!(get_compression(&[0x42, 0x5A, 0x68, 0x39, 0x31]), CompressionFormat::Bzip);
    assert_eq!(get_compression(&[0xFD, 0x37, 0x7A, 0x58, 0x5A, 0x00]), CompressionFormat::Lzma);
    assert_eq!(get_compression(&[0xFD, 0x37, 0x7A, 0x58, 0x00]), CompressionFormat::No);
    assert_eq!(get_compression(b">r1\nA"), CompressionFormat::No);
    assert_eq!(choose_compression(CompressionFormat::Gzip, false, "lzma"), CompressionFormat::Gzip);
    assert_eq!(choose_compression(CompressionFormat::No, true, "gzip"), CompressionFormat::Gzip);
    assert_eq!(choose_compression(CompressionFormat::No, true, "bzip2"), CompressionFormat::Bzip);
    assert_eq!(choose_compression(CompressionFormat::No, true, "lzma"), CompressionFormat::Lzma);
    assert_eq!(choose_compression(CompressionFormat::Gzip, true, "zip"), CompressionFormat::No);
}
