use cgscan::count::{count_base, count_bigram};
use cgscan::score::{score_window, Score, ScoreKind};
use cgscan::window::{score_sequence, BdgRecord, Config, Sequence, WindowError, WindowIter};

fn sequence(id: &str, bases: &str) -> Sequence {
    Sequence { id: id.to_string(), seq: bases.as_bytes().to_vec() }
}

fn config(kind: ScoreKind, window_size: usize) -> Config {
    Config::new(kind, window_size).unwrap()
}

fn line(r: &BdgRecord) -> String {
    let score = r.score.hits as f64 / r.score.total as f64;
    format!("{}\t{}\t{}\t{}", r.seqname, r.start, r.end, score)
}

fn spans(rs: &[BdgRecord]) -> Vec<(u64, u64)> {
    rs.iter().map(|r| (r.start, r.end)).collect()
}

#[test]
fn count_base_counts_listed_bytes() {
    assert_eq!(count_base(b"ACGCGT", b"CG"), 4);
    assert_eq!(count_base(b"AATT", b"CG"), 0);
    assert_eq!(count_base(b"", b"CG"), 0);
    assert_eq!(count_base(b"acgCG", b"CG"), 2);
}

#[test]
fn count_bigram_counts_adjacent_pairs() {
    assert_eq!(count_bigram(b"ACGCGT", b"CG"), 2);
    assert_eq!(count_bigram(b"CGCG", b"CG"), 2);
    assert_eq!(count_bigram(b"GC", b"CG"), 0);
    assert_eq!(count_bigram(b"C", b"CG"), 0);
    assert_eq!(count_bigram(b"", b"CG"), 0);
    assert_eq!(count_bigram(b"CCC", b"CC"), 2);
}

#[test]
fn cg_content_score_is_fraction_of_c_and_g() {
    assert_eq!(score_window(ScoreKind::CgContent, b"ACGT"), Score { hits: 2, total: 4 });
    assert_eq!(score_window(ScoreKind::CgContent, b"GGCC"), Score { hits: 4, total: 4 });
    assert_eq!(score_window(ScoreKind::CgContent, b"ATAT"), Score { hits: 0, total: 4 });
}

#[test]
fn cpg_frequency_score_is_fraction_of_cg_pairs() {
    assert_eq!(score_window(ScoreKind::CpgFrequency, b"CGCG"), Score { hits: 2, total: 3 });
    assert_eq!(score_window(ScoreKind::CpgFrequency, b"GCGC"), Score { hits: 1, total: 3 });
    assert_eq!(score_window(ScoreKind::CpgFrequency, b"CG"), Score { hits: 1, total: 1 });
}

#[test]
fn too_short_windows_score_zero() {
    assert_eq!(score_window(ScoreKind::CpgFrequency, b"C"), Score { hits: 0, total: 1 });
    assert_eq!(score_window(ScoreKind::CpgFrequency, b""), Score { hits: 0, total: 1 });
    assert_eq!(score_window(ScoreKind::CgContent, b""), Score { hits: 0, total: 1 });
}

#[test]
fn scores_stay_in_unit_range() {
    for w in [&b"ACGT"[..], &b"CCGG"[..], &b"CGCGCG"[..], &b"T"[..], &b"GCGCGCGA"[..]] {
        for kind in [ScoreKind::CgContent, ScoreKind::CpgFrequency] {
            let s = score_window(kind, w);
            assert!(s.total > 0);
            assert!(s.hits <= s.total);
        }
    }
}

#[test]
fn cg_example_gives_two_thirds_per_window() {
    let rs = score_sequence(sequence("id", "ACGCGT"), config(ScoreKind::CgContent, 3));
    assert_eq!(rs.len(), 2);
    assert_eq!(rs[0].score, Score { hits: 2, total: 3 });
    assert_eq!(rs[1].score, Score { hits: 2, total: 3 });
    assert_eq!(line(&rs[0]), "id\t0\t3\t0.6666666666666666");
    assert_eq!(line(&rs[1]), "id\t3\t6\t0.6666666666666666");
}

#[test]
fn cpg_example_gives_one_half_per_window() {
    let rs = score_sequence(sequence("id", "ACGCGT"), config(ScoreKind::CpgFrequency, 3));
    assert_eq!(spans(&rs), vec![(0, 3), (3, 6)]);
    assert_eq!(rs[0].score, Score { hits: 1, total: 2 });
    assert_eq!(rs[1].score, Score { hits: 1, total: 2 });
    assert_eq!(line(&rs[0]), "id\t0\t3\t0.5");
    assert_eq!(line(&rs[1]), "id\t3\t6\t0.5");
}

#[test]
fn zero_window_size_is_refused() {
    assert_eq!(Config::new(ScoreKind::CgContent, 0), Err(WindowError::InvalidWindowSize));
    assert_eq!(Config::new(ScoreKind::CpgFrequency, 0), Err(WindowError::InvalidWindowSize));
    assert_eq!(
        Config::new(ScoreKind::CpgFrequency, 5),
        Ok(Config { kind: ScoreKind::CpgFrequency, window_size: 5 })
    );
}

#[test]
fn windows_tile_the_sequence() {
    let rs = score_sequence(sequence("s", "ACGTACGTAC"), config(ScoreKind::CgContent, 3));
    assert_eq!(spans(&rs), vec![(0, 3), (3, 6), (6, 9), (9, 10)]);
    let rs = score_sequence(sequence("s", "ACGTACGTA"), config(ScoreKind::CgContent, 3));
    assert_eq!(spans(&rs), vec![(0, 3), (3, 6), (6, 9)]);
    let rs = score_sequence(sequence("s", "ACG"), config(ScoreKind::CgContent, 10));
    assert_eq!(spans(&rs), vec![(0, 3)]);
    let rs = score_sequence(sequence("s", ""), config(ScoreKind::CgContent, 4));
    assert!(rs.is_empty());
}

#[test]
fn short_last_window_is_scored_on_its_own_length() {
    let rs = score_sequence(sequence("s", "ACGTC"), config(ScoreKind::CgContent, 4));
    assert_eq!(spans(&rs), vec![(0, 4), (4, 5)]);
    assert_eq!(rs[1].score, Score { hits: 1, total: 1 });
    let rs = score_sequence(sequence("s", "CGCGC"), config(ScoreKind::CpgFrequency, 2));
    assert_eq!(spans(&rs), vec![(0, 2), (2, 4), (4, 5)]);
    assert_eq!(rs[0].score, Score { hits: 1, total: 1 });
    assert_eq!(rs[2].score, Score { hits: 0, total: 1 });
}

#[test]
fn sequence_of_one_window_length_gives_one_window() {
    let rs = score_sequence(sequence("chr1", "ACGTA"), config(ScoreKind::CgContent, 5));
    assert_eq!(spans(&rs), vec![(0, 5)]);
    assert_eq!(rs[0].score, Score { hits: 2, total: 5 });
}

#[test]
fn records_carry_their_sequence_name() {
    let cfg = config(ScoreKind::CgContent, 2);
    let a = score_sequence(sequence("first", "ACGT"), cfg);
    let b = score_sequence(sequence("second", "GGCCA"), cfg);
    assert_eq!(a.len(), 2);
    assert_eq!(b.len(), 3);
    assert!(a.iter().all(|r| r.seqname == "first"));
    assert!(b.iter().all(|r| r.seqname == "second"));
}

#[test]
fn scoring_twice_gives_identical_lines() {
    let cfg = config(ScoreKind::CpgFrequency, 4);
    let a = score_sequence(sequence("x", "ACGCGTTCGAC"), cfg);
    let b = score_sequence(sequence("x", "ACGCGTTCGAC"), cfg);
    let la: Vec<String> = a.iter().map(line).collect();
    let lb: Vec<String> = b.iter().map(line).collect();
    assert_eq!(la, lb);
}

#[test]
fn iterator_stops_at_sequence_end() {
    let mut it = WindowIter::new(sequence("s", "ACGTA"), config(ScoreKind::CgContent, 3));
    let first = it.next().unwrap();
    assert_eq!((first.start, first.end), (0, 3));
    let second = it.next().unwrap();
    assert_eq!((second.start, second.end), (3, 5));
    assert_eq!(second.score, Score { hits: 0, total: 2 });
    assert!(it.next().is_none());
    assert!(it.next().is_none());
}

#[test]
fn record_new_keeps_fields() {
    let r = BdgRecord::new("n".to_string(), 4, 9, Score { hits: 1, total: 5 });
    assert_eq!(r.seqname, "n");
    assert_eq!((r.start, r.end), (4, 9));
    assert_eq!(r.score, Score { hits: 1, total: 5 });
}
