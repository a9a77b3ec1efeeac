use cidr_sampler::batch::generate_for_cidrs;
use cidr_sampler::cidr::parse_cidr;
use cidr_sampler::errors::ParseError;
use cidr_sampler::lines::dedup_lines;
use cidr_sampler::sampler::sample;

#[test]
fn sample_full_slash_30_block() {
    let (start, end) = parse_cidr("192.168.1.0/30").unwrap();
    assert_eq!((start, end), (0xC0A8_0100, 0xC0A8_0103));
    let mut picks = sample(start, end, 4).unwrap();
    picks.sort();
    assert_eq!(picks, vec![0xC0A8_0100, 0xC0A8_0101, 0xC0A8_0102, 0xC0A8_0103]);
}

#[test]
fn sample_more_than_block_fails() {
    let (start, end) = parse_cidr("192.168.1.0/30").unwrap();
    assert_eq!(sample(start, end, 5), Err(ParseError::InsufficientRange));
}

#[test]
fn sample_one_from_slash_24() {
    let (start, end) = parse_cidr("10.0.0.0/24").unwrap();
    for _ in 0..20 {
        let picks = sample(start, end, 1).unwrap();
        assert_eq!(picks.len(), 1);
        assert!(start <= picks[0] && picks[0] <= end);
    }
}

#[test]
fn sample_returns_distinct_addresses_in_range() {
    let (start, end) = parse_cidr("10.1.2.0/24").unwrap();
    let picks = sample(start, end, 200).unwrap();
    assert_eq!(picks.len(), 200);
    let mut sorted = picks.clone();
    sorted.sort();
    sorted.dedup();
    assert_eq!(sorted.len(), 200);
    for a in picks {
        assert!(start <= a && a <= end);
    }
}

#[test]
fn successive_samples_differ() {
    let (start, end) = parse_cidr("10.0.0.0/8").unwrap();
    let first = sample(start, end, 8).unwrap();
    let second = sample(start, end, 8).unwrap();
    let mut a = first.clone();
    let mut b = second.clone();
    a.sort();
    b.sort();
    assert_ne!(a, b);
}

#[test]
fn dedup_collapses_repeated_lines() {
    let lines = vec![
        String::from("10.0.0.0/24"),
        String::from("10.0.0.0/24"),
        String::from("10.0.0.0/24"),
    ];
    let kept = dedup_lines(&lines);
    assert_eq!(kept, vec![String::from("10.0.0.0/24")]);
}

#[test]
fn dedup_trims_and_drops_blanks() {
    let lines = vec![
        String::from("  10.0.0.0/24  "),
        String::from(""),
        String::from("   "),
        String::from("10.0.0.0/24"),
        String::from("192.168.0.0/16"),
    ];
    let kept = dedup_lines(&lines);
    assert_eq!(
        kept,
        vec![String::from("10.0.0.0/24"), String::from("192.168.0.0/16")]
    );
}

#[test]
fn generate_skips_bad_cidrs_and_keeps_the_rest() {
    let cidrs = vec![
        String::from("10.0.0.0/30"),
        String::from("not-a-cidr"),
        String::from("10.0.0.0/33"),
        String::from("192.168.1.0/31"),
    ];
    let lines = generate_for_cidrs(&cidrs, 2);
    assert_eq!(lines.len(), 4);
    for line in lines {
        let (start, end) = parse_cidr(&format!("{}/32", line)).unwrap();
        assert_eq!(start, end);
        let in_first = 0x0A00_0000 <= start && start <= 0x0A00_0003;
        let in_last = 0xC0A8_0100 <= start && start <= 0xC0A8_0101;
        assert!(in_first || in_last);
    }
}

#[test]
fn generate_skips_blocks_that_are_too_small() {
    let cidrs = vec![String::from("10.0.0.0/32"), String::from("10.0.1.0/24")];
    let lines = generate_for_cidrs(&cidrs, 2);
    assert_eq!(lines.len(), 2);
}

#[test]
fn generate_from_no_cidrs_is_empty() {
    let cidrs: Vec<String> = Vec::new();
    let lines = generate_for_cidrs(&cidrs, 3);
    assert!(lines.is_empty());
}

#[test]
fn generated_lines_parse_back_as_addresses() {
    let cidrs = vec![String::from("172.16.0.0/20")];
    let lines = generate_for_cidrs(&cidrs, 50);
    assert_eq!(lines.len(), 50);
    for line in lines {
        let parts: Vec<&str> = line.split('.').collect();
        assert_eq!(parts.len(), 4);
        for part in parts {
            let v: u32 = part.parse().unwrap();
            assert!(v <= 255);
        }
    }
}
