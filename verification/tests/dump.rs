use prime_buckets::{dump_bucket, prime_buckets, prime_buckets_par, push_decimal, render_bucket, sort_bucket};

fn text_of(bucket: &Vec<u64>) -> String {
    String::from_utf8(render_bucket(bucket)).unwrap()
}

fn read_back(text: &str) -> Vec<u64> {
    if text.is_empty() {
        Vec::new()
    } else {
        text.split(", ").map(|piece| piece.parse::<u64>().unwrap()).collect()
    }
}

#[test]
fn sort_bucket_orders_ascending() {
    let mut bucket = vec![31, 1, 71, 11, 61, 41];
    sort_bucket(&mut bucket);
    assert_eq!(bucket, vec![1, 11, 31, 41, 61, 71]);
}

#[test]
fn sort_bucket_keeps_repeats() {
    let mut bucket = vec![7, 3, 7, 1, 3, 7];
    sort_bucket(&mut bucket);
    assert_eq!(bucket, vec![1, 3, 3, 7, 7, 7]);
}

#[test]
fn sort_bucket_of_nothing_and_of_one() {
    let mut bucket: Vec<u64> = Vec::new();
    sort_bucket(&mut bucket);
    assert!(bucket.is_empty());
    let mut bucket = vec![u64::MAX];
    sort_bucket(&mut bucket);
    assert_eq!(bucket, vec![u64::MAX]);
}

#[test]
fn push_decimal_appends_the_digits() {
    let mut out = b"n=".to_vec();
    push_decimal(0, &mut out);
    assert_eq!(out, b"n=0".to_vec());
    push_decimal(654676, &mut out);
    assert_eq!(out, b"n=0654676".to_vec());
    let mut out = Vec::new();
    push_decimal(u64::MAX, &mut out);
    assert_eq!(out, b"18446744073709551615".to_vec());
    let mut out = Vec::new();
    push_decimal(10, &mut out);
    assert_eq!(out, b"10".to_vec());
    let mut out = Vec::new();
    push_decimal(9, &mut out);
    assert_eq!(out, b"9".to_vec());
}

#[test]
fn push_decimal_agrees_with_std() {
    for n in (0..100_000u64).step_by(37) {
        let mut out = Vec::new();
        push_decimal(n, &mut out);
        assert_eq!(String::from_utf8(out).unwrap(), n.to_string());
    }
}

#[test]
fn render_bucket_exact_text() {
    assert_eq!(text_of(&Vec::new()), "");
    assert_eq!(text_of(&vec![7]), "7");
    assert_eq!(text_of(&vec![1, 11, 31]), "1, 11, 31");
    assert_eq!(text_of(&vec![31, 1]), "31, 1");
    assert_eq!(text_of(&vec![0, u64::MAX]), "0, 18446744073709551615");
}

#[test]
fn render_bucket_has_no_trailing_delimiter_or_newline() {
    let (bucket1, _, _, _) = prime_buckets(200);
    let text = text_of(&bucket1);
    assert!(!text.ends_with(", "));
    assert!(!text.ends_with(' '));
    assert!(!text.ends_with('\n'));
    assert!(text.ends_with("191"));
    assert!(text.starts_with("1, 11, "));
}

#[test]
fn dump_bucket_sorts_then_renders() {
    let mut bucket = vec![71, 11, 1, 61, 41, 31];
    let text = dump_bucket(&mut bucket);
    assert_eq!(String::from_utf8(text).unwrap(), "1, 11, 31, 41, 61, 71");
    assert_eq!(bucket, vec![1, 11, 31, 41, 61, 71]);
}

#[test]
fn dump_bucket_of_nothing() {
    let mut bucket: Vec<u64> = Vec::new();
    assert!(dump_bucket(&mut bucket).is_empty());
    assert!(bucket.is_empty());
}

#[test]
fn dump_round_trip_sequential() {
    let (bucket1, bucket3, bucket7, bucket9) = prime_buckets(5000);
    for mut bucket in [bucket1, bucket3, bucket7, bucket9] {
        let text = String::from_utf8(dump_bucket(&mut bucket)).unwrap();
        assert_eq!(read_back(&text), bucket);
    }
}

#[test]
fn dump_round_trip_parallel() {
    let (bucket1, bucket3, bucket7, bucket9) = prime_buckets_par(5000);
    let (s1, s3, s7, s9) = prime_buckets(5000);
    for (mut bucket, sequential) in [(bucket1, s1), (bucket3, s3), (bucket7, s7), (bucket9, s9)] {
        let text = String::from_utf8(dump_bucket(&mut bucket)).unwrap();
        assert_eq!(read_back(&text), bucket);
        assert_eq!(bucket, sequential);
    }
}

#[test]
fn dump_round_trip_of_empty_and_single() {
    let mut empty: Vec<u64> = Vec::new();
    let text = String::from_utf8(dump_bucket(&mut empty)).unwrap();
    assert_eq!(text, "");
    assert_eq!(read_back(&text), empty);
    let mut single = vec![9];
    let text = String::from_utf8(dump_bucket(&mut single)).unwrap();
    assert_eq!(text, "9");
    assert_eq!(read_back(&text), single);
}
