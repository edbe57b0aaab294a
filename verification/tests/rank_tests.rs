use forgers::rank::{load_rank, parse_id, RankFileError, RankStore, TokenFate};

fn tokens(items: &[&str]) -> Vec<Vec<u8>> {
    items.iter().map(|s| s.as_bytes().to_vec()).collect()
}

#[test]
fn parses_simple_entry() {
    let (region, pos) = parse_id("chr1,100").unwrap();
    assert_eq!(region, b"chr1".to_vec());
    assert_eq!(pos, 100);
}

#[test]
fn accepts_plus_prefixed_position() {
    let (_, pos) = parse_id("chr1,+5").unwrap();
    assert_eq!(pos, 5);
}

#[test]
fn rejects_wrong_field_count() {
    assert!(parse_id("chr1").is_none());
    assert!(parse_id("chr1,1,2").is_none());
    assert!(parse_id("").is_none());
}

#[test]
fn rejects_bad_position() {
    assert!(parse_id("chr1,abc").is_none());
    assert!(parse_id("chr1,-5").is_none());
    assert!(parse_id("chr1,").is_none());
    assert!(parse_id("chr1,99999999999999999999999").is_none());
}

#[test]
fn rejects_non_ascii_region() {
    assert!(parse_id("chr\u{2603},100").is_none());
}

#[test]
fn accepts_empty_region() {
    let (region, pos) = parse_id(",7").unwrap();
    assert_eq!(region, Vec::<u8>::new());
    assert_eq!(pos, 7);
}

#[test]
fn ranks_follow_file_order_and_duplicates_keep_first() {
    // Three tokens, one a repeat: the repeat is skipped and the next new
    // site gets the next sequential rank.
    let toks = tokens(&["chr1,100", "chr1,100", "chr1,200"]);
    let store = load_rank(&toks, 3).unwrap().0;
    assert_eq!(store.lookup(b"chr1", 100), Some(1));
    assert_eq!(store.lookup(b"chr1", 200), Some(2));
    assert_eq!(store.lookup(b"chr1", 300), None);
    assert_eq!(store.lookup(b"chr2", 100), None);
}

#[test]
fn malformed_tokens_are_skipped() {
    let toks = tokens(&["bad token", "chr1,100", "also,bad,token", "chr2,50"]);
    let store = load_rank(&toks, 4).unwrap().0;
    assert_eq!(store.lookup(b"chr1", 100), Some(1));
    assert_eq!(store.lookup(b"chr2", 50), Some(2));
}

#[test]
fn zero_target_loads_nothing() {
    let toks = tokens(&["chr1,100", "chr1,200"]);
    let store = load_rank(&toks, 0).unwrap().0;
    assert_eq!(store.lookup(b"chr1", 100), None);
    assert_eq!(store.lookup(b"chr1", 200), None);
}

#[test]
fn loading_stops_at_target() {
    let toks = tokens(&["chr1,100", "chr1,200", "chr1,300"]);
    let store = load_rank(&toks, 1).unwrap().0;
    assert_eq!(store.lookup(b"chr1", 100), Some(1));
    assert_eq!(store.lookup(b"chr1", 200), None);
    assert_eq!(store.lookup(b"chr1", 300), None);
}

#[test]
fn sole_malformed_token_is_fatal() {
    let toks = tokens(&["not an entry"]);
    assert!(matches!(load_rank(&toks, 1), Err(RankFileError::SoleTokenMalformed)));
}

#[test]
fn sole_valid_token_is_fine() {
    let toks = tokens(&["chrX,9"]);
    let store = load_rank(&toks, 1).unwrap().0;
    assert_eq!(store.lookup(b"chrX", 9), Some(1));
}

#[test]
fn malformed_token_among_others_is_not_fatal() {
    let toks = tokens(&["junk", "chr1,1"]);
    assert!(load_rank(&toks, 2).is_ok());
}

#[test]
fn token_fates_report_what_was_skipped() {
    let toks = tokens(&["chr1,100", "junk", "chr1,100", "chr1,200", "chr1,300"]);
    let (store, fates) = load_rank(&toks, 2).unwrap();
    assert_eq!(
        fates,
        vec![
            TokenFate::Inserted,
            TokenFate::Malformed,
            TokenFate::Duplicate,
            TokenFate::Inserted,
            TokenFate::Unread,
        ]
    );
    assert_eq!(store.lookup(b"chr1", 200), Some(2));
    assert_eq!(store.lookup(b"chr1", 300), None);
}

#[test]
fn empty_store_has_no_ranks() {
    let store = RankStore::new();
    assert_eq!(store.lookup(b"chr1", 1), None);
}

#[test]
fn regions_are_kept_apart() {
    let toks = tokens(&["chr1,100", "chr2,100", "chr1,200"]);
    let store = load_rank(&toks, 3).unwrap().0;
    assert_eq!(store.lookup(b"chr1", 100), Some(1));
    assert_eq!(store.lookup(b"chr2", 100), Some(2));
    assert_eq!(store.lookup(b"chr1", 200), Some(3));
    assert_eq!(store.lookup(b"chr2", 200), None);
}
