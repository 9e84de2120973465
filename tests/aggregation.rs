use lichess_trends::aggregator::{aggregate_lines, process_batch, process_game_into_map, GameBatcher, GameSplitter};
use lichess_trends::config::Config;
use lichess_trends::model::{can_merge, merge_maps, AggMap, Counter, Key};

fn lines(v: &[&str]) -> Vec<String> {
    v.iter().map(|s| s.to_string()).collect()
}

fn cfg(bucket: u16, batch: usize) -> Config {
    let mut c = Config::default();
    c.bucket_size = bucket;
    c.batch_size = batch;
    c
}

fn key(month: &str, eco: &str, w: u16, b: u16) -> Key {
    Key { month: month.to_string(), eco_group: eco.to_string(), w_bucket: w, b_bucket: b }
}

fn two_games() -> Vec<String> {
    lines(&[
        "[Event \"x\"]",
        "[Date \"2024.03.15\"]",
        "[WhiteElo \"2250\"]",
        "[BlackElo \"2105\"]",
        "[Result \"1-0\"]",
        "[ECO \"B22\"]",
        "",
        "1. e4 c5 2. c3 1-0",
        "[Event \"x\"]",
        "[Date \"2024.03.15\"]",
        "[WhiteElo \"2250\"]",
        "[BlackElo \"2105\"]",
        "[Result \"0-1\"]",
        "[ECO \"B22\"]",
        "",
        "1. e4 c5 2. c3 0-1",
    ])
}

fn sorted_entries(m: &AggMap) -> Vec<(String, String, u16, u16, u64, u64, u64, u64)> {
    let mut v: Vec<_> = m
        .entries()
        .into_iter()
        .map(|(k, c)| (k.month, k.eco_group, k.w_bucket, k.b_bucket, c.games, c.white_wins, c.black_wins, c.draws))
        .collect();
    v.sort();
    v
}

#[test]
fn two_games_one_key() {
    let (map, total) = aggregate_lines(&two_games(), &cfg(100, 1000));
    assert_eq!(total, 2);
    assert_eq!(map.len(), 1);
    let c = map.get(&key("2024-03", "B20-B99", 2200, 2100)).unwrap();
    assert_eq!(c, Counter { games: 2, white_wins: 1, black_wins: 1, draws: 0 });
}

#[test]
fn missing_or_malformed_date_is_unknown() {
    let ls = lines(&[
        "[Event \"a\"]",
        "[Result \"1/2-1/2\"]",
        "[Event \"b\"]",
        "[Date \"2024-03-15\"]",
        "[Result \"1-0\"]",
    ]);
    let (map, total) = aggregate_lines(&ls, &cfg(200, 1000));
    assert_eq!(total, 2);
    let c = map.get(&key("unknown", "U00", 0, 0)).unwrap();
    assert_eq!(c, Counter { games: 2, white_wins: 1, black_wins: 0, draws: 1 });
}

#[test]
fn batch_size_does_not_change_result() {
    let mut ls = two_games();
    ls.extend(lines(&[
        "[Event \"y\"]",
        "[UTCDate \"2023.12.31\"]",
        "[WhiteElo \"1500\"]",
        "[Result \"*\"]",
        "[ECO \"C65\"]",
        "[Event \"z\"]",
        "[Date \"2024.01.02\"]",
        "[BlackElo \"1999\"]",
        "[Result \"1/2-1/2\"]",
        "[ECO \"e97\"]",
    ]));
    let (one, n1) = aggregate_lines(&ls, &cfg(200, 1000));
    let (two, n2) = aggregate_lines(&ls, &cfg(200, 2));
    let (each, n3) = aggregate_lines(&ls, &cfg(200, 1));
    let (zero, n4) = aggregate_lines(&ls, &cfg(200, 0));
    assert_eq!((n1, n2, n3, n4), (4, 4, 4, 4));
    assert_eq!(sorted_entries(&one), sorted_entries(&two));
    assert_eq!(sorted_entries(&one), sorted_entries(&each));
    assert_eq!(sorted_entries(&one), sorted_entries(&zero));
    assert_eq!(one.len(), 3);
    assert_eq!(
        one.get(&key("2023-12", "C60-C99", 1400, 0)).unwrap(),
        Counter { games: 1, white_wins: 0, black_wins: 0, draws: 0 }
    );
    assert_eq!(
        one.get(&key("2024-01", "E60-E99", 0, 1800)).unwrap(),
        Counter { games: 1, white_wins: 0, black_wins: 0, draws: 1 }
    );
}

#[test]
fn merge_is_order_independent() {
    let c = cfg(100, 1000);
    let g1 = lines(&["[Event \"a\"]", "[Date \"2024.03.01\"]", "[Result \"1-0\"]"]);
    let g2 = lines(&["[Event \"b\"]", "[Date \"2024.03.02\"]", "[Result \"0-1\"]"]);
    let g3 = lines(&["[Event \"c\"]", "[Date \"2024.04.02\"]", "[Result \"1/2-1/2\"]"]);
    let whole = process_batch(&[g1.clone(), g2.clone(), g3.clone()], &c);
    let mut left = process_batch(&[g3.clone()], &c);
    let right = process_batch(&[g2.clone(), g1.clone()], &c);
    merge_maps(&mut left, right);
    assert_eq!(sorted_entries(&whole), sorted_entries(&left));
    let mut empty = AggMap::new();
    merge_maps(&mut empty, process_batch(&[g1, g2, g3], &c));
    assert_eq!(sorted_entries(&whole), sorted_entries(&empty));
    assert_eq!(
        whole.get(&key("2024-03", "U00", 0, 0)).unwrap(),
        Counter { games: 2, white_wins: 1, black_wins: 1, draws: 0 }
    );
}

#[test]
fn counts_partition_with_unclassified_results() {
    let ls = lines(&[
        "[Event \"a\"]",
        "[Result \"1-0\"]",
        "[Event \"b\"]",
        "[Result \"0-1\"]",
        "[Event \"c\"]",
        "[Result \"1/2-1/2\"]",
        "[Event \"d\"]",
        "[Result \"*\"]",
        "[Event \"e\"]",
        "[Result \"0-0\"]",
        "[Event \"f\"]",
    ]);
    let (map, total) = aggregate_lines(&ls, &cfg(200, 3));
    assert_eq!(total, 6);
    let c = map.get(&key("unknown", "U00", 0, 0)).unwrap();
    assert_eq!(c.games, 6);
    assert_eq!(c.white_wins + c.black_wins + c.draws, 3);
}

#[test]
fn process_game_skips_empty_record() {
    let mut map = AggMap::new();
    process_game_into_map(&[], &mut map, &cfg(200, 10));
    assert_eq!(map.len(), 0);
    process_game_into_map(&lines(&["[Event \"a\"]", "[WhiteElo \"2399\"]"]), &mut map, &cfg(200, 10));
    assert_eq!(map.get(&key("unknown", "U00", 2200, 0)).unwrap().games, 1);
}

#[test]
fn splitter_keeps_every_line() {
    let mut s = GameSplitter::new();
    assert!(s.push_line("preamble".to_string()).is_none());
    let pre = s.push_line("[Event \"a\"]".to_string()).unwrap();
    assert_eq!(pre, vec!["preamble".to_string()]);
    assert!(s.push_line("".to_string()).is_none());
    let first = s.push_line("[Event \"b\"]".to_string()).unwrap();
    assert_eq!(first, vec!["[Event \"a\"]".to_string(), "".to_string()]);
    assert!(s.push_line("1. e4".to_string()).is_none());
    let last = s.finish().unwrap();
    assert_eq!(last, vec!["[Event \"b\"]".to_string(), "1. e4".to_string()]);
}

#[test]
fn first_marker_closes_nothing() {
    let mut s = GameSplitter::new();
    assert!(s.push_line("[Event \"a\"]".to_string()).is_none());
    assert!(s.push_line("1. d4".to_string()).is_none());
    assert_eq!(s.finish().unwrap(), vec!["[Event \"a\"]".to_string(), "1. d4".to_string()]);
}

#[test]
fn splitter_on_empty_input() {
    let s = GameSplitter::new();
    assert!(s.finish().is_none());
    let (map, total) = aggregate_lines(&[], &cfg(200, 5));
    assert_eq!(total, 0);
    assert_eq!(map.len(), 0);
}

#[test]
fn batcher_hands_out_full_batches() {
    let mut b = GameBatcher::new(2);
    let mut batches = Vec::new();
    for l in ["[Event \"a\"]", "[Event \"b\"]", "[Event \"c\"]", "[Event \"d\"]", "x"] {
        if let Some(batch) = b.push_line(l.to_string()) {
            batches.push(batch);
        }
    }
    assert_eq!(batches.len(), 1);
    assert_eq!(batches[0].len(), 2);
    let rest = b.finish();
    assert_eq!(rest.len(), 2);
    assert_eq!(rest[1], vec!["[Event \"d\"]".to_string(), "x".to_string()]);
}

#[test]
fn counter_add_result_and_merge() {
    let mut c = Counter::new();
    c.add_result("1-0");
    c.add_result("0-1");
    c.add_result("1/2-1/2");
    c.add_result("*");
    c.add_result("1-0 ");
    assert_eq!(c, Counter { games: 5, white_wins: 1, black_wins: 1, draws: 1 });
    let mut d = Counter { games: 2, white_wins: 1, black_wins: 0, draws: 1 };
    d.merge(&c);
    assert_eq!(d, Counter { games: 7, white_wins: 2, black_wins: 1, draws: 2 });
}

#[test]
fn agg_map_add_counter_sums() {
    let mut m = AggMap::new();
    m.add_counter(key("2024-01", "A00", 0, 0), Counter { games: 3, white_wins: 1, black_wins: 1, draws: 1 });
    m.add_counter(key("2024-01", "A00", 0, 0), Counter { games: 2, white_wins: 2, black_wins: 0, draws: 0 });
    m.add_game(key("2024-02", "A00", 0, 0), "0-1");
    assert_eq!(m.len(), 2);
    assert_eq!(m.get(&key("2024-01", "A00", 0, 0)).unwrap(), Counter { games: 5, white_wins: 3, black_wins: 1, draws: 1 });
    assert_eq!(m.get(&key("2024-02", "A00", 0, 0)).unwrap(), Counter { games: 1, white_wins: 0, black_wins: 1, draws: 0 });
    assert!(m.get(&key("2024-03", "A00", 0, 0)).is_none());
}

#[test]
fn config_defaults() {
    let c = Config::default();
    assert_eq!(c.bucket_size, 200);
    assert_eq!(c.batch_size, 1000);
    assert!(c.rayon_threads.is_none());
    assert_eq!(c.list_url, "https://database.lichess.org/standard/list.txt");
}

#[test]
fn rows_come_in_key_order() {
    let mut m = AggMap::new();
    let one = Counter { games: 1, white_wins: 0, black_wins: 0, draws: 0 };
    m.add_counter(key("2024-02", "B20-B99", 0, 0), one);
    m.add_counter(key("2024-01", "C20", 1400, 0), one);
    m.add_counter(key("2024-01", "B20-B99", 2000, 200), one);
    m.add_counter(key("2024-01", "B20-B99", 2000, 0), one);
    m.add_counter(key("2024-01", "B20-B99", 400, 0), one);
    m.add_counter(key("unknown", "A00", 0, 0), one);
    let order: Vec<(String, String, u16, u16)> = m
        .rows_by_key()
        .into_iter()
        .map(|(k, _)| (k.month, k.eco_group, k.w_bucket, k.b_bucket))
        .collect();
    assert_eq!(
        order,
        vec![
            ("2024-01".to_string(), "B20-B99".to_string(), 400, 0),
            ("2024-01".to_string(), "B20-B99".to_string(), 2000, 0),
            ("2024-01".to_string(), "B20-B99".to_string(), 2000, 200),
            ("2024-01".to_string(), "C20".to_string(), 1400, 0),
            ("2024-02".to_string(), "B20-B99".to_string(), 0, 0),
            ("unknown".to_string(), "A00".to_string(), 0, 0),
        ]
    );
}

#[test]
fn overflow_checks() {
    let mut full = AggMap::new();
    full.add_counter(key("2024-01", "A00", 0, 0), Counter { games: u64::MAX, white_wins: 0, black_wins: 0, draws: 0 });
    assert!(!full.has_room_for_game());
    let mut one = AggMap::new();
    one.add_game(key("2024-01", "A00", 0, 0), "1-0");
    assert!(one.has_room_for_game());
    assert!(!can_merge(&full, &one));
    let mut other = AggMap::new();
    other.add_game(key("2024-02", "A00", 0, 0), "1-0");
    assert!(can_merge(&full, &other));
    assert!(can_merge(&one, &one));
}

#[test]
fn batcher_returns_batch_when_full() {
    let mut b = GameBatcher::new(0);
    assert!(b.push_line("[Event \"a\"]".to_string()).is_none());
    assert!(b.push_line("1. e4".to_string()).is_none());
    let batch = b.push_line("[Event \"b\"]".to_string()).unwrap();
    assert_eq!(batch.len(), 1);
    assert_eq!(batch[0], vec!["[Event \"a\"]".to_string(), "1. e4".to_string()]);
    assert_eq!(b.finish().len(), 1);
}
