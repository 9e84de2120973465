use lichess_trends::db::{detect_backend_from_url, Backend};
use lichess_trends::remote::{month_less, norm_month, parse_list_to_oldest, select_plan, sort_by_month, PlanItem};
use lichess_trends::verbose::{enabled, RunContext};

const INDEX: &str = "https://database.lichess.org/standard/lichess_db_standard_rated_2023-03.pgn.zst\n\
https://database.lichess.org/standard/lichess_db_standard_rated_2023-02.pgn.zst\r\n\
\n\
  https://database.lichess.org/standard/lichess_db_standard_rated_2023-01.pgn.zst  \n\
https://database.lichess.org/standard/readme.txt\n";

fn months(items: &[PlanItem]) -> Vec<String> {
    items.iter().map(|i| i.month.clone()).collect()
}

#[test]
fn index_is_read_oldest_first() {
    let items = parse_list_to_oldest(INDEX);
    assert_eq!(months(&items), vec!["2023-01", "2023-02", "2023-03"]);
    assert_eq!(
        items[0].url,
        "https://database.lichess.org/standard/lichess_db_standard_rated_2023-01.pgn.zst"
    );
    assert_eq!(
        items[1].url,
        "https://database.lichess.org/standard/lichess_db_standard_rated_2023-02.pgn.zst"
    );
}

#[test]
fn same_month_archives_keep_index_order() {
    let text = "https://x/b_2023-02.pgn.zst\nhttps://x/a_2023-01.pgn.zst\nhttps://x/c_2023-02.pgn.zst\nhttps://x/d_2023-1.pgn.zst\n";
    let items = parse_list_to_oldest(text);
    let urls: Vec<String> = items.iter().map(|i| i.url.clone()).collect();
    assert_eq!(urls, vec!["https://x/a_2023-01.pgn.zst", "https://x/b_2023-02.pgn.zst", "https://x/c_2023-02.pgn.zst"]);
}

#[test]
fn planner_skips_done_and_early_months() {
    let items = parse_list_to_oldest(INDEX);
    let done = vec!["2023-02".to_string()];
    let plan = select_plan(items, Some("2023-02"), None, &done);
    assert_eq!(months(&plan), vec!["2023-03"]);
}

#[test]
fn planner_bounds() {
    let plan = select_plan(parse_list_to_oldest(INDEX), Some("2023/1"), Some("2023.02"), &[]);
    assert_eq!(months(&plan), vec!["2023-01", "2023-02"]);
    let plan = select_plan(parse_list_to_oldest(INDEX), None, Some("2022-12"), &[]);
    assert!(plan.is_empty());
    let plan = select_plan(parse_list_to_oldest(INDEX), Some("not a month"), None, &[]);
    assert_eq!(plan.len(), 3);
}

#[test]
fn month_normalization() {
    assert_eq!(norm_month("2024-3").unwrap(), "2024-03");
    assert_eq!(norm_month("2024.03").unwrap(), "2024-03");
    assert_eq!(norm_month("2024/03").unwrap(), "2024-03");
    assert_eq!(norm_month(" 2024-12-01 ").unwrap(), "2024-12");
    assert_eq!(norm_month("2024-0003").unwrap(), "2024-03");
    assert!(norm_month("2024").is_none());
    assert!(norm_month("2024-13").is_none());
    assert!(norm_month("2024-0").is_none());
    assert!(norm_month("2024-").is_none());
    assert!(norm_month("24-03").is_none());
    assert!(norm_month("2024-3a").is_none());
    assert!(norm_month("abcd-03").is_none());
    assert!(norm_month("2024-99999999999999").is_none());
}

#[test]
fn sort_keeps_order_of_equal_months() {
    let item = |m: &str, u: &str| PlanItem { month: m.to_string(), url: u.to_string() };
    let sorted = sort_by_month(vec![item("2024-02", "a"), item("2023-12", "b"), item("2024-02", "c"), item("2022-01", "d")]);
    let urls: Vec<String> = sorted.iter().map(|i| i.url.clone()).collect();
    assert_eq!(urls, vec!["d", "b", "a", "c"]);
}

#[test]
fn month_order() {
    assert!(month_less("2023-01", "2023-02"));
    assert!(!month_less("2023-02", "2023-02"));
    assert!(month_less("2023-02", "2023-02x"));
    assert!(!month_less("2024-01", "2023-12"));
}

#[test]
fn backend_from_scheme() {
    assert_eq!(detect_backend_from_url("postgres://u@h/db").unwrap(), Backend::Postgres);
    assert_eq!(detect_backend_from_url("PostgreSQL://u@h/db").unwrap(), Backend::Postgres);
    assert_eq!(detect_backend_from_url("sqlite:agg.db").unwrap(), Backend::Sqlite);
    let err = detect_backend_from_url("mysql://h/db").unwrap_err();
    assert_eq!(err.url, "mysql://h/db");
    assert!(detect_backend_from_url("").is_err());
}

#[test]
fn verbosity_is_part_of_the_run() {
    let mut ctx = RunContext { verbose: false };
    assert!(!enabled(&ctx));
    lichess_trends::verbose::set(&mut ctx, true);
    assert!(enabled(&ctx));
}
