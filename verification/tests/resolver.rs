use history_origin::calendar::UtcDateTime;
use history_origin::cursor::Cursor;
use history_origin::error::ResolverError;
use history_origin::record::HistoryRecord;
use history_origin::resolver::{
    AccountId, Earliest, Finding, PageRequest, Resolver, ResolverConfig, Step, DEFAULT_MAX_PAGES,
    DEFAULT_PAGE_LIMIT,
};

fn account() -> AccountId {
    let mut bytes = [0u8; 32];
    bytes[0] = 0xAC;
    bytes[31] = 0x1D;
    AccountId { bytes }
}

fn signature(n: usize) -> String {
    let mut bytes = [0u8; 64];
    bytes[0] = 1 + (n >> 16) as u8;
    bytes[1] = (n >> 8) as u8;
    bytes[2] = n as u8;
    bytes[63] = 0x5A;
    bs58::encode(bytes).into_string()
}

fn record(n: usize, timestamp: Option<i64>) -> HistoryRecord {
    HistoryRecord { signature: signature(n), slot: 1_000_000 - n as u64, timestamp }
}

/// A history of `n` records, newest first, each ten seconds older than the
/// one before it; the oldest has the timestamp `oldest`.
fn descending(n: usize, oldest: i64) -> Vec<HistoryRecord> {
    (0..n).map(|i| record(i, Some(oldest + 10 * (n - 1 - i) as i64))).collect()
}

struct Ledger {
    history: Vec<HistoryRecord>,
    page_limit: usize,
    requests: Vec<PageRequest>,
}

impl Ledger {
    fn new(history: Vec<HistoryRecord>, page_limit: usize) -> Ledger {
        Ledger { history, page_limit, requests: Vec::new() }
    }

    fn fetch(&mut self, request: PageRequest) -> Result<Vec<HistoryRecord>, String> {
        self.requests.push(request);
        let start = match request.before {
            None => 0,
            Some(cursor) => {
                match self.history.iter().position(|r| Cursor::parse(&r.signature) == Some(cursor))
                {
                    Some(at) => at + 1,
                    None => self.history.len(),
                }
            }
        };
        let end = std::cmp::min(start + self.page_limit, self.history.len());
        Ok(self.history[start..end].to_vec())
    }
}

fn resolve(ledger: &mut Ledger, config: ResolverConfig) -> Result<Earliest, ResolverError<String>> {
    let mut step = Resolver::start(account(), config);
    loop {
        match step {
            Step::Fetch { resolver, request } => {
                assert_eq!(resolver.pages_fetched(), ledger.requests.len() + 1);
                let fetched = ledger.fetch(request);
                step = resolver.advance(fetched);
            }
            Step::Done(outcome) => return outcome,
        }
    }
}

fn config(page_limit: usize, max_pages: usize) -> ResolverConfig {
    ResolverConfig { page_limit, max_pages }
}

#[test]
fn five_records_in_pages_of_two() {
    let history: Vec<HistoryRecord> = [100_i64, 90, 80, 70, 60]
        .iter()
        .enumerate()
        .map(|(i, t)| record(i, Some(*t)))
        .collect();
    let mut ledger = Ledger::new(history.clone(), 2);
    let earliest = resolve(&mut ledger, config(2, 10)).expect("an earliest record");
    assert_eq!(earliest.record, history[4]);
    assert_eq!(earliest.record.timestamp, Some(60));
    assert_eq!(earliest.datetime, UtcDateTime::new(1970, 1, 1, 0, 1, 0).unwrap());
    assert_eq!(ledger.requests.len(), 3);
    assert_eq!(ledger.requests[0].before, None);
    assert_eq!(ledger.requests[1].before, Cursor::parse(&history[1].signature));
    assert_eq!(ledger.requests[2].before, Cursor::parse(&history[3].signature));
}

#[test]
fn requests_are_the_pages_rounded_up() {
    for limit in 1..=6_usize {
        for n in 1..=25_usize {
            if n % limit == 0 {
                continue;
            }
            let mut ledger = Ledger::new(descending(n, 1_700_000_000), limit);
            let outcome = resolve(&mut ledger, config(limit, 100));
            assert!(outcome.is_ok());
            assert_eq!(ledger.requests.len(), (n + limit - 1) / limit);
        }
    }
}

#[test]
fn requests_are_one_more_than_the_full_pages() {
    for limit in 1..=6_usize {
        for n in 0..=25_usize {
            let mut ledger = Ledger::new(descending(n, 1_700_000_000), limit);
            let outcome = resolve(&mut ledger, config(limit, 100));
            assert_eq!(outcome.is_ok(), n > 0);
            assert_eq!(ledger.requests.len(), n / limit + 1);
        }
    }
}

#[test]
fn returns_the_last_record_of_the_final_page() {
    for pages in 0..=4_usize {
        for rest in 1..5_usize {
            let limit = 5;
            let n = pages * limit + rest;
            let history = descending(n, 1_703_417_244);
            let mut ledger = Ledger::new(history.clone(), limit);
            let earliest = resolve(&mut ledger, config(limit, 100)).expect("an earliest record");
            assert_eq!(earliest.record, history[n - 1]);
            assert_eq!(earliest.record.timestamp, Some(1_703_417_244));
            assert_eq!(earliest.datetime, UtcDateTime::new(2023, 12, 24, 11, 27, 24).unwrap());
            assert_eq!(ledger.requests.len(), pages + 1);
        }
    }
}

#[test]
fn empty_history_is_not_found() {
    let mut ledger = Ledger::new(Vec::new(), 1000);
    let outcome = resolve(&mut ledger, ResolverConfig::default());
    assert_eq!(outcome, Err(ResolverError::NotFound));
    assert_eq!(ledger.requests.len(), 1);
    assert_eq!(ledger.requests[0], PageRequest { account: account(), before: None });
}

#[test]
fn full_page_followed_by_empty_page_returns_the_last_record_fetched() {
    let history = descending(4, 1_000);
    let mut ledger = Ledger::new(history.clone(), 4);
    let earliest = resolve(&mut ledger, config(4, 10)).expect("an earliest record");
    assert_eq!(earliest.record, history[3]);
    assert_eq!(earliest.datetime, UtcDateTime::new(1970, 1, 1, 0, 16, 40).unwrap());
    assert_eq!(ledger.requests.len(), 2);
    assert_eq!(ledger.requests[1].before, Cursor::parse(&history[3].signature));
}

#[test]
fn several_full_pages_followed_by_empty_page() {
    let history = descending(6, 50);
    let mut ledger = Ledger::new(history.clone(), 2);
    let earliest = resolve(&mut ledger, config(2, 10)).expect("an earliest record");
    assert_eq!(earliest.record, history[5]);
    assert_eq!(ledger.requests.len(), 4);
}

fn first_resolver(config: ResolverConfig) -> Resolver {
    match Resolver::start::<String>(account(), config) {
        Step::Fetch { resolver, request } => {
            assert_eq!(request, PageRequest { account: account(), before: None });
            resolver
        }
        Step::Done(outcome) => panic!("no walk: {:?}", outcome),
    }
}

#[test]
fn shuffled_page_gives_the_same_oldest_record() {
    let ordered = descending(5, 500);
    let orders: [[usize; 5]; 5] =
        [[0, 1, 2, 3, 4], [4, 3, 2, 1, 0], [2, 4, 0, 3, 1], [1, 0, 4, 2, 3], [3, 2, 4, 0, 1]];
    for order in orders {
        let page: Vec<HistoryRecord> = order.iter().map(|i| ordered[*i].clone()).collect();
        let step = first_resolver(config(10, 3)).advance::<String>(Ok(page.clone()));
        match step {
            Step::Done(Ok(earliest)) => {
                assert_eq!(earliest.record, ordered[4]);
                assert_eq!(earliest.datetime, UtcDateTime::new(1970, 1, 1, 0, 8, 20).unwrap());
            }
            other => panic!("expected the oldest record, got {:?}", other),
        }
        let step = first_resolver(config(5, 3)).advance::<String>(Ok(page));
        match step {
            Step::Fetch { resolver, request } => {
                assert_eq!(request.before, Cursor::parse(&ordered[4].signature));
                assert_eq!(request.account, account());
                assert_eq!(resolver.pages_fetched(), 2);
            }
            other => panic!("expected a request, got {:?}", other),
        }
    }
}

#[test]
fn shuffled_pages_do_not_change_the_outcome() {
    let history = descending(7, 1_703_417_244);
    let mut step = Resolver::start::<String>(account(), config(3, 10));
    let mut requests = 0;
    let outcome = loop {
        match step {
            Step::Fetch { resolver, request } => {
                let start = match request.before {
                    None => 0,
                    Some(cursor) => {
                        history
                            .iter()
                            .position(|r| Cursor::parse(&r.signature) == Some(cursor))
                            .unwrap()
                            + 1
                    }
                };
                let end = std::cmp::min(start + 3, history.len());
                let mut page = history[start..end].to_vec();
                page.reverse();
                page.rotate_left(1);
                requests += 1;
                step = resolver.advance(Ok(page));
            }
            Step::Done(outcome) => break outcome,
        }
    };
    assert_eq!(outcome.unwrap().record, history[6]);
    assert_eq!(requests, 3);
}

#[test]
fn service_without_short_pages_ends_too_deep() {
    for max_pages in 1..=7_usize {
        let mut step = Resolver::start::<String>(account(), config(3, max_pages));
        let mut requests = 0;
        let outcome = loop {
            match step {
                Step::Fetch { resolver, request } => {
                    assert_eq!(request.before.is_none(), requests == 0);
                    let page: Vec<HistoryRecord> = (0..3)
                        .map(|i| record(3 * requests + i, Some(1_000_000 - (3 * requests + i) as i64)))
                        .collect();
                    requests += 1;
                    step = resolver.advance(Ok(page));
                }
                Step::Done(outcome) => break outcome,
            }
        };
        assert_eq!(outcome, Err(ResolverError::HistoryTooDeep));
        assert_eq!(requests, max_pages);
    }
}

#[test]
fn deep_history_within_the_bound_is_resolved() {
    let history = descending(9, 77);
    let mut ledger = Ledger::new(history.clone(), 2);
    let earliest = resolve(&mut ledger, config(2, 5)).expect("an earliest record");
    assert_eq!(earliest.record, history[8]);
    assert_eq!(ledger.requests.len(), 5);
    let mut ledger = Ledger::new(history, 2);
    assert_eq!(resolve(&mut ledger, config(2, 4)), Err(ResolverError::HistoryTooDeep));
    assert_eq!(ledger.requests.len(), 4);
}

#[test]
fn no_fetch_allowed_is_too_deep_at_once() {
    match Resolver::start::<String>(account(), config(1000, 0)) {
        Step::Done(outcome) => assert_eq!(outcome, Err(ResolverError::HistoryTooDeep)),
        other => panic!("expected the end, got {:?}", other),
    }
    let mut ledger = Ledger::new(descending(3, 5), 1000);
    assert_eq!(resolve(&mut ledger, config(1000, 0)), Err(ResolverError::HistoryTooDeep));
    assert!(ledger.requests.is_empty());
}

#[test]
fn failed_fetch_is_handed_on_unchanged() {
    let step = first_resolver(config(2, 5)).advance(Err("connection reset".to_string()));
    match step {
        Step::Done(outcome) => {
            assert_eq!(outcome, Err(ResolverError::Transport("connection reset".to_string())))
        }
        other => panic!("expected the end, got {:?}", other),
    }
}

#[test]
fn failed_fetch_of_a_later_page_ends_the_walk() {
    let history = descending(4, 10);
    let step = first_resolver(config(2, 5)).advance::<u32>(Ok(history[0..2].to_vec()));
    let resolver = match step {
        Step::Fetch { resolver, .. } => resolver,
        other => panic!("expected a request, got {:?}", other),
    };
    match resolver.advance(Err(503_u32)) {
        Step::Done(outcome) => assert_eq!(outcome, Err(ResolverError::Transport(503))),
        other => panic!("expected the end, got {:?}", other),
    }
}

#[test]
fn earliest_record_without_timestamp_is_missing_timestamp() {
    let history = vec![record(0, Some(30)), record(1, Some(20)), record(2, None)];
    let mut ledger = Ledger::new(history, 2);
    assert_eq!(resolve(&mut ledger, config(2, 5)), Err(ResolverError::MissingTimestamp));
    assert_eq!(ledger.requests.len(), 2);
}

#[test]
fn record_without_timestamp_counts_as_the_oldest_of_its_page() {
    let page = vec![record(0, Some(30)), record(1, None), record(2, Some(10))];
    match first_resolver(config(5, 5)).advance::<String>(Ok(page.clone())) {
        Step::Done(outcome) => assert_eq!(outcome, Err(ResolverError::MissingTimestamp)),
        other => panic!("expected the end, got {:?}", other),
    }
    match first_resolver(config(3, 5)).advance::<String>(Ok(page.clone())) {
        Step::Fetch { request, .. } => {
            assert_eq!(request.before, Cursor::parse(&page[1].signature))
        }
        other => panic!("expected a request, got {:?}", other),
    }
}

#[test]
fn timestamp_before_the_epoch_is_out_of_range() {
    let mut ledger = Ledger::new(vec![record(0, Some(5)), record(1, Some(-1))], 10);
    assert_eq!(resolve(&mut ledger, config(10, 5)), Err(ResolverError::TimestampOutOfRange));
}

#[test]
fn timestamp_beyond_the_calendar_is_out_of_range() {
    let mut ledger = Ledger::new(vec![record(0, Some(i64::MAX))], 10);
    assert_eq!(resolve(&mut ledger, config(10, 5)), Err(ResolverError::TimestampOutOfRange));
}

#[test]
fn signature_that_is_no_cursor_ends_the_walk() {
    let page = vec![
        record(0, Some(30)),
        HistoryRecord { signature: "not-a-signature".to_string(), slot: 9, timestamp: Some(20) },
    ];
    match first_resolver(config(2, 5)).advance::<String>(Ok(page.clone())) {
        Step::Done(outcome) => assert_eq!(outcome, Err(ResolverError::InvalidCursor)),
        other => panic!("expected the end, got {:?}", other),
    }
    match first_resolver(config(3, 5)).advance::<String>(Ok(page.clone())) {
        Step::Done(outcome) => assert_eq!(outcome.unwrap().record, page[1]),
        other => panic!("expected the end, got {:?}", other),
    }
}

#[test]
fn too_deep_is_told_before_the_cursor_is_parsed() {
    let page = vec![
        record(0, Some(30)),
        HistoryRecord { signature: "not-a-signature".to_string(), slot: 9, timestamp: Some(20) },
    ];
    match first_resolver(config(2, 1)).advance::<String>(Ok(page)) {
        Step::Done(outcome) => assert_eq!(outcome, Err(ResolverError::HistoryTooDeep)),
        other => panic!("expected the end, got {:?}", other),
    }
}

#[test]
fn equal_timestamps_resolve_to_the_first_of_them() {
    let page = vec![record(0, Some(9)), record(1, Some(5)), record(2, Some(5))];
    match first_resolver(config(10, 5)).advance::<String>(Ok(page.clone())) {
        Step::Done(outcome) => assert_eq!(outcome.unwrap().record, page[1]),
        other => panic!("expected the end, got {:?}", other),
    }
}

#[test]
fn page_limit_of_zero_never_sees_a_short_page() {
    let mut ledger = Ledger::new(descending(1, 5), 1);
    assert_eq!(resolve(&mut ledger, config(0, 5)).unwrap().record, descending(1, 5)[0]);
    assert_eq!(ledger.requests.len(), 2);
    let mut empty = Ledger::new(Vec::new(), 1);
    assert_eq!(resolve(&mut empty, config(0, 5)), Err(ResolverError::NotFound));
    let mut deep = Ledger::new(descending(9, 5), 1);
    assert_eq!(resolve(&mut deep, config(0, 4)), Err(ResolverError::HistoryTooDeep));
    assert_eq!(deep.requests.len(), 4);
}

#[test]
fn default_config_is_the_service_page_size() {
    let config = ResolverConfig::default();
    assert_eq!(config.page_limit, 1000);
    assert_eq!(config.page_limit, DEFAULT_PAGE_LIMIT);
    assert_eq!(config.max_pages, DEFAULT_MAX_PAGES);
    assert!(config.max_pages > 0);
}

#[test]
fn thousand_records_make_a_full_page() {
    let history = descending(1001, 1_600_000_000);
    let mut ledger = Ledger::new(history.clone(), 1000);
    let earliest = resolve(&mut ledger, ResolverConfig::default()).expect("an earliest record");
    assert_eq!(earliest.record, history[1000]);
    assert_eq!(ledger.requests.len(), 2);
    assert_eq!(ledger.requests[1].before, Cursor::parse(&history[999].signature));
    let mut short = Ledger::new(descending(999, 1_600_000_000), 1000);
    assert!(resolve(&mut short, ResolverConfig::default()).is_ok());
    assert_eq!(short.requests.len(), 1);
}

#[test]
fn resolver_keeps_account_and_config() {
    let resolver = first_resolver(config(7, 9));
    assert_eq!(resolver.account(), account());
    assert_eq!(resolver.config(), config(7, 9));
    assert_eq!(resolver.pages_fetched(), 1);
    match resolver.advance::<String>(Ok(descending(7, 1))) {
        Step::Fetch { resolver, request } => {
            assert_eq!(resolver.account(), account());
            assert_eq!(request.account, account());
            assert_eq!(resolver.config(), config(7, 9));
            assert_eq!(resolver.pages_fetched(), 2);
        }
        other => panic!("expected a request, got {:?}", other),
    }
}

#[test]
fn examine_tells_what_a_page_means() {
    let history = descending(3, 40);
    match first_resolver(config(3, 5)).examine(Vec::new()) {
        Finding::NoHistory => {}
        other => panic!("expected no history, got {:?}", other),
    }
    match first_resolver(config(4, 5)).examine(history.clone()) {
        Finding::Earliest(found) => assert_eq!(found, history[2]),
        other => panic!("expected the earliest record, got {:?}", other),
    }
    match first_resolver(config(3, 1)).examine(history.clone()) {
        Finding::TooDeep => {}
        other => panic!("expected too deep, got {:?}", other),
    }
    let next = match first_resolver(config(3, 2)).examine(history.clone()) {
        Finding::Older(next) => next,
        other => panic!("expected an older page, got {:?}", other),
    };
    assert_eq!(next.pages_fetched(), 2);
    match next.examine(Vec::new()) {
        Finding::Earliest(found) => assert_eq!(found, history[2]),
        other => panic!("expected the earliest record, got {:?}", other),
    }
}

#[test]
fn request_before_takes_the_parsed_cursor() {
    let cursor = Cursor { signature: [9u8; 64] };
    match first_resolver(config(3, 5)).request_before::<String>(Some(cursor)) {
        Step::Fetch { request, .. } => assert_eq!(request.before, None),
        other => panic!("expected a request, got {:?}", other),
    }
    let next = match first_resolver(config(3, 5)).examine(descending(3, 40)) {
        Finding::Older(next) => next,
        other => panic!("expected an older page, got {:?}", other),
    };
    match next.request_before::<String>(Some(cursor)) {
        Step::Fetch { request, resolver } => {
            assert_eq!(request, PageRequest { account: account(), before: Some(cursor) });
            assert_eq!(resolver.pages_fetched(), 2);
        }
        other => panic!("expected a request, got {:?}", other),
    }
    let next = match first_resolver(config(3, 5)).examine(descending(3, 40)) {
        Finding::Older(next) => next,
        other => panic!("expected an older page, got {:?}", other),
    };
    match next.request_before::<String>(None) {
        Step::Done(outcome) => assert_eq!(outcome, Err(ResolverError::InvalidCursor)),
        other => panic!("expected the end, got {:?}", other),
    }
}

#[test]
fn request_parses_the_signature_of_the_oldest_record() {
    let history = descending(3, 40);
    let next = match first_resolver(config(3, 5)).examine(history.clone()) {
        Finding::Older(next) => next,
        other => panic!("expected an older page, got {:?}", other),
    };
    match next.request::<String>() {
        Step::Fetch { request, .. } => {
            let cursor = request.before.expect("a cursor");
            assert_eq!(bs58::encode(cursor.signature).into_string(), history[2].signature);
        }
        other => panic!("expected a request, got {:?}", other),
    }
}

#[test]
fn from_fields_checks_the_fields_against_the_timestamp() {
    let found = record(3, Some(1_703_417_244));
    let outcome = Earliest::from_fields::<String>(found.clone(), Some((2023, 12, 24, 11, 27, 24)));
    assert_eq!(
        outcome,
        Ok(Earliest {
            record: found.clone(),
            datetime: UtcDateTime::new(2023, 12, 24, 11, 27, 24).unwrap()
        })
    );
    let wrong = Earliest::from_fields::<String>(found.clone(), Some((2023, 12, 24, 11, 27, 25)));
    assert_eq!(wrong, Err(ResolverError::TimestampOutOfRange));
    let none = Earliest::from_fields::<String>(found, None);
    assert_eq!(none, Err(ResolverError::TimestampOutOfRange));
    let missing = Earliest::from_fields::<String>(record(3, None), Some((1970, 1, 1, 0, 0, 0)));
    assert_eq!(missing, Err(ResolverError::MissingTimestamp));
}

#[test]
fn dated_converts_the_timestamp() {
    let found = record(1, Some(951_782_400));
    let earliest = Earliest::dated::<String>(found.clone()).expect("a date-time");
    assert_eq!(earliest.record, found);
    assert_eq!(earliest.datetime, UtcDateTime::new(2000, 2, 29, 0, 0, 0).unwrap());
    assert_eq!(earliest.datetime.epoch_seconds(), 951_782_400);
    assert_eq!(Earliest::dated::<String>(record(1, None)), Err(ResolverError::MissingTimestamp));
    assert_eq!(
        Earliest::dated::<String>(record(1, Some(-7))),
        Err(ResolverError::TimestampOutOfRange)
    );
}
