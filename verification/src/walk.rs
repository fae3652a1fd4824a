//! Whole walks, against a model of the ledger service.
//!
//! A service is modelled by what it answers to each request of one account:
//! a function from the cursor to a page or an error. The walk of a resolver
//! against a service is what the loop around [`Resolver::advance`] computes
//! when every fetch is answered by that function. Stated and proved here:
//! the walk ends within the allowed number of fetches whatever the service
//! answers, what it ends with on an empty history, on a full page followed
//! by an empty one and on a service that never sends a short page, and its
//! outcome and the number of its requests on a service that serves a
//! history in pages, in whatever order within each page.
//!
//! [`Resolver::advance`]: crate::resolver::Resolver::advance

use crate::cursor::signature_bytes;
use crate::error::ResolverError;
use crate::record::{
    has_single_oldest, lemma_oldest_of_descending, lemma_oldest_of_shuffled, oldest, Record,
};
use crate::resolver::{
    dated, first_step, next_step, AccountId, EarliestView, PageRequestView, ResolverConfig,
    ResolverView, StepView,
};
use vstd::arithmetic::div_mod::{
    lemma_basic_div, lemma_div_minus_one, lemma_fundamental_div_mod,
    lemma_fundamental_div_mod_converse,
};
use vstd::prelude::*;

verus! {

/// How a walk ended, and after how many page requests.
pub struct Walk<E> {
    pub outcome: Result<EarliestView, ResolverError<E>>,
    pub requests: nat,
}

/// The walk of a resolver that is about to ask `service` for the page before
/// `before`.
pub open spec fn walk_from<E>(
    service: spec_fn(Option<Seq<u8>>) -> Result<Seq<Record>, E>,
    resolver: ResolverView,
    before: Option<Seq<u8>>,
) -> Walk<E>
    decreases resolver.config.max_pages - resolver.pages_fetched,
{
    match next_step(resolver, service(before)) {
        StepView::Done(outcome) => Walk { outcome, requests: 1 },
        StepView::Fetch { resolver: next, request } => {
            let rest = walk_from(service, next, request.before);
            Walk { outcome: rest.outcome, requests: rest.requests + 1 }
        },
    }
}

/// The walk through the history of `account` that `service` serves.
pub open spec fn walk<E>(
    service: spec_fn(Option<Seq<u8>>) -> Result<Seq<Record>, E>,
    account: AccountId,
    config: ResolverConfig,
) -> Walk<E> {
    match first_step::<E>(account, config) {
        StepView::Done(outcome) => Walk { outcome, requests: 0 },
        StepView::Fetch { resolver, request } => walk_from(service, resolver, request.before),
    }
}

/// Whatever the service answers, a walk in progress makes at least one more
/// request and never more than are left of the allowed number.
pub proof fn lemma_walk_from_is_bounded<E>(
    service: spec_fn(Option<Seq<u8>>) -> Result<Seq<Record>, E>,
    resolver: ResolverView,
    before: Option<Seq<u8>>,
)
    requires
        resolver.is_valid(),
    ensures
        1 <= walk_from(service, resolver, before).requests <= resolver.config.max_pages
            - resolver.pages_fetched + 1,
    decreases resolver.config.max_pages - resolver.pages_fetched,
{
    match next_step(resolver, service(before)) {
        StepView::Done(_) => {},
        StepView::Fetch { resolver: next, request } => {
            lemma_walk_from_is_bounded(service, next, request.before);
        },
    }
}

/// Whatever the service answers, a walk ends, and within the allowed number
/// of page requests.
pub proof fn lemma_walk_is_bounded<E>(
    service: spec_fn(Option<Seq<u8>>) -> Result<Seq<Record>, E>,
    account: AccountId,
    config: ResolverConfig,
)
    ensures
        walk(service, account, config).requests <= config.max_pages,
{
    match first_step::<E>(account, config) {
        StepView::Done(_) => {},
        StepView::Fetch { resolver, request } => {
            lemma_walk_from_is_bounded(service, resolver, request.before);
        },
    }
}

/// An account whose first page is empty has no history: the walk ends with
/// `NotFound` after one request.
pub proof fn lemma_walk_of_empty_history<E>(
    service: spec_fn(Option<Seq<u8>>) -> Result<Seq<Record>, E>,
    account: AccountId,
    config: ResolverConfig,
)
    requires
        config.max_pages >= 1,
        service(None) == Ok::<Seq<Record>, E>(Seq::empty()),
    ensures
        walk(service, account, config) == (Walk::<E> {
            outcome: Err(ResolverError::NotFound),
            requests: 1,
        }),
{
}

/// A full first page followed by an empty page: the walk takes the empty
/// page as the end of the history and returns the oldest record of the
/// first page, after two requests.
pub proof fn lemma_walk_of_full_page_then_empty<E>(
    service: spec_fn(Option<Seq<u8>>) -> Result<Seq<Record>, E>,
    account: AccountId,
    config: ResolverConfig,
    page: Seq<Record>,
)
    requires
        config.max_pages >= 2,
        config.page_limit >= 1,
        page.len() == config.page_limit,
        service(None) == Ok::<Seq<Record>, E>(page),
        signature_bytes(oldest(page).signature) is Some,
        service(signature_bytes(oldest(page).signature)) == Ok::<Seq<Record>, E>(Seq::empty()),
    ensures
        walk(service, account, config) == (Walk::<E> { outcome: dated(oldest(page)), requests: 2 }),
{
    let first = ResolverView { account, config, pages_fetched: 1, oldest: None };
    let second = ResolverView { account, config, pages_fetched: 2, oldest: Some(oldest(page)) };
    let cursor = signature_bytes(oldest(page).signature);
    assert(next_step(first, service(None)) == StepView::<E>::Fetch {
        resolver: second,
        request: PageRequestView { account, before: cursor },
    });
    assert(next_step(second, service(cursor)) == StepView::<E>::Done(dated(oldest(page))));
    assert(walk_from(service, second, cursor) == (Walk::<E> {
        outcome: dated(oldest(page)),
        requests: 1,
    }));
}

/// Against a service that never sends a short page, the walk ends with
/// `HistoryTooDeep` when the allowed number of page requests has been made,
/// and not before.
pub proof fn lemma_walk_of_endless_history<E>(
    service: spec_fn(Option<Seq<u8>>) -> Result<Seq<Record>, E>,
    account: AccountId,
    config: ResolverConfig,
)
    requires
        forall|before: Option<Seq<u8>>| never_short(#[trigger] service(before), config),
    ensures
        walk(service, account, config) == (Walk::<E> {
            outcome: Err(ResolverError::HistoryTooDeep),
            requests: config.max_pages as nat,
        }),
{
    if config.max_pages > 0 {
        let first = ResolverView { account, config, pages_fetched: 1, oldest: None };
        lemma_walk_from_of_endless_history(service, first, None);
    }
}

/// An answer of a service that the walk cannot stop at: a page that is
/// neither empty nor shorter than the page limit, and whose oldest record
/// has a signature that parses.
pub open spec fn never_short<E>(answer: Result<Seq<Record>, E>, config: ResolverConfig) -> bool {
    &&& answer matches Ok(page)
    &&& page.len() > 0
    &&& page.len() >= config.page_limit
    &&& signature_bytes(oldest(page).signature) is Some
}

proof fn lemma_walk_from_of_endless_history<E>(
    service: spec_fn(Option<Seq<u8>>) -> Result<Seq<Record>, E>,
    resolver: ResolverView,
    before: Option<Seq<u8>>,
)
    requires
        resolver.is_valid(),
        forall|before: Option<Seq<u8>>| never_short(#[trigger] service(before), resolver.config),
    ensures
        walk_from(service, resolver, before) == (Walk::<E> {
            outcome: Err(ResolverError::HistoryTooDeep),
            requests: (resolver.config.max_pages - resolver.pages_fetched + 1) as nat,
        }),
    decreases resolver.config.max_pages - resolver.pages_fetched,
{
    assert(never_short(service(before), resolver.config));
    match next_step(resolver, service(before)) {
        StepView::Done(_) => {},
        StepView::Fetch { resolver: next, request } => {
            lemma_walk_from_of_endless_history(service, next, request.before);
        },
    }
}

/// A history as the ledger holds it, newest record first, is chronological
/// when every record is strictly older than the one before it, every
/// signature parses, and no two records have the same signature.
pub open spec fn is_chronological(history: Seq<Record>) -> bool {
    &&& forall|i: int, j: int|
        0 <= i < j < history.len() ==> #[trigger] history[i].rank() > #[trigger] history[j].rank()
    &&& forall|i: int|
        0 <= i < history.len() ==> signature_bytes(#[trigger] history[i].signature) is Some
    &&& forall|i: int, j: int|
        0 <= i < j < history.len() ==> signature_bytes(#[trigger] history[i].signature)
            != signature_bytes(#[trigger] history[j].signature)
}

/// Whether the record at `at` is the one that a cursor names.
pub open spec fn is_named(history: Seq<Record>, cursor: Seq<u8>, at: int) -> bool {
    0 <= at < history.len() && signature_bytes(history[at].signature) == Some(cursor)
}

/// Where in `history` the page before a cursor begins: at the newest record
/// without a cursor, right after the record that the cursor names, and at
/// the end where it names none.
pub open spec fn position_after(history: Seq<Record>, before: Option<Seq<u8>>) -> int {
    match before {
        None => 0,
        Some(cursor) => if exists|at: int| is_named(history, cursor, at) {
            (choose|at: int| is_named(history, cursor, at)) + 1
        } else {
            history.len() as int
        },
    }
}

/// The page of at most `page_limit` records of `history` that begins at
/// `start`.
pub open spec fn page_at(history: Seq<Record>, start: int, page_limit: int) -> Seq<Record> {
    if start + page_limit <= history.len() {
        history.subrange(start, start + page_limit)
    } else {
        history.subrange(start, history.len() as int)
    }
}

/// A service that holds `history` and never fails: it answers each request
/// with the page that begins after the record that the cursor names, in the
/// ledger's own order.
pub open spec fn ledger<E>(history: Seq<Record>, page_limit: int) -> spec_fn(
    Option<Seq<u8>>,
) -> Result<Seq<Record>, E> {
    |before: Option<Seq<u8>>| Ok(page_at(history, position_after(history, before), page_limit))
}

/// `service` serves `history` in pages of `page_limit` records, completely
/// and consistently: it never fails, and it answers each request with the
/// records of the page that begins after the record that the cursor names,
/// in whatever order within the page. Every record is reachable, each in
/// exactly one page, and nothing changes between two requests.
pub open spec fn serves<E>(
    service: spec_fn(Option<Seq<u8>>) -> Result<Seq<Record>, E>,
    history: Seq<Record>,
    page_limit: int,
) -> bool {
    forall|before: Option<Seq<u8>>|
        match #[trigger] service(before) {
            Ok(page) => page.to_multiset() == page_at(
                history,
                position_after(history, before),
                page_limit,
            ).to_multiset(),
            Err(_) => false,
        }
}

/// The ledger that answers in its own order serves its history.
pub proof fn lemma_ledger_serves<E>(history: Seq<Record>, page_limit: int)
    ensures
        serves(ledger::<E>(history, page_limit), history, page_limit),
{
}

/// What a walk through a chronological history ends with: its last record,
/// or `NotFound` where it is empty.
pub open spec fn origin<E>(history: Seq<Record>) -> Result<EarliestView, ResolverError<E>> {
    if history.len() == 0 {
        Err(ResolverError::NotFound)
    } else {
        dated(history.last())
    }
}

proof fn lemma_position_after(history: Seq<Record>, at: int)
    requires
        is_chronological(history),
        0 <= at < history.len(),
    ensures
        position_after(history, signature_bytes(history[at].signature)) == at + 1,
{
    let cursor = signature_bytes(history[at].signature)->0;
    assert(is_named(history, cursor, at));
    let chosen = choose|k: int| is_named(history, cursor, k);
    if chosen < at {
        assert(signature_bytes(history[chosen].signature) != signature_bytes(
            history[at].signature,
        ));
    } else if at < chosen {
        assert(signature_bytes(history[at].signature) != signature_bytes(
            history[chosen].signature,
        ));
    }
}

/// Of a page of a chronological history, however shuffled, the oldest
/// record is the last record of the page as the ledger holds it.
proof fn lemma_oldest_of_served_page(
    history: Seq<Record>,
    start: int,
    page_limit: int,
    served: Seq<Record>,
)
    requires
        is_chronological(history),
        0 <= start < history.len(),
        page_limit >= 1,
        served.to_multiset() == page_at(history, start, page_limit).to_multiset(),
    ensures
        served.len() == page_at(history, start, page_limit).len(),
        oldest(served) == page_at(history, start, page_limit).last(),
{
    let page = page_at(history, start, page_limit);
    assert forall|i: int, j: int| 0 <= i < j < page.len() implies #[trigger] page[i].rank()
        > #[trigger] page[j].rank() by {
        assert(page[i] == history[start + i]);
        assert(page[j] == history[start + j]);
    }
    lemma_oldest_of_descending(page);
    assert(has_single_oldest(page));
    lemma_oldest_of_shuffled(page, served);
}

proof fn lemma_walk_from_of_served_history<E>(
    service: spec_fn(Option<Seq<u8>>) -> Result<Seq<Record>, E>,
    history: Seq<Record>,
    resolver: ResolverView,
    before: Option<Seq<u8>>,
    start: int,
)
    requires
        is_chronological(history),
        serves(service, history, resolver.config.page_limit as int),
        resolver.is_valid(),
        resolver.config.page_limit >= 1,
        0 <= start <= history.len(),
        start == 0 ==> before is None && resolver.oldest is None,
        start > 0 ==> before == signature_bytes(history[start - 1].signature) && resolver.oldest
            == Some(history[start - 1]),
        resolver.pages_fetched + (history.len() - start) / (resolver.config.page_limit as int)
            <= resolver.config.max_pages,
    ensures
        walk_from(service, resolver, before) == (Walk::<E> {
            outcome: origin(history),
            requests: ((history.len() - start) / (resolver.config.page_limit as int) + 1) as nat,
        }),
    decreases history.len() - start,
{
    let limit = resolver.config.page_limit as int;
    let left = history.len() - start;
    if start > 0 {
        lemma_position_after(history, start - 1);
    }
    assert(position_after(history, before) == start);
    let page = page_at(history, start, limit);
    let served = service(before)->Ok_0;
    assert(service(before) == Ok::<Seq<Record>, E>(served));
    assert(served.to_multiset() == page.to_multiset());
    served.to_multiset_ensures();
    page.to_multiset_ensures();
    assert(served.len() == page.len());
    if left > 0 {
        lemma_oldest_of_served_page(history, start, limit, served);
    }
    if left < limit {
        lemma_basic_div(left, limit);
        if left > 0 {
            assert(page.last() == history.last());
        }
        assert(next_step(resolver, service(before)) == StepView::<E>::Done(origin(history)));
    } else {
        lemma_div_minus_one(left, limit);
        assert((left - limit) / limit == left / limit - 1);
        assert(left / limit >= 1);
        let last = start + limit - 1;
        assert(page.last() == history[last]);
        let next = ResolverView {
            account: resolver.account,
            config: resolver.config,
            pages_fetched: resolver.pages_fetched + 1,
            oldest: Some(history[last]),
        };
        let cursor = signature_bytes(history[last].signature);
        assert(next_step(resolver, service(before)) == StepView::<E>::Fetch {
            resolver: next,
            request: PageRequestView { account: resolver.account, before: cursor },
        });
        lemma_walk_from_of_served_history::<E>(service, history, next, cursor, start + limit);
    }
}

/// The walk through a chronological history of `n` records that a service
/// serves in pages of `l` records, each page in whatever order, with enough
/// fetches allowed: it makes `n / l + 1` requests, which is the number of
/// pages rounded up unless `l` divides `n`, and it ends with the last record
/// of the history, or with `NotFound` where the history is empty.
pub proof fn lemma_walk_of_served_history<E>(
    service: spec_fn(Option<Seq<u8>>) -> Result<Seq<Record>, E>,
    history: Seq<Record>,
    account: AccountId,
    config: ResolverConfig,
)
    requires
        is_chronological(history),
        serves(service, history, config.page_limit as int),
        config.page_limit >= 1,
        config.max_pages >= history.len() / (config.page_limit as nat) + 1,
    ensures
        walk(service, account, config) == (Walk::<E> {
            outcome: origin(history),
            requests: history.len() / (config.page_limit as nat) + 1,
        }),
        history.len() % (config.page_limit as nat) != 0 ==> walk(service, account, config).requests
            == (history.len() + config.page_limit - 1) / (config.page_limit as int),
{
    let n = history.len() as int;
    let l = config.page_limit as int;
    let first = ResolverView { account, config, pages_fetched: 1, oldest: None };
    lemma_walk_from_of_served_history::<E>(service, history, first, None, 0);
    if n % l != 0 {
        lemma_fundamental_div_mod(n, l);
        assert(n + l - 1 == (n / l + 1) * l + (n % l - 1)) by (nonlinear_arith)
            requires
                n == l * (n / l) + (n % l),
        ;
        lemma_fundamental_div_mod_converse(n + l - 1, l, n / l + 1, n % l - 1);
    }
}

} // verus!
