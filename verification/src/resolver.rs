//! The walk backward through an account's history, as a state machine.
//!
//! A [`Resolver`] never talks to the ledger. It says which page to fetch
//! next, is told what the fetch gave, and decides: fetch an older page, or
//! stop with the earliest record, or stop with an error. Whoever owns the
//! connection runs the loop:
//!
//! ```text
//! let mut step = Resolver::start(account, config);
//! loop {
//!     match step {
//!         Step::Fetch { resolver, request } => step = resolver.advance(fetch(request)),
//!         Step::Done(outcome) => return outcome,
//!     }
//! }
//! ```
//!
//! Each page is looked at once. A page shorter than the page limit ends the
//! walk with its oldest record. A full page makes its oldest record the
//! cursor of the next request, unless the allowed number of fetches is used
//! up. An empty page after a full one ends the walk with the record that was
//! the cursor.

use crate::calendar::{confirmed, utc_civil_fields, Civil, UtcDateTime};
use crate::cursor::{signature_bytes, Cursor};
use crate::error::ResolverError;
use crate::record::{
    has_single_oldest, lemma_oldest_of_shuffled, oldest, take_oldest, views, HistoryRecord, Record,
};
use vstd::prelude::*;

verus! {

/// The page size of the public ledger service: a page with fewer records
/// than this is the last one.
pub const DEFAULT_PAGE_LIMIT: usize = 1000;

/// The number of page fetches allowed to one walk unless configured
/// otherwise.
pub const DEFAULT_MAX_PAGES: usize = 10_000;

/// The address of an account on the ledger: 32 opaque bytes.
#[derive(Clone, Copy, Debug, PartialEq, Eq)]
pub struct AccountId {
    pub bytes: [u8; 32],
}

/// What a walk is run with.
#[derive(Clone, Copy, Debug, PartialEq, Eq)]
pub struct ResolverConfig {
    /// The number of records in a full page of the service that is asked.
    pub page_limit: usize,
    /// The most page fetches that one walk may make.
    pub max_pages: usize,
}

impl Default for ResolverConfig {
    fn default() -> (config: ResolverConfig)
        ensures
            config.page_limit == DEFAULT_PAGE_LIMIT,
            config.max_pages == DEFAULT_MAX_PAGES,
    {
        ResolverConfig { page_limit: DEFAULT_PAGE_LIMIT, max_pages: DEFAULT_MAX_PAGES }
    }
}

/// A page to fetch: the records of `account` older than `before`, newest
/// first, or the newest records of all where `before` is `None`.
#[derive(Clone, Copy, Debug, PartialEq, Eq)]
pub struct PageRequest {
    pub account: AccountId,
    pub before: Option<Cursor>,
}

/// The model of a [`PageRequest`]: the cursor as a sequence of bytes.
pub struct PageRequestView {
    pub account: AccountId,
    pub before: Option<Seq<u8>>,
}

impl View for PageRequest {
    type V = PageRequestView;

    open spec fn view(&self) -> PageRequestView {
        PageRequestView { account: self.account, before: cursor_view(self.before) }
    }
}

/// The bytes of a cursor, if there is one.
pub open spec fn cursor_view(cursor: Option<Cursor>) -> Option<Seq<u8>> {
    match cursor {
        Some(c) => Some(c.signature@),
        None => None,
    }
}

/// The earliest record of an account and the calendar date-time of its
/// timestamp.
#[derive(Clone, Debug, PartialEq, Eq)]
pub struct Earliest {
    pub record: HistoryRecord,
    pub datetime: UtcDateTime,
}

/// The model of an [`Earliest`].
pub struct EarliestView {
    pub record: Record,
    pub datetime: Civil,
}

impl View for Earliest {
    type V = EarliestView;

    open spec fn view(&self) -> EarliestView {
        EarliestView { record: self.record@, datetime: self.datetime@ }
    }
}

/// The model of what a walk ends with.
pub open spec fn outcome_view<E>(outcome: Result<Earliest, ResolverError<E>>) -> Result<
    EarliestView,
    ResolverError<E>,
> {
    match outcome {
        Ok(earliest) => Ok(earliest@),
        Err(error) => Err(error),
    }
}

/// A timestamp as a mathematical integer, if there is one.
pub open spec fn timestamp_view(timestamp: Option<i64>) -> Option<int> {
    match timestamp {
        Some(secs) => Some(secs as int),
        None => None,
    }
}

/// What a walk ends with once `record` is known to be the earliest, given
/// the calendar fields offered for its timestamp: the record with its
/// date-time where the fields are accepted for the timestamp,
/// `MissingTimestamp` where the record has no timestamp, and
/// `TimestampOutOfRange` where the fields are not accepted.
pub open spec fn settled<E>(
    record: Record,
    fields: Option<(i32, u32, u32, u32, u32, u32)>,
) -> Result<EarliestView, ResolverError<E>> {
    match record.timestamp {
        None => Err(ResolverError::MissingTimestamp),
        Some(secs) => match confirmed(secs as int, fields) {
            Some(datetime) => Ok(EarliestView { record, datetime }),
            None => Err(ResolverError::TimestampOutOfRange),
        },
    }
}

/// What a walk ends with once `record` is known to be the earliest.
pub open spec fn dated<E>(record: Record) -> Result<EarliestView, ResolverError<E>> {
    match record.timestamp {
        None => Err(ResolverError::MissingTimestamp),
        Some(secs) => settled(record, utc_civil_fields(secs)),
    }
}

impl Earliest {
    /// Ends a walk at `record`, with calendar fields that were computed for
    /// its timestamp: see [`settled`].
    pub fn from_fields<E>(
        record: HistoryRecord,
        fields: Option<(i32, u32, u32, u32, u32, u32)>,
    ) -> (outcome: Result<Earliest, ResolverError<E>>)
        ensures
            outcome_view(outcome) == settled::<E>(record@, fields),
            outcome matches Ok(earliest) ==> earliest.record@ == record@
                && earliest.datetime@.is_valid() && Some(earliest.datetime@.epoch_seconds())
                == timestamp_view(record.timestamp),
    {
        match record.timestamp {
            None => Err(ResolverError::MissingTimestamp),
            Some(secs) => match UtcDateTime::confirm(secs, fields) {
                Some(datetime) => Ok(Earliest { record, datetime }),
                None => Err(ResolverError::TimestampOutOfRange),
            },
        }
    }

    /// Ends a walk at `record`: converts its timestamp to a calendar
    /// date-time in UTC.
    pub fn dated<E>(record: HistoryRecord) -> (outcome: Result<Earliest, ResolverError<E>>)
        ensures
            outcome_view(outcome) == dated::<E>(record@),
            outcome matches Ok(earliest) ==> earliest.record@ == record@
                && earliest.datetime@.is_valid() && Some(earliest.datetime@.epoch_seconds())
                == timestamp_view(record.timestamp),
    {
        match record.timestamp {
            None => Err(ResolverError::MissingTimestamp),
            Some(secs) => match UtcDateTime::from_epoch_seconds(secs) {
                Some(datetime) => Ok(Earliest { record, datetime }),
                None => Err(ResolverError::TimestampOutOfRange),
            },
        }
    }
}

/// A walk between two pages: whose history is walked, with what limits, how
/// many pages have been asked for, and the oldest record seen so far.
#[derive(Debug)]
pub struct Resolver {
    account: AccountId,
    config: ResolverConfig,
    pages_fetched: usize,
    oldest: Option<HistoryRecord>,
}

/// The model of a [`Resolver`].
pub struct ResolverView {
    pub account: AccountId,
    pub config: ResolverConfig,
    /// The number of pages asked for so far, the one being awaited included.
    pub pages_fetched: nat,
    /// The oldest record of the last page seen; `None` before the first.
    pub oldest: Option<Record>,
}

impl ResolverView {
    /// What holds of every walk in progress: a page is being awaited, the
    /// allowed number of fetches is not exceeded, and a record has been seen
    /// exactly if the awaited page is not the first.
    pub open spec fn is_valid(self) -> bool {
        &&& 1 <= self.pages_fetched <= self.config.max_pages
        &&& self.oldest is None <==> self.pages_fetched == 1
    }
}

impl View for Resolver {
    type V = ResolverView;

    closed spec fn view(&self) -> ResolverView {
        ResolverView {
            account: self.account,
            config: self.config,
            pages_fetched: self.pages_fetched as nat,
            oldest: match self.oldest {
                Some(record) => Some(record@),
                None => None,
            },
        }
    }
}

/// What looking at one page tells.
#[derive(Debug)]
pub enum Finding {
    /// The first page was empty: the account has no history.
    NoHistory,
    /// This record is the earliest of the account.
    Earliest(HistoryRecord),
    /// The page was full and no further fetch is allowed.
    TooDeep,
    /// The page was full: the walk goes on from its oldest record.
    Older(Resolver),
}

/// The model of a [`Finding`].
pub enum FindingView {
    NoHistory,
    Earliest(Record),
    TooDeep,
    Older(ResolverView),
}

impl View for Finding {
    type V = FindingView;

    open spec fn view(&self) -> FindingView {
        match self {
            Finding::NoHistory => FindingView::NoHistory,
            Finding::Earliest(record) => FindingView::Earliest(record@),
            Finding::TooDeep => FindingView::TooDeep,
            Finding::Older(resolver) => FindingView::Older(resolver@),
        }
    }
}

/// What the walk does next.
#[derive(Debug)]
pub enum Step<E> {
    /// Fetch the page that `request` describes and hand it to
    /// [`Resolver::advance`] of `resolver`.
    Fetch { resolver: Resolver, request: PageRequest },
    /// The walk is over.
    Done(Result<Earliest, ResolverError<E>>),
}

/// The model of a [`Step`].
pub enum StepView<E> {
    Fetch { resolver: ResolverView, request: PageRequestView },
    Done(Result<EarliestView, ResolverError<E>>),
}

impl<E> View for Step<E> {
    type V = StepView<E>;

    open spec fn view(&self) -> StepView<E> {
        match self {
            Step::Fetch { resolver, request } => StepView::Fetch {
                resolver: resolver@,
                request: request@,
            },
            Step::Done(outcome) => StepView::Done(outcome_view(*outcome)),
        }
    }
}

/// The model of what a fetch gave: the page, or the fetcher's error.
pub open spec fn fetched_view<E>(fetched: Result<Vec<HistoryRecord>, E>) -> Result<
    Seq<Record>,
    E,
> {
    match fetched {
        Ok(page) => Ok(views(page@)),
        Err(error) => Err(error),
    }
}

/// What a page tells a walk that awaited it.
///
/// An empty page ends the walk: with `NoHistory` if it was the first page,
/// else with the oldest record of the page before, which then is the
/// earliest of all. A page shorter than the page limit ends the walk with
/// its oldest record. A full page sends the walk on from its oldest record,
/// unless as many pages as allowed have been fetched.
pub open spec fn finding(resolver: ResolverView, page: Seq<Record>) -> FindingView {
    if page.len() == 0 {
        match resolver.oldest {
            None => FindingView::NoHistory,
            Some(record) => FindingView::Earliest(record),
        }
    } else if page.len() < resolver.config.page_limit {
        FindingView::Earliest(oldest(page))
    } else if resolver.pages_fetched >= resolver.config.max_pages {
        FindingView::TooDeep
    } else {
        FindingView::Older(
            ResolverView {
                account: resolver.account,
                config: resolver.config,
                pages_fetched: resolver.pages_fetched + 1,
                oldest: Some(oldest(page)),
            },
        )
    }
}

/// The request that a walk makes, given what parsing the signature of its
/// oldest record gave: the newest page where no record has been seen,
/// else the page before that signature, and `InvalidCursor` where the
/// signature did not parse.
pub open spec fn request_with<E>(resolver: ResolverView, parsed: Option<Seq<u8>>) -> StepView<E> {
    match resolver.oldest {
        None => StepView::Fetch {
            resolver,
            request: PageRequestView { account: resolver.account, before: None },
        },
        Some(_) => match parsed {
            Some(bytes) => StepView::Fetch {
                resolver,
                request: PageRequestView { account: resolver.account, before: Some(bytes) },
            },
            None => StepView::Done(Err(ResolverError::InvalidCursor)),
        },
    }
}

/// The request that a walk makes.
pub open spec fn request<E>(resolver: ResolverView) -> StepView<E> {
    request_with(
        resolver,
        match resolver.oldest {
            Some(record) => signature_bytes(record.signature),
            None => None,
        },
    )
}

/// How a walk begins: with a request for the newest page, or, where not a
/// single fetch is allowed, with `HistoryTooDeep`.
pub open spec fn first_step<E>(account: AccountId, config: ResolverConfig) -> StepView<E> {
    if config.max_pages == 0 {
        StepView::Done(Err(ResolverError::HistoryTooDeep))
    } else {
        request(ResolverView { account, config, pages_fetched: 1, oldest: None })
    }
}

/// How a walk goes on when the fetch it asked for has ended: a failed
/// fetch ends the walk with the fetcher's error, unchanged; a page is
/// judged by [`finding`].
pub open spec fn next_step<E>(resolver: ResolverView, fetched: Result<Seq<Record>, E>) -> StepView<
    E,
> {
    match fetched {
        Err(error) => StepView::Done(Err(ResolverError::Transport(error))),
        Ok(page) => match finding(resolver, page) {
            FindingView::NoHistory => StepView::Done(Err(ResolverError::NotFound)),
            FindingView::Earliest(record) => StepView::Done(dated(record)),
            FindingView::TooDeep => StepView::Done(Err(ResolverError::HistoryTooDeep)),
            FindingView::Older(next) => request(next),
        },
    }
}

/// A page tells a walk the same in whatever order its records come, as
/// long as only one of them has the rank of the oldest.
pub proof fn lemma_finding_of_shuffled(
    resolver: ResolverView,
    page: Seq<Record>,
    shuffled: Seq<Record>,
)
    requires
        page.to_multiset() == shuffled.to_multiset(),
        has_single_oldest(page),
    ensures
        finding(resolver, shuffled) == finding(resolver, page),
{
    page.to_multiset_ensures();
    shuffled.to_multiset_ensures();
    if page.len() > 0 {
        lemma_oldest_of_shuffled(page, shuffled);
    }
}

impl Resolver {
    #[verifier::type_invariant]
    spec fn in_progress(self) -> bool {
        self@.is_valid()
    }

    /// Begins a walk through the history of `account`: see [`first_step`].
    pub fn start<E>(account: AccountId, config: ResolverConfig) -> (step: Step<E>)
        ensures
            step@ == first_step::<E>(account, config),
            step matches Step::Fetch { resolver, request } ==> resolver@.is_valid(),
    {
        if config.max_pages == 0 {
            Step::Done(Err(ResolverError::HistoryTooDeep))
        } else {
            let resolver = Resolver { account, config, pages_fetched: 1, oldest: None };
            resolver.request()
        }
    }

    /// Takes what the awaited fetch gave and says how the walk goes on: see
    /// [`next_step`].
    pub fn advance<E>(self, fetched: Result<Vec<HistoryRecord>, E>) -> (step: Step<E>)
        ensures
            step@ == next_step(self@, fetched_view(fetched)),
            self@.is_valid(),
            step matches Step::Fetch { resolver, request } ==> resolver@.is_valid(),
    {
        proof {
            use_type_invariant(&self);
        }
        match fetched {
            Err(error) => Step::Done(Err(ResolverError::Transport(error))),
            Ok(page) => match self.examine(page) {
                Finding::NoHistory => Step::Done(Err(ResolverError::NotFound)),
                Finding::Earliest(record) => Step::Done(Earliest::dated(record)),
                Finding::TooDeep => Step::Done(Err(ResolverError::HistoryTooDeep)),
                Finding::Older(next) => next.request(),
            },
        }
    }

    /// Judges the page that the walk awaited: see [`finding`].
    pub fn examine(self, page: Vec<HistoryRecord>) -> (found: Finding)
        ensures
            found@ == finding(self@, views(page@)),
            found matches Finding::Older(next) ==> next@.is_valid(),
    {
        proof {
            use_type_invariant(&self);
        }
        let length: usize = page.len();
        match take_oldest(page) {
            None => match self.oldest {
                None => Finding::NoHistory,
                Some(record) => Finding::Earliest(record),
            },
            Some(record) => {
                if length < self.config.page_limit {
                    Finding::Earliest(record)
                } else if self.pages_fetched >= self.config.max_pages {
                    Finding::TooDeep
                } else {
                    Finding::Older(
                        Resolver {
                            account: self.account,
                            config: self.config,
                            pages_fetched: self.pages_fetched + 1,
                            oldest: Some(record),
                        },
                    )
                }
            },
        }
    }

    /// Makes the walk's request: parses the signature of the oldest record
    /// seen, if there is one, into the cursor. See [`request`].
    pub fn request<E>(self) -> (step: Step<E>)
        ensures
            step@ == request::<E>(self@),
            step matches Step::Fetch { resolver, request } ==> resolver@ == self@,
    {
        let parsed: Option<Cursor> = match &self.oldest {
            Some(record) => Cursor::parse(record.signature.as_str()),
            None => None,
        };
        self.request_before(parsed)
    }

    /// Makes the walk's request from what parsing the signature of its
    /// oldest record gave; before the first page `parsed` is not looked at.
    /// See [`request_with`].
    pub fn request_before<E>(self, parsed: Option<Cursor>) -> (step: Step<E>)
        ensures
            step@ == request_with::<E>(self@, cursor_view(parsed)),
            step matches Step::Fetch { resolver, request } ==> resolver@ == self@,
    {
        let before: Option<Cursor> = match &self.oldest {
            None => None,
            Some(_) => match parsed {
                Some(cursor) => Some(cursor),
                None => {
                    return Step::Done(Err(ResolverError::InvalidCursor));
                },
            },
        };
        let request = PageRequest { account: self.account, before };
        Step::Fetch { resolver: self, request }
    }

    /// The account whose history is walked.
    pub fn account(&self) -> (account: AccountId)
        ensures
            account == self@.account,
    {
        self.account
    }

    /// The limits that the walk is run with.
    pub fn config(&self) -> (config: ResolverConfig)
        ensures
            config == self@.config,
    {
        self.config
    }

    /// The number of pages asked for so far, the awaited one included.
    pub fn pages_fetched(&self) -> (count: usize)
        ensures
            count == self@.pages_fetched,
            1 <= count <= self@.config.max_pages,
    {
        proof {
            use_type_invariant(self);
        }
        self.pages_fetched
    }
}

} // verus!
