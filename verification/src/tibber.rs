//! The price acquisition pipeline's decisions: configuration validity,
//! session establishment over the account query, classification of query
//! responses, normalization onto the bus types, and the bounded retry
//! policy. The HTTP calls themselves are the caller's business; every
//! decision on their results is made and verified here.
use vstd::prelude::*;

use crate::dto::{PriceInformation, PriceLevel};
use crate::gql::{self, PriceInfo, Viewer};
use crate::json::match_lit;

verus! {

/// Failures of the price pipeline. `TokenMissing` is fatal at process
/// startup; everything else fails one acquisition cycle.
#[derive(PartialEq, Debug, Clone)]
pub enum TibberLoaderError {
    /// The API token is missing or empty.
    TokenMissing,
    /// The API rejected the token.
    Unauthorized,
    /// A credential could not be carried as an HTTP header value.
    InvalidHeader,
    /// The query response carried neither data nor errors.
    MissingResponseData,
    /// The account resolves to zero or several homes.
    OnlyOneHomeSupported,
    /// The query failed with an error message.
    GraphQLError(String),
    /// The HTTP request itself failed.
    FetchError,
    /// The home has no subscription.
    NoSubscription,
    /// The subscription has no price information.
    NoPriceInfo,
    /// The price information has no current entry.
    NoCurrentPrice,
    /// The account query carried no login name.
    MissingUserId,
}

/// Identifier of a house / home.
#[derive(PartialEq, Debug, Clone)]
pub struct HomeId(pub String);

/// Configuration of the price source: bearer token and endpoint.
#[derive(PartialEq, Debug, Clone)]
pub struct Config {
    pub token: String,
    pub url: String,
}

impl Config {
    /// Accepts the configuration exactly when a non-empty token is at
    /// hand; a missing or empty token is fatal for the process.
    pub fn new(url: &str, token: Option<String>) -> (r: Result<Config, TibberLoaderError>)
        ensures
            match r {
                Ok(c) => {
                    &&& token matches Some(t) && t@ == c.token@
                    &&& c.token@.len() > 0
                    &&& c.url@ == url@
                },
                Err(e) => {
                    &&& e == TibberLoaderError::TokenMissing
                    &&& (token matches Some(t) ==> t@.len() == 0)
                },
            },
    {
        match token {
            Some(t) => {
                if t.as_str().unicode_len() == 0 {
                    Err(TibberLoaderError::TokenMissing)
                } else {
                    Ok(Config { token: t, url: url.to_owned() })
                }
            },
            Option::None => Err(TibberLoaderError::TokenMissing),
        }
    }
}

/// The home identifiers an account query yields, absent entries skipped.
pub open spec fn spec_homes(homes: Seq<Option<Seq<char>>>) -> Seq<Seq<char>>
    decreases homes.len(),
{
    if homes.len() == 0 {
        Seq::empty()
    } else {
        match homes[0] {
            Some(h) => seq![h] + spec_homes(homes.drop_first()),
            Option::None => spec_homes(homes.drop_first()),
        }
    }
}

/// One acquisition cycle's session: authenticated identity and the single
/// home it works on. Created fresh each cycle, never cached.
#[derive(PartialEq, Debug, Clone)]
pub struct Session {
    pub url: String,
    pub user_id: String,
    pub home_id: HomeId,
}

impl Session {
    /// Resolves identity from the account query: exactly one home must
    /// exist and the login name must be present; anything else fails the
    /// cycle with a typed, non-retried error.
    pub fn new(config: Config, viewer: Viewer) -> (r: Result<Session, TibberLoaderError>)
        ensures
            match r {
                Ok(s) => {
                    &&& spec_homes(viewer.homes.deep_view()).len() == 1
                    &&& viewer.login matches Some(l) && l@ == s.user_id@
                    &&& s.home_id.0@ == spec_homes(viewer.homes.deep_view())[0]
                    &&& s.url@ == config.url@
                },
                Err(e) => {
                    &&& (e == TibberLoaderError::OnlyOneHomeSupported || e
                        == TibberLoaderError::MissingUserId)
                    &&& (e == TibberLoaderError::OnlyOneHomeSupported <==> spec_homes(
                        viewer.homes.deep_view(),
                    ).len() != 1)
                    &&& (e == TibberLoaderError::MissingUserId ==> viewer.login is None)
                },
            },
    {
        let ghost hview = viewer.homes.deep_view();
        let mut homes: Vec<String> = Vec::new();
        let mut i: usize = 0;
        proof {
            assert(hview.len() == viewer.homes@.len());
            assert(hview.skip(0) =~= hview);
        }
        while i < viewer.homes.len()
            invariant
                0 <= i <= viewer.homes@.len(),
                hview == viewer.homes.deep_view(),
                hview.len() == viewer.homes@.len(),
                forall|j: int|
                    0 <= j < hview.len() ==> hview[j] == #[trigger] viewer.homes@[j].deep_view(),
                spec_homes(hview) == homes.deep_view() + spec_homes(hview.skip(i as int)),
            decreases viewer.homes@.len() - i,
        {
            proof {
                assert(hview.skip(i as int)[0] == hview[i as int]);
                assert(hview.skip(i as int).drop_first() =~= hview.skip(i + 1));
            }
            let ghost old_homes = homes.deep_view();
            match &viewer.homes[i] {
                Some(h) => {
                    let hc: String = h.clone();
                    homes.push(hc);
                    proof {
                        assert(homes.deep_view() =~= old_homes + seq![h@]);
                        assert(old_homes + seq![h@] + spec_homes(hview.skip(i + 1)) =~= old_homes
                            + (seq![h@] + spec_homes(hview.skip(i + 1))));
                    }
                },
                Option::None => {},
            }
            i += 1;
        }
        proof {
            assert(hview.skip(viewer.homes@.len() as int) =~= Seq::<Option<Seq<char>>>::empty());
            assert(homes.deep_view() + spec_homes(hview.skip(viewer.homes@.len() as int))
                =~= homes.deep_view());
            assert(homes.deep_view().len() == homes@.len());
        }
        if homes.len() != 1 {
            return Err(TibberLoaderError::OnlyOneHomeSupported);
        }
        let home = match homes.pop() {
            Some(h) => h,
            Option::None => {
                return Err(TibberLoaderError::OnlyOneHomeSupported);
            },
        };
        match viewer.login {
            Some(login) => {
                proof {
                    assert(home@ == spec_homes(hview)[0]);
                }
                Ok(Session { url: config.url, user_id: login, home_id: HomeId(home) })
            },
            Option::None => Err(TibberLoaderError::MissingUserId),
        }
    }

    /// Walks the price query response down to its current-price node and
    /// normalizes it; each missing layer fails the cycle with its own
    /// error. A response whose node lacks a total or a valid start time
    /// yields no price (`Ok(None)`), which the caller treats as "no price
    /// available".
    pub fn get_current_price(&self, price: gql::Price) -> (r: Result<
        Option<PriceInfo>,
        TibberLoaderError,
    >)
        requires
            price.current_subscription matches Some(s) ==> (s.price_info matches Some(pi)
                ==> (pi.current matches Some(c) ==> c.wf())),
        ensures
            match r {
                Ok(p) => {
                    &&& price.current_subscription matches Some(s)
                    &&& s.price_info matches Some(pi)
                    &&& pi.current matches Some(c)
                    &&& p == gql::spec_price_info(c)
                },
                Err(e) => {
                    &&& (e == TibberLoaderError::NoSubscription <==> price.current_subscription
                        is None)
                    &&& (e == TibberLoaderError::NoPriceInfo <==> (
                    price.current_subscription matches Some(s) && s.price_info is None))
                    &&& (e == TibberLoaderError::NoCurrentPrice <==> (
                    price.current_subscription matches Some(s) && s.price_info matches Some(pi)
                        && pi.current is None))
                    &&& (e == TibberLoaderError::NoSubscription || e
                        == TibberLoaderError::NoPriceInfo || e == TibberLoaderError::NoCurrentPrice)
                },
            },
    {
        let sub = match price.current_subscription {
            Some(s) => s,
            Option::None => {
                return Err(TibberLoaderError::NoSubscription);
            },
        };
        let pi = match sub.price_info {
            Some(pi) => pi,
            Option::None => {
                return Err(TibberLoaderError::NoPriceInfo);
            },
        };
        let current = match pi.current {
            Some(c) => c,
            Option::None => {
                return Err(TibberLoaderError::NoCurrentPrice);
            },
        };
        Ok(PriceInfo::new(current))
    }
}


/// ASCII lowercasing of bytes: the letters A..Z map to a..z, everything
/// else stands.
pub open spec fn ascii_lower(b: Seq<u8>) -> Seq<u8> {
    b.map_values(|x: u8| if 65 <= x <= 90 { (x + 32) as u8 } else { x })
}

/// Whether `needle` occurs as a contiguous run inside `hay`.
pub open spec fn contains_sub(hay: Seq<u8>, needle: Seq<u8>) -> bool {
    exists|i: int|
        0 <= i <= hay.len() - needle.len() && #[trigger] hay.subrange(i, i + needle.len() as int)
            == needle
}

/// The bytes of `not authorized`.
pub open spec fn needle_not_authorized() -> Seq<u8> {
    seq![110u8, 111u8, 116u8, 32u8, 97u8, 117u8, 116u8, 104u8, 111u8, 114u8, 105u8, 122u8, 101u8, 100u8]
}

fn needle_not_authorized_v() -> (r: Vec<u8>)
    ensures
        r@ == needle_not_authorized(),
{
    let r: Vec<u8> = vec![110u8, 111u8, 116u8, 32u8, 97u8, 117u8, 116u8, 104u8, 111u8, 114u8, 105u8, 122u8, 101u8, 100u8];
    proof {
        assert(r@ =~= needle_not_authorized());
    }
    r
}

/// Whether an error message names an authorization failure: its ASCII
/// lowercasing contains `not authorized`.
pub open spec fn spec_is_unauthorized(msg: Seq<char>) -> bool {
    contains_sub(ascii_lower(vstd::utf8::encode_utf8(msg)), needle_not_authorized())
}

/// Case-insensitive (ASCII) check for `not authorized` in a message.
pub fn is_unauthorized(msg: &str) -> (r: bool)
    ensures
        r == spec_is_unauthorized(msg@),
{
    let bytes = msg.as_bytes();
    let mut lower: Vec<u8> = Vec::new();
    let mut i: usize = 0;
    while i < bytes.len()
        invariant
            0 <= i <= bytes@.len(),
            lower@.len() == i,
            forall|j: int|
                0 <= j < i ==> lower@[j] == (if 65 <= bytes@[j] <= 90 {
                    (bytes@[j] + 32) as u8
                } else {
                    bytes@[j]
                }),
        decreases bytes@.len() - i,
    {
        let x = bytes[i];
        if 65 <= x && x <= 90 {
            lower.push(x + 32);
        } else {
            lower.push(x);
        }
        i += 1;
    }
    proof {
        assert(lower@ =~= ascii_lower(bytes@));
        assert(bytes@ == vstd::utf8::encode_utf8(msg@));
    }
    let needle = needle_not_authorized_v();
    let n = lower.len();
    let m = needle.len();
    if n < m {
        proof {
            assert(!contains_sub(lower@, needle@));
        }
        return false;
    }
    let mut p: usize = 0;
    while p <= n - m
        invariant
            0 <= p <= n - m + 1,
            n == lower@.len(),
            m == needle@.len(),
            m == 14,
            m <= n,
            needle@ == needle_not_authorized(),
            lower@ == ascii_lower(vstd::utf8::encode_utf8(msg@)),
            forall|i2: int|
                0 <= i2 < p ==> #[trigger] lower@.subrange(i2, i2 + needle@.len() as int)
                    != needle@,
        decreases n - m + 1 - p,
    {
        if match_lit(lower.as_slice(), p, needle.as_slice()) {
            return true;
        }
        p += 1;
    }
    proof {
        assert(!contains_sub(lower@, needle@));
    }
    false
}

/// Classifies a query response: an error message naming authorization
/// failure is an authorization error, any other error message is carried
/// as is; without errors, data must be present. An errors list, when the
/// response has one, carries at least one message; the caller drops an
/// empty list before calling.
pub fn classify_graphql_response<D>(errors: Option<Vec<String>>, data: Option<D>) -> (r: Result<
    D,
    TibberLoaderError,
>)
    requires
        errors matches Some(es) ==> es@.len() > 0,
    ensures
        match r {
            Ok(d) => errors is None && data == Some(d),
            Err(e) => match errors {
                Some(es) => {
                    &&& (e == TibberLoaderError::Unauthorized <==> spec_is_unauthorized(
                        es.deep_view()[0],
                    ))
                    &&& (!spec_is_unauthorized(es.deep_view()[0]) ==> e
                        == TibberLoaderError::GraphQLError(es[0]))
                },
                Option::None => data is None && e == TibberLoaderError::MissingResponseData,
            },
        },
{
    match errors {
        Some(mut es) => {
            proof {
                assert(es.deep_view()[0] == es@[0]@);
            }
            let first = es.remove(0);
            if is_unauthorized(first.as_str()) {
                Err(TibberLoaderError::Unauthorized)
            } else {
                Err(TibberLoaderError::GraphQLError(first))
            }
        },
        Option::None => match data {
            Some(d) => Ok(d),
            Option::None => Err(TibberLoaderError::MissingResponseData),
        },
    }
}

/// The bus-level price level a normalized upstream level maps to:
/// unrecognized labels and missing data map to the missing-data level.
pub open spec fn spec_normalize_level(level: gql::PriceLevel) -> PriceLevel {
    match level {
        gql::PriceLevel::Cheap => PriceLevel::Cheap,
        gql::PriceLevel::Expensive => PriceLevel::Expensive,
        gql::PriceLevel::Normal => PriceLevel::Normal,
        gql::PriceLevel::VeryCheap => PriceLevel::VeryCheap,
        gql::PriceLevel::VeryExpensive => PriceLevel::VeryExpensive,
        gql::PriceLevel::Other(_) => PriceLevel::NoneLevel,
        gql::PriceLevel::NoneLevel => PriceLevel::NoneLevel,
    }
}

/// The bus payload a normalized price yields.
pub open spec fn spec_to_price_information(p: PriceInfo) -> PriceInformation {
    PriceInformation { total: p.total, level: spec_normalize_level(p.level) }
}

/// Builds the bus payload for a fetched price: the total as is, the level
/// normalized into the closed bus enumeration.
pub fn to_price_information(p: &PriceInfo) -> (r: PriceInformation)
    ensures
        r == spec_to_price_information(*p),
{
    let level = match &p.level {
        gql::PriceLevel::Cheap => PriceLevel::Cheap,
        gql::PriceLevel::Expensive => PriceLevel::Expensive,
        gql::PriceLevel::Normal => PriceLevel::Normal,
        gql::PriceLevel::VeryCheap => PriceLevel::VeryCheap,
        gql::PriceLevel::VeryExpensive => PriceLevel::VeryExpensive,
        gql::PriceLevel::Other(_) => PriceLevel::NoneLevel,
        gql::PriceLevel::NoneLevel => PriceLevel::NoneLevel,
    };
    PriceInformation { total: p.total, level }
}

/// At most this many attempts to fetch the current price in one cycle.
pub const MAX_PRICE_ATTEMPTS: u8 = 3;

/// Seconds between two attempts within one cycle.
pub const PRICE_RETRY_DELAY_SECS: u64 = 60;

/// What one fetch attempt came back with.
pub enum FetchOutcome {
    /// The source answered with a price.
    Price(PriceInfo),
    /// The source answered, but no price is available.
    NoPrice,
    /// The request errored.
    RequestFailed,
}

/// What the cycle does next.
pub enum CycleAction {
    /// Publish this payload on the price topic; the cycle is done.
    Publish(PriceInformation),
    /// Wait this many seconds, then attempt again.
    Retry(u64),
    /// The cycle ends in failure; the next scheduled tick starts afresh.
    GiveUp,
}

/// The retry decision: a price is published at once; otherwise the cycle
/// retries after the fixed delay until its attempts are spent.
pub open spec fn spec_next_action(attempts_before: int, outcome: FetchOutcome) -> CycleAction {
    match outcome {
        FetchOutcome::Price(p) => CycleAction::Publish(spec_to_price_information(p)),
        _ => if attempts_before + 1 >= MAX_PRICE_ATTEMPTS as int {
            CycleAction::GiveUp
        } else {
            CycleAction::Retry(PRICE_RETRY_DELAY_SECS)
        },
    }
}

/// One price acquisition cycle's retry state. Each cycle starts at zero
/// attempts; nothing is retained across cycles.
pub struct PriceCycle {
    pub attempts: u8,
}

impl PriceCycle {
    /// A fresh cycle: no attempt has been made.
    pub fn new() -> (c: PriceCycle)
        ensures
            c.attempts == 0,
    {
        PriceCycle { attempts: 0 }
    }

    /// Feeds one attempt's outcome into the cycle and decides what
    /// happens next. A failed or empty attempt is counted; a price ends
    /// the cycle in a publish.
    pub fn on_outcome(&mut self, outcome: FetchOutcome) -> (a: CycleAction)
        requires
            old(self).attempts < MAX_PRICE_ATTEMPTS,
        ensures
            a == spec_next_action(old(self).attempts as int, outcome),
            final(self).attempts == match outcome {
                FetchOutcome::Price(_) => old(self).attempts as int,
                _ => old(self).attempts + 1,
            },
            final(self).attempts <= MAX_PRICE_ATTEMPTS,
    {
        match outcome {
            FetchOutcome::Price(p) => CycleAction::Publish(to_price_information(&p)),
            _ => {
                self.attempts = self.attempts + 1;
                if self.attempts >= MAX_PRICE_ATTEMPTS {
                    CycleAction::GiveUp
                } else {
                    CycleAction::Retry(PRICE_RETRY_DELAY_SECS)
                }
            },
        }
    }
}

/// Bounded retry: a cycle that meets three attempts without a price waits
/// the fixed delay after the first and the second, gives up after the
/// third, and never publishes; a following cycle starts at zero attempts
/// and is not affected.
pub proof fn lemma_three_failures_end_cycle(o1: FetchOutcome, o2: FetchOutcome, o3: FetchOutcome)
    requires
        !(o1 matches FetchOutcome::Price(_)),
        !(o2 matches FetchOutcome::Price(_)),
        !(o3 matches FetchOutcome::Price(_)),
    ensures
        spec_next_action(0, o1) == CycleAction::Retry(PRICE_RETRY_DELAY_SECS),
        spec_next_action(1, o2) == CycleAction::Retry(PRICE_RETRY_DELAY_SECS),
        spec_next_action(2, o3) == CycleAction::GiveUp,
        !(spec_next_action(0, o1) matches CycleAction::Publish(_)),
        !(spec_next_action(1, o2) matches CycleAction::Publish(_)),
        !(spec_next_action(2, o3) matches CycleAction::Publish(_)),
{
}

} // verus!
