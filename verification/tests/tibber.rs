use energy_monitor::dto::{Decimal, PriceLevel};
use energy_monitor::gql::{self, CurrentPrice, PriceInfo, PriceInfoNode, Subscription, Viewer};
use energy_monitor::tibber::{
    classify_graphql_response, to_price_information, Config, CycleAction, FetchOutcome,
    PriceCycle, Session, TibberLoaderError,
};

fn config() -> Config {
    Config::new("https://example.invalid/gql", Some("SECRET-REDACTED".to_string())).unwrap()
}

fn current(total: Option<i64>, energy: Option<i64>, tax: Option<i64>) -> CurrentPrice {
    CurrentPrice {
        total: total.map(|h| Decimal { hundredths: h }),
        energy: energy.map(|h| Decimal { hundredths: h }),
        tax: tax.map(|h| Decimal { hundredths: h }),
        starts_at: Some("2024-05-01T12:00:00+02:00".to_string()),
        currency: "EUR".to_string(),
        level: Some(gql::PriceLevel::Normal),
    }
}

fn price_info() -> PriceInfo {
    PriceInfo::new(current(Some(32), Some(20), Some(12))).unwrap()
}

#[test]
fn config_requires_a_token() {
    assert_eq!(
        Config::new("u", None).unwrap_err(),
        TibberLoaderError::TokenMissing
    );
    assert_eq!(
        Config::new("u", Some(String::new())).unwrap_err(),
        TibberLoaderError::TokenMissing
    );
    assert!(Config::new("u", Some("t".to_string())).is_ok());
}

#[test]
fn session_requires_exactly_one_home() {
    let viewer = Viewer {
        login: Some("me".to_string()),
        homes: vec![None, Some("home-1".to_string()), None],
    };
    let s = Session::new(config(), viewer).unwrap();
    assert_eq!(s.user_id, "me");
    assert_eq!(s.home_id.0, "home-1");

    let none = Viewer {
        login: Some("me".to_string()),
        homes: vec![None],
    };
    assert_eq!(
        Session::new(config(), none).unwrap_err(),
        TibberLoaderError::OnlyOneHomeSupported
    );

    let two = Viewer {
        login: Some("me".to_string()),
        homes: vec![Some("a".to_string()), Some("b".to_string())],
    };
    assert_eq!(
        Session::new(config(), two).unwrap_err(),
        TibberLoaderError::OnlyOneHomeSupported
    );
}

#[test]
fn session_requires_a_login() {
    let viewer = Viewer {
        login: None,
        homes: vec![Some("home-1".to_string())],
    };
    assert_eq!(
        Session::new(config(), viewer).unwrap_err(),
        TibberLoaderError::MissingUserId
    );
}

fn session() -> Session {
    Session::new(
        config(),
        Viewer {
            login: Some("me".to_string()),
            homes: vec![Some("home-1".to_string())],
        },
    )
    .unwrap()
}

#[test]
fn price_walk_reports_each_missing_layer() {
    let s = session();
    assert_eq!(
        s.get_current_price(gql::Price { current_subscription: None }).unwrap_err(),
        TibberLoaderError::NoSubscription
    );
    assert_eq!(
        s.get_current_price(gql::Price {
            current_subscription: Some(Subscription { price_info: None })
        })
        .unwrap_err(),
        TibberLoaderError::NoPriceInfo
    );
    assert_eq!(
        s.get_current_price(gql::Price {
            current_subscription: Some(Subscription {
                price_info: Some(PriceInfoNode { current: None })
            })
        })
        .unwrap_err(),
        TibberLoaderError::NoCurrentPrice
    );
}

#[test]
fn price_walk_normalizes_a_full_response() {
    let s = session();
    let p = s
        .get_current_price(gql::Price {
            current_subscription: Some(Subscription {
                price_info: Some(PriceInfoNode {
                    current: Some(current(Some(32), Some(20), Some(12))),
                }),
            }),
        })
        .unwrap()
        .unwrap();
    assert_eq!(p.total, Decimal { hundredths: 32 });
    assert_eq!(p.currency, "EUR");
}

#[test]
fn price_info_fills_missing_parts_from_the_total() {
    let p = PriceInfo::new(current(Some(100), Some(70), None)).unwrap();
    assert_eq!(p.energy, Decimal { hundredths: 70 });
    assert_eq!(p.tax, Decimal { hundredths: 30 });

    let p = PriceInfo::new(current(Some(100), None, Some(30))).unwrap();
    assert_eq!(p.energy, Decimal { hundredths: 70 });
    assert_eq!(p.tax, Decimal { hundredths: 30 });

    let p = PriceInfo::new(current(Some(100), None, None)).unwrap();
    assert_eq!(p.energy, Decimal { hundredths: 100 });
    assert_eq!(p.tax, Decimal { hundredths: 0 });
}

#[test]
fn price_info_requires_total_and_valid_start_time() {
    assert!(PriceInfo::new(current(None, Some(1), Some(1))).is_none());

    let mut c = current(Some(100), None, None);
    c.starts_at = None;
    assert!(PriceInfo::new(c).is_none());

    let mut c = current(Some(100), None, None);
    c.starts_at = Some("not a date".to_string());
    assert!(PriceInfo::new(c).is_none());
}

#[test]
fn classification_of_graphql_responses() {
    let r: Result<u32, _> =
        classify_graphql_response(Some(vec!["you are Not Authorized here".to_string()]), None);
    assert_eq!(r.unwrap_err(), TibberLoaderError::Unauthorized);

    let r: Result<u32, _> = classify_graphql_response(Some(vec!["boom".to_string()]), Some(7));
    assert_eq!(r.unwrap_err(), TibberLoaderError::GraphQLError("boom".to_string()));

    let r: Result<u32, _> = classify_graphql_response(None, Some(7));
    assert_eq!(r.unwrap(), 7);

    let r: Result<u32, _> = classify_graphql_response(None, None);
    assert_eq!(r.unwrap_err(), TibberLoaderError::MissingResponseData);
}

#[test]
fn unknown_levels_normalize_to_none() {
    let mut p = price_info();
    p.level = gql::PriceLevel::Other("WEIRD".to_string());
    assert_eq!(to_price_information(&p).level, PriceLevel::NoneLevel);
    p.level = gql::PriceLevel::NoneLevel;
    assert_eq!(to_price_information(&p).level, PriceLevel::NoneLevel);
    p.level = gql::PriceLevel::VeryExpensive;
    assert_eq!(to_price_information(&p).level, PriceLevel::VeryExpensive);
}

#[test]
fn three_failures_end_the_cycle_without_publish() {
    let mut cycle = PriceCycle::new();
    assert!(matches!(
        cycle.on_outcome(FetchOutcome::RequestFailed),
        CycleAction::Retry(60)
    ));
    assert!(matches!(
        cycle.on_outcome(FetchOutcome::NoPrice),
        CycleAction::Retry(60)
    ));
    assert!(matches!(
        cycle.on_outcome(FetchOutcome::RequestFailed),
        CycleAction::GiveUp
    ));

    // the next scheduled tick starts a fresh, independent cycle
    let mut fresh = PriceCycle::new();
    match fresh.on_outcome(FetchOutcome::Price(price_info())) {
        CycleAction::Publish(p) => {
            assert_eq!(p.total, Decimal { hundredths: 32 });
            assert_eq!(p.level, PriceLevel::Normal);
        }
        _ => panic!("a fetched price must be published"),
    }
}
