use make_short_url::redis_conn::{
    redis_psub_expiry, redis_url, setup_redis, str_contains, ttl_for_build, Command, Reply,
    SetupPhase, DEBUG_TTL, ID_LIST, RELEASE_TTL, URL_ID,
};

fn s(x: &str) -> String {
    x.to_string()
}

#[test]
fn redis_url_joins_credentials_and_endpoint() {
    assert_eq!(
        redis_url(),
        "redis://Syed:Uncertainty320@@@redis-13989.c329.us-east4-1.gce.cloud.redislabs.com:13989"
    );
}

#[test]
fn str_contains_finds_characters() {
    assert!(str_contains("Ex", 'E'));
    assert!(str_contains("Ex", 'x'));
    assert!(!str_contains("AKE", 'x'));
    assert!(!str_contains("", 'E'));
    assert!(str_contains("http://a", '/'));
}

#[test]
fn setup_seeds_missing_list_and_enables_expiry_events() {
    let mut st = setup_redis();
    assert_eq!(st.pending(), Some(Command::SetNx { key: s(URL_ID), value: s("1") }));
    st.advance(Reply::Done);
    assert_eq!(st.pending(), Some(Command::Exists { key: s(ID_LIST) }));
    st.advance(Reply::Count(0));
    assert_eq!(st.pending(), Some(Command::LPush { key: s(ID_LIST), value: s("i0") }));
    st.advance(Reply::Done);
    assert_eq!(
        st.pending(),
        Some(Command::ConfigGet { param: s("notify-keyspace-events") })
    );
    st.advance(Reply::Pairs(vec![(s("notify-keyspace-events"), s(""))]));
    assert_eq!(
        st.pending(),
        Some(Command::ConfigSet { param: s("notify-keyspace-events"), value: s("Ex") })
    );
    st.advance(Reply::Done);
    assert_eq!(st.phase(), SetupPhase::Ready);
    assert_eq!(st.pending(), None);
}

#[test]
fn setup_skips_work_already_done() {
    let mut st = setup_redis();
    st.advance(Reply::Done);
    st.advance(Reply::Count(1));
    assert_eq!(st.phase(), SetupPhase::ReadNotifyConfig);
    st.advance(Reply::Pairs(vec![(s("notify-keyspace-events"), s("AKEx"))]));
    assert_eq!(st.phase(), SetupPhase::Ready);
    assert_eq!(st.pending(), None);
}

#[test]
fn setup_enables_events_when_one_class_missing() {
    let mut st = setup_redis();
    st.advance(Reply::Done);
    st.advance(Reply::Count(1));
    st.advance(Reply::Pairs(vec![(s("notify-keyspace-events"), s("AKE"))]));
    assert_eq!(st.phase(), SetupPhase::EnableExpiryEvents);
}

#[test]
fn setup_with_empty_config_reply_is_ready() {
    let mut st = setup_redis();
    st.advance(Reply::Done);
    st.advance(Reply::Count(1));
    st.advance(Reply::Pairs(vec![]));
    assert_eq!(st.phase(), SetupPhase::Ready);
}

#[test]
fn setup_ignores_unexpected_replies() {
    let mut st = setup_redis();
    st.advance(Reply::Count(3));
    assert_eq!(st.phase(), SetupPhase::CreateCounter);
    st.advance(Reply::Done);
    st.advance(Reply::Done);
    assert_eq!(st.phase(), SetupPhase::CheckFreeList);
}

#[test]
fn expired_codes_return_to_free_list() {
    assert_eq!(
        redis_psub_expiry("8M0kX"),
        Some(Command::RPush { key: s(ID_LIST), value: s("8M0kX") })
    );
}

#[test]
fn expired_urls_are_not_recycled() {
    assert_eq!(redis_psub_expiry("http://www.google.com"), None);
}

#[test]
fn second_setup_writes_nothing_new() {
    let mut st = setup_redis();
    st.advance(Reply::Done);
    st.advance(Reply::Count(1));
    assert_eq!(
        st.pending(),
        Some(Command::ConfigGet { param: s("notify-keyspace-events") })
    );
    st.advance(Reply::Pairs(vec![(s("notify-keyspace-events"), s("Ex"))]));
    assert_eq!(st.pending(), None);
}

#[test]
fn ttl_depends_on_build() {
    assert_eq!(ttl_for_build(true), DEBUG_TTL);
    assert_eq!(ttl_for_build(false), RELEASE_TTL);
    assert_eq!(RELEASE_TTL, 24 * 60 * 60 + 30);
    assert_eq!(DEBUG_TTL, 60);
}

#[test]
fn second_setup_with_other_full_setting_writes_nothing() {
    for value in ["AKEx", "xE", ""] {
        let mut st = setup_redis();
        st.advance(Reply::Done);
        st.advance(Reply::Count(1));
        let pairs = if value.is_empty() {
            vec![]
        } else {
            vec![(s("notify-keyspace-events"), s(value))]
        };
        st.advance(Reply::Pairs(pairs));
        assert_eq!(st.pending(), None);
    }
}
