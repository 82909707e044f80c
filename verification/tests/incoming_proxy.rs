use ics721_proxy::incoming::AllowListStore;
use ics721_proxy::incoming::IncomingProxyError;

#[test]
fn test_assert_origin() {
    let mut store = AllowListStore::new();
    let error = store.assert_origin("sender".to_string()).unwrap_err();
    assert_eq!(
        error,
        IncomingProxyError::UnauthorizedOrigin("sender".to_string())
    );

    store.initialize(Some("sender".to_string()), None, None);
    store.assert_origin("sender".to_string()).unwrap();
}

#[test]
fn test_assert_packet_data_channel() {
    let mut store = AllowListStore::new();
    let error = store.assert_channel("channel-1".to_string()).unwrap_err();
    assert_eq!(
        error,
        IncomingProxyError::UnauthorizedChannel("channel-1".to_string())
    );

    store.initialize(None, Some(vec!["channel-1".to_string()]), None);
    store.assert_channel("channel-1".to_string()).unwrap();
}

#[test]
fn test_assert_packet_class_id() {
    let mut store = AllowListStore::new();
    store.initialize(None, Some(vec!["channel-1".to_string()]), None);

    store.initialize(None, None, Some(vec!["class-0".to_string()]));
    store.assert_class_id("class-0".to_string()).unwrap();

    store.migrate(None, None, Some(vec!["class-1".to_string()]));
    let error = store.assert_class_id("class-0".to_string()).unwrap_err();
    assert_eq!(
        error,
        IncomingProxyError::UnauthorizedClassId("class-0".to_string())
    );
}

#[test]
fn origin_check_rejects_other_callers() {
    let mut store = AllowListStore::new();
    store.initialize(Some("origin".to_string()), None, None);
    let error = store.assert_origin("intruder".to_string()).unwrap_err();
    assert_eq!(
        error,
        IncomingProxyError::UnauthorizedOrigin("intruder".to_string())
    );
    store.assert_origin("origin".to_string()).unwrap();
}

#[test]
fn empty_class_list_admits_every_class() {
    let store = AllowListStore::new();
    store.assert_class_id("anything".to_string()).unwrap();
    store.assert_class_id(String::new()).unwrap();
}

#[test]
fn empty_channel_list_admits_no_channel() {
    let store = AllowListStore::new();
    assert_eq!(
        store.assert_channel("channel-0".to_string()).unwrap_err(),
        IncomingProxyError::UnauthorizedChannel("channel-0".to_string())
    );
}

#[test]
fn singleton_class_list_admits_only_that_class() {
    let mut store = AllowListStore::new();
    store.initialize(None, None, Some(vec!["class-7".to_string()]));
    store.assert_class_id("class-7".to_string()).unwrap();
    assert_eq!(
        store.assert_class_id("class-8".to_string()).unwrap_err(),
        IncomingProxyError::UnauthorizedClassId("class-8".to_string())
    );
}

#[test]
fn authorize_returns_first_failure() {
    let mut store = AllowListStore::new();
    // Nothing configured: the origin check fails first.
    let error = store
        .execute_ics721_receive_packet_msg(
            "sender".to_string(),
            "channel-0".to_string(),
            "class-0".to_string(),
        )
        .unwrap_err();
    assert_eq!(
        error,
        IncomingProxyError::UnauthorizedOrigin("sender".to_string())
    );

    // Origin passes; the channel check fails next.
    store.initialize(Some("sender".to_string()), None, None);
    let error = store
        .execute_ics721_receive_packet_msg(
            "sender".to_string(),
            "channel-0".to_string(),
            "class-0".to_string(),
        )
        .unwrap_err();
    assert_eq!(
        error,
        IncomingProxyError::UnauthorizedChannel("channel-0".to_string())
    );

    // Channel passes; a non-empty class list without the class fails last.
    store.initialize(None, Some(vec!["channel-0".to_string()]), None);
    store.initialize(None, None, Some(vec!["class-1".to_string()]));
    let error = store
        .execute_ics721_receive_packet_msg(
            "sender".to_string(),
            "channel-0".to_string(),
            "class-0".to_string(),
        )
        .unwrap_err();
    assert_eq!(
        error,
        IncomingProxyError::UnauthorizedClassId("class-0".to_string())
    );

    // Everything configured: the packet is authorized.
    store.initialize(None, None, Some(vec!["class-0".to_string()]));
    store
        .execute_ics721_receive_packet_msg(
            "sender".to_string(),
            "channel-0".to_string(),
            "class-0".to_string(),
        )
        .unwrap();
}

#[test]
fn migrate_replaces_where_initialize_adds() {
    let prior = vec!["c0".to_string(), "c1".to_string(), "c2".to_string()];

    let mut replaced = AllowListStore::new();
    replaced.initialize(None, Some(prior.clone()), None);
    replaced.migrate(None, Some(vec!["c1".to_string()]), None);
    assert_eq!(replaced.get_channels(None, None), vec!["c1".to_string()]);

    let mut added = AllowListStore::new();
    added.initialize(None, Some(prior), None);
    added.initialize(None, Some(vec!["c1".to_string()]), None);
    assert_eq!(
        added.get_channels(None, None),
        vec!["c0".to_string(), "c1".to_string(), "c2".to_string()]
    );
}

#[test]
fn migrate_leaves_absent_fields_untouched() {
    let mut store = AllowListStore::new();
    store.initialize(
        Some("origin".to_string()),
        Some(vec!["c0".to_string()]),
        Some(vec!["k0".to_string()]),
    );
    store.migrate(None, None, None);
    assert_eq!(store.get_origin(), Some("origin".to_string()));
    assert_eq!(store.get_channels(None, None), vec!["c0".to_string()]);
    assert_eq!(store.get_class_ids(None, None), vec!["k0".to_string()]);
}

#[test]
fn channels_page_in_ascending_order() {
    let mut store = AllowListStore::new();
    store.initialize(
        None,
        Some(vec!["b".to_string(), "c".to_string(), "a".to_string()]),
        None,
    );
    let first = store.get_channels(None, Some(2));
    assert_eq!(first, vec!["a".to_string(), "b".to_string()]);
    let second = store.get_channels(Some("b".to_string()), Some(2));
    assert_eq!(second, vec!["c".to_string()]);
}

#[test]
fn duplicate_keys_are_stored_once() {
    let mut store = AllowListStore::new();
    store.initialize(
        None,
        Some(vec!["a".to_string(), "a".to_string(), "b".to_string()]),
        None,
    );
    assert_eq!(
        store.get_channels(None, None),
        vec!["a".to_string(), "b".to_string()]
    );
}

#[test]
fn page_size_is_capped() {
    let mut store = AllowListStore::new();
    let mut keys: Vec<String> = Vec::new();
    for i in 0..40 {
        keys.push(format!("k{:02}", i));
    }
    store.initialize(None, Some(keys), None);
    // Requesting more than the cap, or nothing at all, yields a full page.
    assert_eq!(store.get_channels(None, Some(1000)).len(), 30);
    assert_eq!(store.get_channels(None, None).len(), 30);
    assert_eq!(store.get_channels(None, Some(7)).len(), 7);
}

#[test]
fn get_origin_reports_configuration() {
    let mut store = AllowListStore::new();
    assert_eq!(store.get_origin(), None);
    store.initialize(Some("first".to_string()), None, None);
    assert_eq!(store.get_origin(), Some("first".to_string()));
    store.migrate(Some("second".to_string()), None, None);
    assert_eq!(store.get_origin(), Some("second".to_string()));
}
