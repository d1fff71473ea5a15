use idevice::notification_proxy::{
    MobileBackup2Notification, NotificationError, NotificationProxyClient,
    BACKUP_DOMAIN_CHANGED, LOCAL_AUTHENTICATION_UI_DISMISSED, LOCAL_AUTHENTICATION_UI_PRESENTED,
    MOBILEBACKUP2_NOTIFICATIONS, SYNC_CANCEL_REQUEST, SYNC_WILL_START,
};
use idevice::plist_model::PlistValue;

fn entry(k: &str, v: &str) -> (String, PlistValue) {
    (k.to_string(), PlistValue::String(v.to_string()))
}

#[test]
fn names_become_backup_events() {
    assert_eq!(
        MobileBackup2Notification::from_name(SYNC_CANCEL_REQUEST),
        Some(MobileBackup2Notification::CancelRequested)
    );
    assert_eq!(
        MobileBackup2Notification::from_name(LOCAL_AUTHENTICATION_UI_PRESENTED),
        Some(MobileBackup2Notification::PasscodeRequested)
    );
    assert_eq!(
        MobileBackup2Notification::from_name(LOCAL_AUTHENTICATION_UI_DISMISSED),
        Some(MobileBackup2Notification::PasscodeRequestDismissed)
    );
    assert_eq!(
        MobileBackup2Notification::from_name(BACKUP_DOMAIN_CHANGED),
        Some(MobileBackup2Notification::BackupDomainChanged)
    );
    assert_eq!(MobileBackup2Notification::from_name(SYNC_WILL_START), None);
    assert_eq!(MobileBackup2Notification::from_name(""), None);
    for name in MOBILEBACKUP2_NOTIFICATIONS {
        assert!(MobileBackup2Notification::from_name(name).is_some());
    }
}

#[test]
fn builds_requests() {
    let client = NotificationProxyClient::new();
    assert_eq!(
        client.post_notification_request("n"),
        PlistValue::Dictionary(vec![entry("Command", "PostNotification"), entry("Name", "n")])
    );
    assert_eq!(
        client.shutdown_request(),
        PlistValue::Dictionary(vec![entry("Command", "Shutdown")])
    );
    let all = client.observe_notifications_requests(&["a", "b"]);
    assert_eq!(all.len(), 2);
    assert_eq!(
        all[1],
        PlistValue::Dictionary(vec![entry("Command", "ObserveNotification"), entry("Name", "b")])
    );
}

#[test]
fn reads_notifications() {
    let client = NotificationProxyClient::new();
    let relay = vec![entry("Command", "RelayNotification"), entry("Name", "x.y")];
    assert_eq!(client.read_notification(&relay), Ok("x.y".to_string()));
    let nameless = vec![entry("Command", "RelayNotification")];
    assert_eq!(client.read_notification(&nameless), Err(NotificationError::MissingName));
    let death = vec![entry("Command", "ProxyDeath")];
    assert_eq!(client.read_notification(&death), Err(NotificationError::ProxyDeath));
    let other = vec![entry("Command", "Other")];
    assert_eq!(client.read_notification(&other), Err(NotificationError::UnexpectedCommand));
    let not_string = vec![("Command".to_string(), PlistValue::Boolean(true))];
    assert_eq!(client.read_notification(&not_string), Err(NotificationError::UnexpectedCommand));
}

#[test]
fn notification_proxy_service_names() {
    assert_eq!(
        NotificationProxyClient::service_name(),
        "com.apple.mobile.notification_proxy"
    );
    assert_eq!(
        NotificationProxyClient::rsd_service_name(),
        "com.apple.mobile.notification_proxy.shim.remote"
    );
}
