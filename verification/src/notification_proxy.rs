//! The notification proxy service: the requests that post and observe device notifications,
//! and what the client makes of the device's messages.
use vstd::prelude::*;

use crate::plist_model::{
    dict_get, dictionary_get, entries_model, lemma_dictionary_model, PlistModel, PlistValue,
};

verus! {

/// The device asked the host to cancel the active sync/backup operation.
pub const SYNC_CANCEL_REQUEST: &'static str = "com.apple.itunes-client.syncCancelRequest";

/// Local Authentication UI was shown on the device, normally to request its passcode.
pub const LOCAL_AUTHENTICATION_UI_PRESENTED: &'static str = "com.apple.LocalAuthentication.ui.presented";

/// Local Authentication UI was dismissed on the device.
pub const LOCAL_AUTHENTICATION_UI_DISMISSED: &'static str = "com.apple.LocalAuthentication.ui.dismissed";

/// The device backup encryption domain changed.
pub const BACKUP_DOMAIN_CHANGED: &'static str = "com.apple.mobile.backup.domain_changed";

/// Announces that an iTunes-style synchronization operation is about to start.
pub const SYNC_WILL_START: &'static str = "com.apple.itunes-mobdev.syncWillStart";

/// Requests ownership of the device's synchronization lock.
pub const SYNC_LOCK_REQUEST: &'static str = "com.apple.itunes-mobdev.syncLockRequest";

/// Announces that the synchronization lock has been acquired.
pub const SYNC_DID_START: &'static str = "com.apple.itunes-mobdev.syncDidStart";

/// Announces that the synchronization operation and lock have finished.
pub const SYNC_DID_FINISH: &'static str = "com.apple.itunes-mobdev.syncDidFinish";

/// Device notifications relevant to a MobileBackup2 operation.
#[derive(Debug, Clone, Copy, PartialEq, Eq, Structural)]
pub enum MobileBackup2Notification {
    CancelRequested,
    PasscodeRequested,
    PasscodeRequestDismissed,
    BackupDomainChanged,
}

/// The backup event that a notification name stands for.
pub open spec fn spec_from_name(name: Seq<char>) -> Option<MobileBackup2Notification> {
    if name == SYNC_CANCEL_REQUEST@ {
        Some(MobileBackup2Notification::CancelRequested)
    } else if name == LOCAL_AUTHENTICATION_UI_PRESENTED@ {
        Some(MobileBackup2Notification::PasscodeRequested)
    } else if name == LOCAL_AUTHENTICATION_UI_DISMISSED@ {
        Some(MobileBackup2Notification::PasscodeRequestDismissed)
    } else if name == BACKUP_DOMAIN_CHANGED@ {
        Some(MobileBackup2Notification::BackupDomainChanged)
    } else {
        None
    }
}

fn same_text(a: &str, b: &str) -> (r: bool)
    ensures
        r == (a@ == b@),
{
    a.to_owned() == b.to_owned()
}

impl MobileBackup2Notification {
    /// Converts a raw notification-proxy name into a backup event.
    pub fn from_name(name: &str) -> (r: Option<Self>)
        ensures
            r == spec_from_name(name@),
    {
        if same_text(name, SYNC_CANCEL_REQUEST) {
            Some(Self::CancelRequested)
        } else if same_text(name, LOCAL_AUTHENTICATION_UI_PRESENTED) {
            Some(Self::PasscodeRequested)
        } else if same_text(name, LOCAL_AUTHENTICATION_UI_DISMISSED) {
            Some(Self::PasscodeRequestDismissed)
        } else if same_text(name, BACKUP_DOMAIN_CHANGED) {
            Some(Self::BackupDomainChanged)
        } else {
            None
        }
    }
}

/// Notifications used by MobileBackup2 for cancellation and passcode UI state.
pub const MOBILEBACKUP2_NOTIFICATIONS: [&'static str; 4] = [
    SYNC_CANCEL_REQUEST,
    LOCAL_AUTHENTICATION_UI_PRESENTED,
    LOCAL_AUTHENTICATION_UI_DISMISSED,
    BACKUP_DOMAIN_CHANGED,
];

/// `from_name` recognises exactly the names in `MOBILEBACKUP2_NOTIFICATIONS`, and gives each
/// of them a backup event of its own: the sync-cancel request asks to cancel, the Local
/// Authentication UI being presented or dismissed is the passcode being requested or that
/// request being dismissed, and the backup-domain change is itself.
pub proof fn lemma_backup_notifications_recognised()
    ensures
        spec_from_name("com.apple.itunes-client.syncCancelRequest"@) == Some(
            MobileBackup2Notification::CancelRequested,
        ),
        spec_from_name("com.apple.LocalAuthentication.ui.presented"@) == Some(
            MobileBackup2Notification::PasscodeRequested,
        ),
        spec_from_name("com.apple.LocalAuthentication.ui.dismissed"@) == Some(
            MobileBackup2Notification::PasscodeRequestDismissed,
        ),
        spec_from_name("com.apple.mobile.backup.domain_changed"@) == Some(
            MobileBackup2Notification::BackupDomainChanged,
        ),
        forall|name: Seq<char>|
            #![trigger spec_from_name(name)]
            spec_from_name(name) is Some <==> exists|i: int|
                0 <= i < 4 && name == (#[trigger] MOBILEBACKUP2_NOTIFICATIONS@[i])@,
        forall|i: int, j: int|
            0 <= i < 4 && 0 <= j < 4 && i != j ==> spec_from_name(
                (#[trigger] MOBILEBACKUP2_NOTIFICATIONS@[i])@,
            ) != spec_from_name((#[trigger] MOBILEBACKUP2_NOTIFICATIONS@[j])@),
{
    reveal_strlit("com.apple.itunes-client.syncCancelRequest");
    reveal_strlit("com.apple.LocalAuthentication.ui.presented");
    reveal_strlit("com.apple.LocalAuthentication.ui.dismissed");
    reveal_strlit("com.apple.mobile.backup.domain_changed");
    let names = MOBILEBACKUP2_NOTIFICATIONS@;
    assert(names[0] == SYNC_CANCEL_REQUEST);
    assert(names[1] == LOCAL_AUTHENTICATION_UI_PRESENTED);
    assert(names[2] == LOCAL_AUTHENTICATION_UI_DISMISSED);
    assert(names[3] == BACKUP_DOMAIN_CHANGED);
    assert(SYNC_CANCEL_REQUEST@.len() == 41);
    assert(LOCAL_AUTHENTICATION_UI_PRESENTED@.len() == 42);
    assert(LOCAL_AUTHENTICATION_UI_DISMISSED@.len() == 42);
    assert(BACKUP_DOMAIN_CHANGED@.len() == 38);
    assert(LOCAL_AUTHENTICATION_UI_PRESENTED@[33] != LOCAL_AUTHENTICATION_UI_DISMISSED@[33]);
    assert forall|i: int| 0 <= i < 4 implies spec_from_name(
        (#[trigger] MOBILEBACKUP2_NOTIFICATIONS@[i])@,
    ) == Some(
        if i == 0 {
            MobileBackup2Notification::CancelRequested
        } else if i == 1 {
            MobileBackup2Notification::PasscodeRequested
        } else if i == 2 {
            MobileBackup2Notification::PasscodeRequestDismissed
        } else {
            MobileBackup2Notification::BackupDomainChanged
        },
    ) by {
        if i == 0 {
        } else if i == 1 {
        } else if i == 2 {
        } else {
        }
    }
    assert forall|name: Seq<char>| spec_from_name(name) is Some implies exists|i: int|
        0 <= i < 4 && name == (#[trigger] MOBILEBACKUP2_NOTIFICATIONS@[i])@ by {
        if name == SYNC_CANCEL_REQUEST@ {
            assert(name == names[0]@);
        } else if name == LOCAL_AUTHENTICATION_UI_PRESENTED@ {
            assert(name == names[1]@);
        } else if name == LOCAL_AUTHENTICATION_UI_DISMISSED@ {
            assert(name == names[2]@);
        } else {
            assert(name == names[3]@);
        }
    }
}

/// Why a message from the proxy was not a notification.
#[derive(Debug, Clone, Copy, PartialEq, Eq)]
pub enum NotificationError {
    /// The proxy announced that it is going away.
    ProxyDeath,
    /// A relayed notification came without its name.
    MissingName,
    /// The message carried some other command, or none.
    UnexpectedCommand,
}

/// The string value of the first entry with key `k`, when that value is a string.
pub open spec fn dict_get_string(es: Seq<(Seq<char>, PlistModel)>, k: Seq<char>) -> Option<Seq<char>> {
    match dict_get(es, k) {
        Some(PlistModel::String(s)) => Some(s),
        _ => None,
    }
}

/// What a message from the proxy means: the name of a relayed notification, or why there is
/// none.
pub open spec fn spec_notification(es: Seq<(Seq<char>, PlistModel)>) -> Result<Seq<char>, NotificationError> {
    let command = dict_get_string(es, "Command"@);
    if command == Some("RelayNotification"@) {
        match dict_get_string(es, "Name"@) {
            Some(name) => Ok(name),
            None => Err(NotificationError::MissingName),
        }
    } else if command == Some("ProxyDeath"@) {
        Err(NotificationError::ProxyDeath)
    } else {
        Err(NotificationError::UnexpectedCommand)
    }
}

/// What a message from the proxy means, by its `Command` string: `RelayNotification` gives the
/// `Name` string (an error when there is none), `ProxyDeath` reports the proxy's death, and
/// anything else, or no command string at all, is unexpected.
pub proof fn lemma_notification_reading(es: Seq<(Seq<char>, PlistModel)>)
    ensures
        ({
            let command = dict_get(es, "Command"@);
            let name = dict_get(es, "Name"@);
            let r = spec_notification(es);
            &&& command == Some(PlistModel::String("RelayNotification"@)) ==> match name {
                Some(PlistModel::String(n)) => r == Ok::<Seq<char>, NotificationError>(n),
                _ => r == Err::<Seq<char>, NotificationError>(NotificationError::MissingName),
            }
            &&& command == Some(PlistModel::String("ProxyDeath"@)) ==> r == Err::<
                Seq<char>,
                NotificationError,
            >(NotificationError::ProxyDeath)
            &&& command != Some(PlistModel::String("RelayNotification"@)) && command != Some(
                PlistModel::String("ProxyDeath"@),
            ) ==> r == Err::<Seq<char>, NotificationError>(NotificationError::UnexpectedCommand)
        }),
{
    reveal_strlit("RelayNotification");
    reveal_strlit("ProxyDeath");
    assert("RelayNotification"@.len() != "ProxyDeath"@.len());
}

fn get_string(entries: &[(String, PlistValue)], key: &str) -> (r: Option<String>)
    ensures
        match dict_get_string(entries_model(entries@), key@) {
            Some(s) => r matches Some(x) && x@ == s,
            None => r is None,
        },
{
    match dictionary_get(entries, key) {
        Some(PlistValue::String(s)) => Some(s.clone()),
        _ => None,
    }
}

/// Client for the notification proxy service: it builds the requests and reads the messages
/// that travel over the caller's connection.
#[derive(Debug)]
pub struct NotificationProxyClient {}

/// A request with the given command and, when there is one, the given name.
pub open spec fn request_model(command: Seq<char>, name: Option<Seq<char>>) -> PlistModel {
    match name {
        Some(n) => PlistModel::Dictionary(
            seq![("Command"@, PlistModel::String(command)), ("Name"@, PlistModel::String(n))],
        ),
        None => PlistModel::Dictionary(seq![("Command"@, PlistModel::String(command))]),
    }
}

fn request(command: &str, name: Option<String>) -> (r: PlistValue)
    ensures
        r@ == request_model(
            command@,
            match name {
                Some(n) => Some(n@),
                None => None,
            },
        ),
{
    let mut entries: Vec<(String, PlistValue)> = Vec::new();
    entries.push(("Command".to_owned(), PlistValue::String(command.to_owned())));
    let ghost name_view = match &name {
        Some(n) => Some(n@),
        None => None::<Seq<char>>,
    };
    match name {
        Some(n) => entries.push(("Name".to_owned(), PlistValue::String(n))),
        None => {},
    }
    proof {
        lemma_dictionary_model(entries);
        assert(entries_model(entries@) =~= match request_model(command@, name_view) {
            PlistModel::Dictionary(es) => es,
            _ => Seq::empty(),
        });
    }
    PlistValue::Dictionary(entries)
}

impl NotificationProxyClient {
    /// Creates a new notification proxy client.
    pub fn new() -> (r: Self)
        ensures
            r == (NotificationProxyClient {}),
    {
        NotificationProxyClient {}
    }

    /// The name under which lockdownd starts this service.
    pub fn service_name() -> (r: &'static str)
        ensures
            r@ == "com.apple.mobile.notification_proxy"@,
    {
        "com.apple.mobile.notification_proxy"
    }

    /// The name under which RemoteServiceDiscovery lists this service.
    pub fn rsd_service_name() -> (r: &'static str)
        ensures
            r@ == "com.apple.mobile.notification_proxy.shim.remote"@,
    {
        "com.apple.mobile.notification_proxy.shim.remote"
    }

    /// The request that posts a notification to the device.
    pub fn post_notification_request(&self, notification_name: &str) -> (r: PlistValue)
        ensures
            r@ == request_model("PostNotification"@, Some(notification_name@)),
    {
        request("PostNotification", Some(notification_name.to_owned()))
    }

    /// The request that registers to observe a notification.
    pub fn observe_notification_request(&self, notification_name: &str) -> (r: PlistValue)
        ensures
            r@ == request_model("ObserveNotification"@, Some(notification_name@)),
    {
        request("ObserveNotification", Some(notification_name.to_owned()))
    }

    /// The requests that register to observe each of the notifications, in order.
    pub fn observe_notifications_requests(&self, notification_names: &[&str]) -> (r: Vec<
        PlistValue,
    >)
        ensures
            r@.len() == notification_names@.len(),
            forall|i: int|
                0 <= i < r@.len() ==> (#[trigger] r@[i])@ == request_model(
                    "ObserveNotification"@,
                    Some(notification_names@[i]@),
                ),
    {
        let mut out: Vec<PlistValue> = Vec::new();
        let mut i: usize = 0;
        while i < notification_names.len()
            invariant
                i <= notification_names@.len(),
                out@.len() == i,
                forall|j: int|
                    0 <= j < i ==> (#[trigger] out@[j])@ == request_model(
                        "ObserveNotification"@,
                        Some(notification_names@[j]@),
                    ),
            decreases notification_names@.len() - i,
        {
            out.push(self.observe_notification_request(notification_names[i]));
            i += 1;
        }
        out
    }

    /// The request that shuts the proxy down.
    pub fn shutdown_request(&self) -> (r: PlistValue)
        ensures
            r@ == request_model("Shutdown"@, None),
    {
        request("Shutdown", None)
    }

    /// The name of the notification that a message from the device relays.
    pub fn read_notification(&self, response: &[(String, PlistValue)]) -> (r: Result<
        String,
        NotificationError,
    >)
        ensures
            match spec_notification(entries_model(response@)) {
                Ok(name) => r matches Ok(s) && s@ == name,
                Err(e) => r == Err::<String, NotificationError>(e),
            },
    {
        let command = get_string(response, "Command");
        match command {
            Some(c) => {
                if c.as_str().to_owned() == "RelayNotification".to_owned() {
                    match get_string(response, "Name") {
                        Some(name) => Ok(name),
                        None => Err(NotificationError::MissingName),
                    }
                } else if c.as_str().to_owned() == "ProxyDeath".to_owned() {
                    Err(NotificationError::ProxyDeath)
                } else {
                    Err(NotificationError::UnexpectedCommand)
                }
            },
            None => Err(NotificationError::UnexpectedCommand),
        }
    }
}

} // verus!
