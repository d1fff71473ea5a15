# idevice

Verified building blocks of a client for iOS device services, written in Verus.

`src/` is the verified library:

- `plist_model`: property-list values (`PlistValue`) and their mathematical model.
- `byte_order`: little- and big-endian integers in byte buffers.
- `text`: UTF-8 decoding and decimal parsing, as `std` does them.
- `opack`, `opack_encode`: the OPACK binary encoding, decoded and encoded; `opack_laws` and
  `opack_decoded` prove that decoding gives back what encoding wrote, and `opack_trailing`
  that bytes after a complete payload are refused.
- `afc`: AFC request packets, reply status, and the file and device information in replies.
- `afc_path`: AFC path normalisation and the state machine that resolves symbolic links.
- `notification_proxy`: notification-proxy requests and the reading of relayed notifications.
- `pairing_file`: the remote-pairing file, its Ed25519 keys, and its property-list form.

`app/` holds what carries the library's values over connections and files: conversions to and
from `plist::Value`, the files that pairing files are stored in, and the async loops that send requests and
hand replies back to the library.
