//! The AFC (Apple File Conduit) protocol: the request packets that a client sends and what it
//! makes of the replies.  The connection that carries them is the caller's.
use vstd::prelude::*;
use vstd::string::{StrSliceExecFns, StringSliceAdditionalSpecFns};

use crate::afc_path::split_on;
use crate::byte_order::{
    lemma_u64_from_le_value, push_bytes, push_u64_le, read_u64_le, u64_from_le, u64_le_bytes,
};
use crate::text::{
    parse_i64, parse_usize, spec_parse_i64, spec_parse_usize, string_from_utf8_lossy, utf8_lossy,
};

verus! {

/// The magic number that starts every AFC packet.
pub const MAGIC: u64 = 0x4141504c36414643;

/// Bytes in a packet header: five 64-bit fields.
pub const HEADER_LEN: u64 = 40;

/// The operations of the AFC protocol that this client uses.
#[derive(Clone, Copy, Debug, PartialEq, Eq, Structural)]
pub enum AfcOpcode {
    Status,
    ReadDir,
    RemovePath,
    MakeDir,
    GetFileInfo,
    GetDevInfo,
    FileOpen,
    RenamePath,
    MakeLink,
    RemovePathAndContents,
}

#[derive(Clone, Copy, Debug, PartialEq, Eq, Structural)]
pub struct AfcPacketHeader {
    pub magic: u64,
    pub entire_len: u64,
    pub header_payload_len: u64,
    pub packet_num: u64,
    pub operation: AfcOpcode,
}

#[derive(Debug)]
pub struct AfcPacket {
    pub header: AfcPacketHeader,
    pub header_payload: Vec<u8>,
    pub payload: Vec<u8>,
}

/// Why a reply was refused.
#[derive(Clone, Copy, Debug, PartialEq, Eq)]
pub enum AfcError {
    /// A required attribute is absent, or does not parse.
    MissingAttribute,
    /// A status reply is too short to hold its code.
    StatusTooShort,
    /// The device reported this error code.
    Status(u64),
    /// An open reply is too short to hold the file descriptor.
    FileDescriptorTooShort,
}

/// Client state for the AFC service: the number of the next packet.
#[derive(Debug)]
pub struct AfcClient {
    package_number: u64,
}

#[verifier::external_type_specification]
#[verifier::external_body]
pub struct ExNaiveDateTime(chrono::NaiveDateTime);

/// The date and time, as `chrono` counts them without a time zone, that lies `nanos`
/// nanoseconds after the UNIX epoch.
pub uninterp spec fn datetime_from_nanos(nanos: i64) -> chrono::NaiveDateTime;

/// Calls `chrono::DateTime::from_timestamp_nanos` and takes the result's `naive_local`.  Its
/// contract claims only that the result is a function of `nanos`: the conversion is defined for
/// every `i64` and does not panic, and with the UTC zone the local date and time are the UTC ones.
#[verifier::external_body]
fn naive_datetime_from_nanos(nanos: i64) -> (r: chrono::NaiveDateTime)
    ensures
        r == datetime_from_nanos(nanos),
{
    chrono::DateTime::from_timestamp_nanos(nanos).naive_local()
}

/// `NaiveDateTime` derives `Copy` and `Clone`: a clone is the value itself.
pub assume_specification[<chrono::NaiveDateTime as Clone>::clone](
    value: &chrono::NaiveDateTime,
) -> (r: chrono::NaiveDateTime)
    ensures
        r == *value,
;

/// Information about a file on the device.
#[derive(Clone, Debug)]
pub struct FileInfo {
    /// Size of the file in bytes
    pub size: usize,
    /// Number of blocks allocated for the file
    pub blocks: usize,
    /// Creation timestamp of the file
    pub creation: chrono::NaiveDateTime,
    /// Last modification timestamp of the file
    pub modified: chrono::NaiveDateTime,
    /// Number of hard links to the file
    pub st_nlink: String,
    /// File type (e.g., "S_IFREG" for regular file)
    pub st_ifmt: String,
    /// Target path if this is a symbolic link
    pub st_link_target: Option<String>,
}

/// Metadata for a path after resolving all symbolic links in it.
#[derive(Clone, Debug)]
pub struct ResolvedFileInfo {
    /// Path supplied by the caller.
    pub requested_path: String,
    /// Normalized final target path after resolving symbolic links.
    pub resolved_path: String,
    /// Metadata for the final target.
    pub info: FileInfo,
}

/// Information about the device's filesystem
#[derive(Clone, Debug)]
pub struct DeviceInfo {
    /// Device model identifier
    pub model: String,
    /// Total storage capacity in bytes
    pub total_bytes: usize,
    /// Free storage space in bytes
    pub free_bytes: usize,
    /// Filesystem block size in bytes
    pub block_size: usize,
}

/// The header of a request with `payload_len` bytes of header payload and no data payload.
pub open spec fn request_header(op: AfcOpcode, payload_len: nat, num: u64) -> AfcPacketHeader {
    AfcPacketHeader {
        magic: MAGIC,
        entire_len: (payload_len + HEADER_LEN) as u64,
        header_payload_len: (payload_len + HEADER_LEN) as u64,
        packet_num: num,
        operation: op,
    }
}

pub open spec fn is_request(p: AfcPacket, op: AfcOpcode, header_payload: Seq<u8>, num: u64) -> bool {
    &&& p.header == request_header(op, header_payload.len(), num)
    &&& p.header_payload@ == header_payload
    &&& p.payload@.len() == 0
}

/// The packet number after `n`.
pub open spec fn next_number(n: u64) -> u64 {
    if n == u64::MAX {
        0
    } else {
        (n + 1) as u64
    }
}

/// Every request starts with the AFC magic number ("CFA6LPAA" read as a little-endian word);
/// its two length fields both count the 40-byte header and the header payload, for the
/// request has no data payload; and it carries its number and operation as given.
pub proof fn lemma_request_layout(op: AfcOpcode, payload_len: nat, num: u64)
    requires
        payload_len + 40 <= u64::MAX,
    ensures
        ({
            let h = request_header(op, payload_len, num);
            &&& h.magic == 0x4141504c36414643
            &&& h.entire_len == payload_len + 40
            &&& h.header_payload_len == payload_len + 40
            &&& h.packet_num == num
            &&& h.operation == op
        }),
{
}

/// The number that a new client gives its request after `k` earlier requests: each request
/// takes the client's number and leaves it at `next_number` of it.
pub open spec fn number_after(k: nat) -> u64
    decreases k,
{
    if k == 0 {
        0
    } else {
        next_number(number_after((k - 1) as nat))
    }
}

/// A new client numbers its requests 0, 1, 2, and so on: the request after `k` others carries
/// the number `k`, for every `k` that fits in 64 bits.
pub proof fn lemma_requests_numbered_in_order(k: nat)
    requires
        k <= u64::MAX,
    ensures
        number_after(k) == k,
    decreases k,
{
    if k > 0 {
        lemma_requests_numbered_in_order((k - 1) as nat);
    }
}

/// The UTF-8 bytes of a path.
pub open spec fn path_bytes(path: &str) -> Seq<u8> {
    path.spec_bytes()
}

/// A header payload that fits the length fields of a header.
pub open spec fn fits_header(len: nat) -> bool {
    len + HEADER_LEN <= u64::MAX
}

impl AfcClient {
    /// The number that the next request will carry.
    pub closed spec fn packet_number(&self) -> u64 {
        self.package_number
    }

    /// A client whose first request is numbered zero.
    pub fn new() -> (c: AfcClient)
        ensures
            c.packet_number() == 0,
    {
        AfcClient { package_number: 0 }
    }

    /// The name under which lockdownd starts this service.
    pub fn service_name() -> (r: &'static str)
        ensures
            r@ == "com.apple.afc"@,
    {
        "com.apple.afc"
    }

    /// The name under which lockdownd starts the unrestricted variant of this service.
    pub fn afc2_service_name() -> (r: &'static str)
        ensures
            r@ == "com.apple.afc2"@,
    {
        "com.apple.afc2"
    }

    /// The name under which RemoteServiceDiscovery lists this service.
    pub fn rsd_service_name() -> (r: &'static str)
        ensures
            r@ == "com.apple.afc.shim.remote"@,
    {
        "com.apple.afc.shim.remote"
    }

    fn request(&mut self, operation: AfcOpcode, header_payload: Vec<u8>) -> (p: AfcPacket)
        requires
            fits_header(header_payload@.len()),
        ensures
            is_request(p, operation, header_payload@, old(self).packet_number()),
            final(self).packet_number() == next_number(old(self).packet_number()),
    {
        let header_len = header_payload.len() as u64 + HEADER_LEN;
        let header = AfcPacketHeader {
            magic: MAGIC,
            entire_len: header_len,
            header_payload_len: header_len,
            packet_num: self.package_number,
            operation,
        };
        self.package_number = self.package_number.wrapping_add(1);
        AfcPacket { header, header_payload, payload: Vec::new() }
    }

    fn path_request(&mut self, operation: AfcOpcode, path: &str) -> (p: AfcPacket)
        requires
            fits_header(path_bytes(path).len()),
        ensures
            is_request(p, operation, path_bytes(path), old(self).packet_number()),
            final(self).packet_number() == next_number(old(self).packet_number()),
    {
        self.request(operation, path.as_bytes_vec())
    }

    /// The request that lists a directory.
    pub fn list_dir_request(&mut self, path: &str) -> (p: AfcPacket)
        requires
            fits_header(path_bytes(path).len()),
        ensures
            is_request(p, AfcOpcode::ReadDir, path_bytes(path), old(self).packet_number()),
            final(self).packet_number() == next_number(old(self).packet_number()),
    {
        self.path_request(AfcOpcode::ReadDir, path)
    }

    /// The request that creates a directory.
    pub fn mk_dir_request(&mut self, path: &str) -> (p: AfcPacket)
        requires
            fits_header(path_bytes(path).len()),
        ensures
            is_request(p, AfcOpcode::MakeDir, path_bytes(path), old(self).packet_number()),
            final(self).packet_number() == next_number(old(self).packet_number()),
    {
        self.path_request(AfcOpcode::MakeDir, path)
    }

    /// The request for the information about a file.
    pub fn get_file_info_request(&mut self, path: &str) -> (p: AfcPacket)
        requires
            fits_header(path_bytes(path).len()),
        ensures
            is_request(p, AfcOpcode::GetFileInfo, path_bytes(path), old(self).packet_number()),
            final(self).packet_number() == next_number(old(self).packet_number()),
    {
        self.path_request(AfcOpcode::GetFileInfo, path)
    }

    /// The request for the information about the device's filesystem.
    pub fn get_device_info_request(&mut self) -> (p: AfcPacket)
        ensures
            is_request(p, AfcOpcode::GetDevInfo, Seq::empty(), old(self).packet_number()),
            final(self).packet_number() == next_number(old(self).packet_number()),
    {
        self.request(AfcOpcode::GetDevInfo, Vec::new())
    }

    /// The request that removes a file or an empty directory.
    pub fn remove_request(&mut self, path: &str) -> (p: AfcPacket)
        requires
            fits_header(path_bytes(path).len()),
        ensures
            is_request(p, AfcOpcode::RemovePath, path_bytes(path), old(self).packet_number()),
            final(self).packet_number() == next_number(old(self).packet_number()),
    {
        self.path_request(AfcOpcode::RemovePath, path)
    }

    /// The request that removes a directory and all it holds.
    pub fn remove_all_request(&mut self, path: &str) -> (p: AfcPacket)
        requires
            fits_header(path_bytes(path).len()),
        ensures
            is_request(
                p,
                AfcOpcode::RemovePathAndContents,
                path_bytes(path),
                old(self).packet_number(),
            ),
            final(self).packet_number() == next_number(old(self).packet_number()),
    {
        self.path_request(AfcOpcode::RemovePathAndContents, path)
    }

    /// The request that opens a file in the given mode.
    pub fn open_request(&mut self, path: &str, mode: u64) -> (p: AfcPacket)
        requires
            fits_header(8 + path_bytes(path).len()),
        ensures
            is_request(
                p,
                AfcOpcode::FileOpen,
                u64_le_bytes(mode) + path_bytes(path),
                old(self).packet_number(),
            ),
            final(self).packet_number() == next_number(old(self).packet_number()),
    {
        let mut header_payload: Vec<u8> = Vec::new();
        push_u64_le(&mut header_payload, mode);
        push_bytes(&mut header_payload, path.as_bytes());
        proof {
            assert(header_payload@ =~= u64_le_bytes(mode) + path_bytes(path));
        }
        self.request(AfcOpcode::FileOpen, header_payload)
    }

    /// The request that makes `source` a link of the given kind to `target`.
    pub fn link_request(&mut self, target: &str, source: &str, kind: u64) -> (p: AfcPacket)
        requires
            fits_header(10 + path_bytes(target).len() + path_bytes(source).len()),
        ensures
            is_request(
                p,
                AfcOpcode::MakeLink,
                u64_le_bytes(kind) + path_bytes(target) + seq![0u8] + path_bytes(source) + seq![
                    0u8,
                ],
                old(self).packet_number(),
            ),
            final(self).packet_number() == next_number(old(self).packet_number()),
    {
        let mut header_payload: Vec<u8> = Vec::new();
        push_u64_le(&mut header_payload, kind);
        push_bytes(&mut header_payload, target.as_bytes());
        header_payload.push(0);
        push_bytes(&mut header_payload, source.as_bytes());
        header_payload.push(0);
        proof {
            assert(header_payload@ =~= u64_le_bytes(kind) + path_bytes(target) + seq![0u8]
                + path_bytes(source) + seq![0u8]);
        }
        self.request(AfcOpcode::MakeLink, header_payload)
    }

    /// The request that renames `source` to `target`.
    pub fn rename_request(&mut self, source: &str, target: &str) -> (p: AfcPacket)
        requires
            fits_header(2 + path_bytes(target).len() + path_bytes(source).len()),
        ensures
            is_request(
                p,
                AfcOpcode::RenamePath,
                path_bytes(source) + seq![0u8] + path_bytes(target) + seq![0u8],
                old(self).packet_number(),
            ),
            final(self).packet_number() == next_number(old(self).packet_number()),
    {
        let mut header_payload: Vec<u8> = Vec::new();
        push_bytes(&mut header_payload, source.as_bytes());
        header_payload.push(0);
        push_bytes(&mut header_payload, target.as_bytes());
        header_payload.push(0);
        proof {
            assert(header_payload@ =~= path_bytes(source) + seq![0u8] + path_bytes(target)
                + seq![0u8]);
        }
        self.request(AfcOpcode::RenamePath, header_payload)
    }
}

/// A status reply carries its code in the first eight bytes of its header payload; code zero
/// is success, and any other reply is taken as it is.
pub open spec fn spec_check_reply(header: AfcPacketHeader, header_payload: Seq<u8>) -> Result<
    (),
    AfcError,
> {
    if header.operation == AfcOpcode::Status {
        if header_payload.len() < 8 {
            Err(AfcError::StatusTooShort)
        } else {
            let code = u64_from_le(header_payload.subrange(0, 8));
            if code == 0 {
                Ok(())
            } else {
                Err(AfcError::Status(code))
            }
        }
    } else {
        Ok(())
    }
}

/// Only a status reply carries a status: a reply of any other operation is accepted whatever
/// its header payload holds (an open reply, for one, carries its file descriptor there).  A
/// status reply needs eight bytes; it is accepted exactly when they are all zero, and otherwise
/// reports the code that they write, lowest byte first.
pub proof fn lemma_reply_status(header: AfcPacketHeader, p: Seq<u8>)
    ensures
        header.operation != AfcOpcode::Status ==> spec_check_reply(header, p) == Ok::<
            (),
            AfcError,
        >(()),
        header.operation == AfcOpcode::Status && p.len() < 8 ==> spec_check_reply(header, p)
            == Err::<(), AfcError>(AfcError::StatusTooShort),
        header.operation == AfcOpcode::Status && p.len() >= 8 ==> (spec_check_reply(header, p) is Ok
            <==> forall|i: int| 0 <= i < 8 ==> p[i] == 0),
        header.operation == AfcOpcode::Status && p.len() >= 8 && spec_check_reply(header, p) is Err
            ==> spec_check_reply(header, p) == Err::<(), AfcError>(
            AfcError::Status(
                (p[0] + 256 * p[1] + 65536 * p[2] + 16777216 * p[3] + 4294967296 * p[4]
                    + 1099511627776 * p[5] + 281474976710656 * p[6] + 72057594037927936
                    * p[7]) as u64,
            ),
        ),
{
    if header.operation == AfcOpcode::Status && p.len() >= 8 {
        let d = p.subrange(0, 8);
        lemma_u64_from_le_value(d);
        assert(forall|i: int| 0 <= i < 8 ==> d[i] == p[i]);
        if forall|i: int| 0 <= i < 8 ==> p[i] == 0 {
            assert(p[0] == 0 && p[1] == 0 && p[2] == 0 && p[3] == 0);
            assert(p[4] == 0 && p[5] == 0 && p[6] == 0 && p[7] == 0);
        } else {
            let i = choose|i: int| 0 <= i < 8 && p[i] != 0;
            assert(p[i] > 0);
        }
    }
}

/// Whether a reply reports success.
pub fn check_reply(header: &AfcPacketHeader, header_payload: &[u8]) -> (r: Result<(), AfcError>)
    ensures
        r == spec_check_reply(*header, header_payload@),
{
    if header.operation == AfcOpcode::Status {
        if header_payload.len() < 8 {
            return Err(AfcError::StatusTooShort);
        }
        let code = read_u64_le(header_payload, 0);
        if code == 0 {
            Ok(())
        } else {
            Err(AfcError::Status(code))
        }
    } else {
        Ok(())
    }
}

/// The file descriptor that an open reply carries in the first eight bytes of its header
/// payload.
pub fn file_descriptor(header_payload: &[u8]) -> (r: Result<u64, AfcError>)
    ensures
        header_payload@.len() < 8 ==> r == Err::<u64, AfcError>(AfcError::FileDescriptorTooShort),
        header_payload@.len() >= 8 ==> r == Ok::<u64, AfcError>(
            u64_from_le(header_payload@.subrange(0, 8)),
        ),
{
    if header_payload.len() < 8 {
        Err(AfcError::FileDescriptorTooShort)
    } else {
        Ok(read_u64_le(header_payload, 0))
    }
}

/// The non-empty pieces, decoded leniently as UTF-8.
pub open spec fn collect_nonempty(pieces: Seq<Seq<u8>>) -> Seq<Seq<char>>
    decreases pieces.len(),
{
    if pieces.len() == 0 {
        Seq::empty()
    } else if pieces.last().len() > 0 {
        collect_nonempty(pieces.drop_last()).push(utf8_lossy(pieces.last()))
    } else {
        collect_nonempty(pieces.drop_last())
    }
}

/// The strings of a reply payload: its NUL-separated pieces, empty ones left out.
pub open spec fn spec_payload_strings(payload: Seq<u8>) -> Seq<Seq<char>> {
    collect_nonempty(split_on(payload, 0u8))
}

pub open spec fn strings_model(s: Seq<String>) -> Seq<Seq<char>> {
    Seq::new(s.len(), |i: int| s[i]@)
}

fn push_piece(out: &mut Vec<String>, payload: &[u8], start: usize, end: usize)
    requires
        start <= end <= payload@.len(),
    ensures
        end > start ==> strings_model(final(out)@) == strings_model(old(out)@).push(
            utf8_lossy(payload@.subrange(start as int, end as int)),
        ),
        end == start ==> final(out)@ == old(out)@,
{
    if end > start {
        let piece = vstd::slice::slice_subrange(payload, start, end);
        let text = string_from_utf8_lossy(piece);
        let ghost before = out@;
        out.push(text);
        proof {
            assert(strings_model(out@) =~= strings_model(before).push(
                utf8_lossy(payload@.subrange(start as int, end as int)),
            ));
        }
    }
}

/// The strings of a reply payload: the pieces between NUL bytes, empty ones left out, each
/// decoded leniently as UTF-8.
pub fn payload_strings(payload: &[u8]) -> (r: Vec<String>)
    ensures
        strings_model(r@) == spec_payload_strings(payload@),
{
    let ghost p = payload@;
    let mut out: Vec<String> = Vec::new();
    let mut start: usize = 0;
    let mut i: usize = 0;
    proof {
        assert(p.take(0) =~= Seq::<u8>::empty());
        assert(split_on(p.take(0), 0u8).drop_last() =~= Seq::<Seq<u8>>::empty());
        assert(strings_model(out@) =~= Seq::<Seq<char>>::empty());
        assert(p.subrange(0, 0) =~= Seq::<u8>::empty());
    }
    while i < payload.len()
        invariant
            p == payload@,
            start <= i <= p.len(),
            split_on(p.take(i as int), 0u8).last() == p.subrange(start as int, i as int),
            strings_model(out@) == collect_nonempty(split_on(p.take(i as int), 0u8).drop_last()),
        decreases p.len() - i,
    {
        let ghost prev = split_on(p.take(i as int), 0u8);
        proof {
            crate::afc_path::lemma_split_on_len(p.take(i as int), 0u8);
            assert(p.take(i + 1).drop_last() =~= p.take(i as int));
        }
        if payload[i] == 0 {
            push_piece(&mut out, payload, start, i);
            start = i + 1;
            proof {
                let next = split_on(p.take(i + 1), 0u8);
                assert(next == prev.push(Seq::empty()));
                assert(next.drop_last() =~= prev);
                assert(prev =~= prev.drop_last().push(prev.last()));
                assert(p.subrange(start as int, i + 1) =~= Seq::<u8>::empty());
            }
        } else {
            proof {
                let next = split_on(p.take(i + 1), 0u8);
                assert(next.drop_last() =~= prev.drop_last());
                assert(p.subrange(start as int, i + 1) =~= p.subrange(start as int, i as int).push(
                    p[i as int],
                ));
            }
        }
        i += 1;
    }
    proof {
        let whole = split_on(p.take(p.len() as int), 0u8);
        crate::afc_path::lemma_split_on_len(p.take(p.len() as int), 0u8);
        assert(p.take(p.len() as int) =~= p);
        assert(whole =~= whole.drop_last().push(whole.last()));
    }
    push_piece(&mut out, payload, start, payload.len());
    out
}

/// The value of the last complete key-value pair with this key, where the strings alternate
/// key and value and a trailing odd string is ignored.
pub open spec fn lookup_pairs(s: Seq<Seq<char>>, n: int, key: Seq<char>) -> Option<Seq<char>>
    decreases n,
{
    if n <= 0 {
        None
    } else if s[2 * (n - 1)] == key {
        Some(s[2 * (n - 1) + 1])
    } else {
        lookup_pairs(s, n - 1, key)
    }
}

pub open spec fn lookup(s: Seq<Seq<char>>, key: Seq<char>) -> Option<Seq<char>> {
    lookup_pairs(s, (s.len() / 2) as int, key)
}

proof fn lemma_lookup_pairs_last(s: Seq<Seq<char>>, n: int, key: Seq<char>)
    requires
        0 <= n,
        2 * n <= s.len(),
    ensures
        lookup_pairs(s, n, key) matches Some(v) ==> exists|i: int|
            #![trigger s[2 * i]]
            0 <= i < n && s[2 * i] == key && s[2 * i + 1] == v && forall|j: int|
                i < j < n ==> #[trigger] s[2 * j] != key,
        lookup_pairs(s, n, key) is None ==> forall|i: int| 0 <= i < n ==> #[trigger] s[2 * i] != key,
    decreases n,
{
    if n > 0 {
        lemma_lookup_pairs_last(s, n - 1, key);
        if s[2 * (n - 1)] == key {
            let i = n - 1;
            assert(forall|j: int| i < j < n ==> #[trigger] s[2 * j] != key);
        } else {
            if let Some(v) = lookup_pairs(s, n - 1, key) {
                let i = choose|i: int|
                    #![trigger s[2 * i]]
                    0 <= i < n - 1 && s[2 * i] == key && s[2 * i + 1] == v && forall|j: int|
                        i < j < n - 1 ==> #[trigger] s[2 * j] != key;
                assert(forall|j: int| i < j < n ==> #[trigger] s[2 * j] != key) by {
                    assert forall|j: int| i < j < n implies #[trigger] s[2 * j] != key by {
                        if j < n - 1 {
                        } else {
                            assert(j == n - 1);
                        }
                    }
                }
            } else {
                assert forall|i: int| 0 <= i < n implies #[trigger] s[2 * i] != key by {
                    if i < n - 1 {
                    } else {
                        assert(i == n - 1);
                    }
                }
            }
        }
    }
}

/// The reply strings alternate key and value, and a trailing odd string is ignored.  A key's
/// value is the value of the last pair that has the key; a key that no pair has has none.
pub proof fn lemma_lookup_last_pair(s: Seq<Seq<char>>, key: Seq<char>)
    ensures
        lookup(s, key) matches Some(v) ==> exists|i: int|
            #![trigger s[2 * i]]
            0 <= i && 2 * i + 1 < s.len() && s[2 * i] == key && s[2 * i + 1] == v && forall|j: int|
                i < j && 2 * j + 1 < s.len() ==> #[trigger] s[2 * j] != key,
        lookup(s, key) is None ==> forall|i: int|
            0 <= i && 2 * i + 1 < s.len() ==> #[trigger] s[2 * i] != key,
{
    let n = (s.len() / 2) as int;
    lemma_lookup_pairs_last(s, n, key);
    assert(forall|i: int| #![trigger s[2 * i]] 0 <= i && 2 * i + 1 < s.len() <==> 0 <= i < n);
}

fn lookup_value(strings: &Vec<String>, key: &str) -> (r: Option<String>)
    ensures
        match lookup(strings_model(strings@), key@) {
            Some(v) => r matches Some(x) && x@ == v,
            None => r is None,
        },
{
    let ghost s = strings_model(strings@);
    let wanted = key.to_owned();
    let total = strings.len();
    let mut n: usize = total / 2;
    while n > 0
        invariant
            total == strings@.len(),
            n <= total / 2,
            s == strings_model(strings@),
            wanted@ == key@,
            lookup(s, key@) == lookup_pairs(s, n as int, key@),
        decreases n,
    {
        if strings[2 * (n - 1)] == wanted {
            return Some(strings[2 * (n - 1) + 1].clone());
        }
        n -= 1;
    }
    None
}

pub open spec fn parsed_usize(v: Option<Seq<char>>) -> Option<usize> {
    match v {
        Some(t) => spec_parse_usize(t),
        None => None,
    }
}

pub open spec fn parsed_i64(v: Option<Seq<char>>) -> Option<i64> {
    match v {
        Some(t) => spec_parse_i64(t),
        None => None,
    }
}

pub open spec fn opt_view(v: Option<String>) -> Option<Seq<char>> {
    match v {
        Some(t) => Some(t@),
        None => None,
    }
}

fn lookup_usize(strings: &Vec<String>, key: &str) -> (r: Option<usize>)
    ensures
        r == parsed_usize(lookup(strings_model(strings@), key@)),
{
    match lookup_value(strings, key) {
        Some(v) => parse_usize(v.as_str()),
        None => None,
    }
}

fn lookup_i64(strings: &Vec<String>, key: &str) -> (r: Option<i64>)
    ensures
        r == parsed_i64(lookup(strings_model(strings@), key@)),
{
    match lookup_value(strings, key) {
        Some(v) => parse_i64(v.as_str()),
        None => None,
    }
}

/// Everything that file information needs is present in the reply strings.
pub open spec fn file_info_complete(s: Seq<Seq<char>>) -> bool {
    &&& parsed_usize(lookup(s, "st_size"@)) is Some
    &&& parsed_usize(lookup(s, "st_blocks"@)) is Some
    &&& parsed_i64(lookup(s, "st_birthtime"@)) is Some
    &&& parsed_i64(lookup(s, "st_mtime"@)) is Some
    &&& lookup(s, "st_nlink"@) is Some
    &&& lookup(s, "st_ifmt"@) is Some
}

/// `info` holds what the reply strings say.
pub open spec fn file_info_matches(info: FileInfo, s: Seq<Seq<char>>) -> bool {
    &&& parsed_usize(lookup(s, "st_size"@)) == Some(info.size)
    &&& parsed_usize(lookup(s, "st_blocks"@)) == Some(info.blocks)
    &&& parsed_i64(lookup(s, "st_birthtime"@)) matches Some(n) && info.creation
        == datetime_from_nanos(n)
    &&& parsed_i64(lookup(s, "st_mtime"@)) matches Some(n) && info.modified
        == datetime_from_nanos(n)
    &&& lookup(s, "st_nlink"@) == Some(info.st_nlink@)
    &&& lookup(s, "st_ifmt"@) == Some(info.st_ifmt@)
    &&& opt_view(info.st_link_target) == match lookup(s, "LinkTarget"@) {
        Some(t) => Some(t),
        None => lookup(s, "st_link_target"@),
    }
}

/// The file information in a reply payload.
pub fn parse_file_info(payload: &[u8]) -> (r: Result<FileInfo, AfcError>)
    ensures
        file_info_complete(spec_payload_strings(payload@)) ==> (r matches Ok(info)
            && file_info_matches(info, spec_payload_strings(payload@))),
        !file_info_complete(spec_payload_strings(payload@)) ==> r matches Err(
            AfcError::MissingAttribute,
        ),
{
    let strings = payload_strings(payload);
    let size = match lookup_usize(&strings, "st_size") {
        Some(v) => v,
        None => return Err(AfcError::MissingAttribute),
    };
    let blocks = match lookup_usize(&strings, "st_blocks") {
        Some(v) => v,
        None => return Err(AfcError::MissingAttribute),
    };
    let creation = match lookup_i64(&strings, "st_birthtime") {
        Some(v) => naive_datetime_from_nanos(v),
        None => return Err(AfcError::MissingAttribute),
    };
    let modified = match lookup_i64(&strings, "st_mtime") {
        Some(v) => naive_datetime_from_nanos(v),
        None => return Err(AfcError::MissingAttribute),
    };
    let st_nlink = match lookup_value(&strings, "st_nlink") {
        Some(v) => v,
        None => return Err(AfcError::MissingAttribute),
    };
    let st_ifmt = match lookup_value(&strings, "st_ifmt") {
        Some(v) => v,
        None => return Err(AfcError::MissingAttribute),
    };
    let st_link_target = match lookup_value(&strings, "LinkTarget") {
        Some(t) => Some(t),
        None => lookup_value(&strings, "st_link_target"),
    };
    Ok(FileInfo { size, blocks, creation, modified, st_nlink, st_ifmt, st_link_target })
}

/// Everything that device information needs is present in the reply strings.
pub open spec fn device_info_complete(s: Seq<Seq<char>>) -> bool {
    &&& lookup(s, "Model"@) is Some
    &&& parsed_usize(lookup(s, "FSTotalBytes"@)) is Some
    &&& parsed_usize(lookup(s, "FSFreeBytes"@)) is Some
    &&& parsed_usize(lookup(s, "FSBlockSize"@)) is Some
}

/// `info` holds what the reply strings say.
pub open spec fn device_info_matches(info: DeviceInfo, s: Seq<Seq<char>>) -> bool {
    &&& lookup(s, "Model"@) == Some(info.model@)
    &&& parsed_usize(lookup(s, "FSTotalBytes"@)) == Some(info.total_bytes)
    &&& parsed_usize(lookup(s, "FSFreeBytes"@)) == Some(info.free_bytes)
    &&& parsed_usize(lookup(s, "FSBlockSize"@)) == Some(info.block_size)
}

/// The filesystem information in a reply payload.
pub fn parse_device_info(payload: &[u8]) -> (r: Result<DeviceInfo, AfcError>)
    ensures
        device_info_complete(spec_payload_strings(payload@)) ==> (r matches Ok(info)
            && device_info_matches(info, spec_payload_strings(payload@))),
        !device_info_complete(spec_payload_strings(payload@)) ==> r matches Err(
            AfcError::MissingAttribute,
        ),
{
    let strings = payload_strings(payload);
    let model = match lookup_value(&strings, "Model") {
        Some(v) => v,
        None => return Err(AfcError::MissingAttribute),
    };
    let total_bytes = match lookup_usize(&strings, "FSTotalBytes") {
        Some(v) => v,
        None => return Err(AfcError::MissingAttribute),
    };
    let free_bytes = match lookup_usize(&strings, "FSFreeBytes") {
        Some(v) => v,
        None => return Err(AfcError::MissingAttribute),
    };
    let block_size = match lookup_usize(&strings, "FSBlockSize") {
        Some(v) => v,
        None => return Err(AfcError::MissingAttribute),
    };
    Ok(DeviceInfo { model, total_bytes, free_bytes, block_size })
}

} // verus!
