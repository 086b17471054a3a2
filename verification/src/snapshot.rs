//! Capturing the state of a container at a moment in time.
//!
//! A snapshot is sorted by path and stable across runs, so two of them can be
//! compared later without the container still being present.
//!
//! Plist contents are stored inline for small files rather than only a hash. That
//! is what makes a key-level diff possible after the fact — and for a container
//! holding a single preferences file it is the whole point, because the diff would
//! otherwise say "1 file modified" and nothing more.

use vstd::prelude::*;
use crate::clock;
use crate::clock::format_local;
use crate::decode;
use crate::decode::property_list;
use crate::decode::property_list::{PlistError, TreeModel};
use crate::decode::{Body, Decoded, Format};
use crate::discover;
use crate::hash;
use crate::json;
use crate::json::Json;
use crate::number;
use crate::number::push_decimal;
use crate::order;
use crate::order::{sort, Ranked};
use crate::path;
use crate::path::with_slashes;
use crate::source::sim::{Entry, EntryKind};
use crate::text;
use crate::text::{comes_before, same};

verus! {

/// Version of the snapshot format.
///
/// Present from the first release so the format can change without silently
/// misreading snapshots written by an older build.
pub const FORMAT_VERSION: u32 = 1;

/// Largest plist stored inline, in bytes.
///
/// Above this a snapshot keeps only the hash: a key-level diff of something that
/// big would be unreadable anyway, and snapshots get pasted into issues.
pub const INLINE_LIMIT: u64 = 256 * 1024;

/// A container's contents at a point in time.
#[derive(Debug)]
pub struct Snapshot {
    /// Snapshot format version.
    pub version: u32,
    /// Group identifier of the container.
    pub group_id: String,
    /// UUID of the container directory.
    pub container_uuid: String,
    /// UDID of the device it was taken from.
    pub device_udid: String,
    /// When it was taken, RFC 3339.
    pub taken_at: String,
    /// Every regular file in the container, sorted by path.
    pub files: Vec<FileEntry>,
}

/// One file within a snapshot.
#[derive(Debug, PartialEq)]
pub struct FileEntry {
    /// Path relative to the container root, using forward slashes.
    pub path: String,
    /// Size in bytes.
    pub size: u64,
    /// Last modification time, RFC 3339.
    pub modified: Option<String>,
    /// Hex-encoded SHA-256 of the file's bytes.
    pub sha256: String,
    /// Decoded plist content, present only for plists within [`INLINE_LIMIT`].
    pub content: Option<Json>,
}

/// The first of the files that has the given path.
pub open spec fn find_file(files: Seq<FileEntry>, path: Seq<char>) -> Option<FileEntry>
    decreases files.len(),
{
    if files.len() == 0 {
        None
    } else if files[0].path@ == path {
        Some(files[0])
    } else {
        find_file(files.drop_first(), path)
    }
}

impl Snapshot {
    /// Looks up a file by its path.
    pub fn file(&self, path: &str) -> (found: Option<&FileEntry>)
        ensures
            found is Some <==> find_file(self.files@, path@) is Some,
            found matches Some(file) ==> find_file(self.files@, path@) == Some(*file),
    {
        let mut i: usize = 0;
        assert(self.files@.skip(0) =~= self.files@);
        while i < self.files.len()
            invariant
                i <= self.files@.len(),
                find_file(self.files@, path@) == find_file(self.files@.skip(i as int), path@),
            decreases self.files@.len() - i,
        {
            assert(self.files@.skip(i as int)[0] == self.files@[i as int]);
            if same(self.files[i].path.as_str(), path) {
                return Some(&self.files[i]);
            }
            assert(self.files@.skip(i as int).drop_first() =~= self.files@.skip(i + 1));
            i += 1;
        }
        None
    }
}

// ---------------------------------------------------------------------------
// Fingerprints
// ---------------------------------------------------------------------------

/// What a snapshot keeps of the bytes of a file.
#[derive(Debug)]
pub struct Fingerprint {
    /// Hex-encoded SHA-256 of the bytes.
    pub sha256: String,
    /// The decoded content of a small plist.
    pub content: Option<Json>,
}

/// Whether a file is read whole: the bytes of a file within [`INLINE_LIMIT`] are
/// needed for both the hash and a possible decode. Larger ones are hashed piece by
/// piece, so a snapshot never loads an arbitrarily large file into memory.
pub fn reads_whole(size: u64) -> (whole: bool)
    ensures
        whole == (size <= INLINE_LIMIT),
{
    size <= INLINE_LIMIT
}

/// Whether `content` is what a snapshot keeps of something decoded: the JSON form of
/// a plist, and nothing of anything else.
pub open spec fn kept(decoded: Decoded, content: Option<Json>) -> bool {
    match decoded.body {
        Body::Value(value) => if decoded.format == Format::BinaryPlist || decoded.format
            == Format::XmlPlist {
            content matches Some(json) && json@ == decode::projected(value@)
        } else {
            content is None
        },
        _ => content is None,
    }
}

/// What a snapshot keeps of something decoded.
pub fn inline_content(decoded: &Decoded) -> (content: Option<Json>)
    ensures
        kept(*decoded, content),
{
    match &decoded.body {
        Body::Value(value) => match decoded.format {
            Format::BinaryPlist | Format::XmlPlist => Some(value.to_json()),
            _ => None,
        },
        _ => None,
    }
}

/// Hashes the bytes of a file, decoding them inline when they are a plist.
pub fn fingerprint(bytes: &[u8]) -> (print: Fingerprint)
    ensures
        print.sha256@ == hash::sha256_digits(bytes@),
        exists|decoded: Decoded| #[trigger]
            decode::decoded_from(bytes@, decode::sniffed(bytes@), decoded) && kept(
                decoded,
                print.content,
            ),
{
    let sha256 = hash::hash(bytes);
    let decoded = decode::decode(bytes);
    let content = inline_content(&decoded);
    assert(decode::decoded_from(bytes@, decode::sniffed(bytes@), decoded));
    Fingerprint { sha256, content }
}

/// The fingerprint of a file that was hashed piece by piece: its hash alone.
pub fn hash_only(sha256: String) -> (print: Fingerprint)
    ensures
        print.sha256@ == sha256@,
        print.content is None,
{
    Fingerprint { sha256, content: None }
}

/// Formats a timestamp as RFC 3339.
pub fn format_time(time: i64) -> (text: String)
    requires
        clock::writable(time),
    ensures
        clock::written(time, text@),
{
    format_local(time)
}

/// Renders a path with forward slashes so snapshots compare across platforms.
pub fn normalise(path: &str) -> (normal: String)
    ensures
        normal@ == path::slashed(path@),
{
    with_slashes(path)
}

// ---------------------------------------------------------------------------
// Capturing
// ---------------------------------------------------------------------------

/// An entry of a container with what reading it came to.
#[derive(Debug)]
pub struct Reading {
    /// The entry.
    pub entry: Entry,
    /// The fingerprint of a file, or why it could not be read. Entries that are not
    /// files are left out of a snapshot, whatever stands here.
    pub outcome: Result<Fingerprint, String>,
}

/// Why a container was not captured.
#[derive(Debug)]
pub enum CaptureError {
    /// A file could not be read.
    Unreadable {
        /// The file.
        path: String,
        /// Why it could not.
        cause: String,
    },
}

impl CaptureError {
    /// What the error says.
    pub open spec fn said(self) -> Seq<char> {
        match self {
            CaptureError::Unreadable { path, cause } => "could not fingerprint `"@ + path@ + "`"@,
        }
    }

    /// The error in words.
    pub fn message(&self) -> (text: String)
        ensures
            text@ == self.said(),
    {
        match self {
            CaptureError::Unreadable { path, cause: _ } => {
                let mut text = "could not fingerprint `".to_string();
                text.push_str(path.as_str());
                text.push_str("`");
                text
            },
        }
    }
}

/// The readings of regular files.
pub open spec fn of_files(readings: Seq<Reading>) -> Seq<Reading> {
    readings.filter(|reading: Reading| reading.entry.kind == EntryKind::File)
}

/// Whether every file could be read.
pub open spec fn all_read(readings: Seq<Reading>) -> bool {
    forall|i: int|
        0 <= i < of_files(readings).len() ==> (#[trigger] of_files(readings)[i]).outcome is Ok
}

/// The first file that could not be read.
pub open spec fn first_unread(readings: Seq<Reading>) -> Option<Reading>
    decreases readings.len(),
{
    if readings.len() == 0 {
        None
    } else if readings[0].entry.kind == EntryKind::File && readings[0].outcome is Err {
        Some(readings[0])
    } else {
        first_unread(readings.drop_first())
    }
}

/// Whether `file` is what a snapshot records of a file that was read.
pub open spec fn records(reading: Reading, file: FileEntry) -> bool {
    &&& file.path@ == path::slashed(reading.entry.path@)
    &&& file.size == reading.entry.size
    &&& match (reading.entry.modified, file.modified) {
        (Some(time), Some(text)) => clock::written(time, text@),
        (None, None) => true,
        _ => false,
    }
    &&& reading.outcome matches Ok(print) && file.sha256@ == print.sha256@ && file.content
        == print.content
}

/// Whether `files` are what a snapshot records of the files that were read, in the
/// order they were read in.
pub open spec fn record_of(readings: Seq<Reading>, files: Seq<FileEntry>) -> bool {
    &&& files.len() == of_files(readings).len()
    &&& forall|i: int|
        0 <= i < files.len() ==> records(of_files(readings)[i], #[trigger] files[i])
}

/// The order of files in a snapshot.
pub open spec fn by_path() -> spec_fn(FileEntry, FileEntry) -> bool {
    |a: FileEntry, b: FileEntry| text::precedes(a.path@, b.path@)
}

impl Ranked for FileEntry {
    open spec fn outranks(a: Self, b: Self) -> bool {
        text::precedes(a.path@, b.path@)
    }

    fn is_before(a: &Self, b: &Self) -> bool {
        comes_before(a.path.as_str(), b.path.as_str())
    }
}

/// Whether `snapshot` is what capturing a container comes to.
pub open spec fn captured(
    readings: Seq<Reading>,
    resolved: discover::Container,
    device: discover::Device,
    now: i64,
    snapshot: Snapshot,
) -> bool {
    &&& snapshot.version == FORMAT_VERSION
    &&& snapshot.group_id@ == resolved.id@
    &&& snapshot.container_uuid@ == resolved.uuid@
    &&& snapshot.device_udid@ == device.udid@
    &&& clock::written(now, snapshot.taken_at@)
    &&& exists|files: Seq<FileEntry>| #[trigger]
        record_of(readings, files) && snapshot.files@ == order::arranged(files, by_path())
}

/// What came of reading a snapshot from disk.
#[derive(Debug)]
pub enum Loaded {
    /// The file could not be read.
    Unreadable,
    /// The file holds no snapshot.
    Malformed,
    /// The file holds a snapshot.
    Snapshot(Snapshot),
}

/// Why a snapshot was not loaded.
#[derive(Debug)]
pub enum LoadError {
    /// The file could not be read.
    Unreadable {
        /// The file.
        path: String,
    },
    /// The file holds no snapshot.
    Malformed {
        /// The file.
        path: String,
    },
    /// The snapshot has a format newer than [`FORMAT_VERSION`].
    NewerFormat {
        /// The file.
        path: String,
        /// The format it has.
        version: u32,
    },
}

impl LoadError {
    /// What the error says.
    pub open spec fn said(self) -> Seq<char> {
        match self {
            LoadError::Unreadable { path } => "could not read snapshot `"@ + path@ + "`"@,
            LoadError::Malformed { path } => "`"@ + path@ + "` is not a valid snapshot"@,
            LoadError::NewerFormat { path, version } => "`"@ + path@ + "` uses snapshot format "@
                + number::decimal(version as nat) + " but this build understands "@
                + number::decimal(FORMAT_VERSION as nat),
        }
    }

    /// The error in words.
    pub fn message(&self) -> (text: String)
        ensures
            text@ == self.said(),
    {
        let mut text = String::new();
        match self {
            LoadError::Unreadable { path } => {
                text.push_str("could not read snapshot `");
                text.push_str(path.as_str());
                text.push_str("`");
            },
            LoadError::Malformed { path } => {
                text.push_str("`");
                text.push_str(path.as_str());
                text.push_str("` is not a valid snapshot");
            },
            LoadError::NewerFormat { path, version } => {
                text.push_str("`");
                text.push_str(path.as_str());
                text.push_str("` uses snapshot format ");
                push_decimal(&mut text, *version as u128);
                text.push_str(" but this build understands ");
                push_decimal(&mut text, FORMAT_VERSION as u128);
            },
        }
        assert(text@ =~= self.said());
        text
    }
}

impl Snapshot {
    /// Captures the contents of a container, given what reading each of its entries
    /// came to, at a time in whole seconds since the start of 1970.
    ///
    /// Records regular files only. Directories are implied by the paths of the
    /// files inside them, so an added directory shows up through its contents; an
    /// added *empty* directory does not, which is a deliberate trade for keeping
    /// snapshots to the things that carry data.
    pub fn capture(
        readings: Vec<Reading>,
        resolved: &discover::Container,
        device: &discover::Device,
        now: i64,
    ) -> (result: Result<Snapshot, CaptureError>)
        requires
            clock::writable(now),
            forall|i: int|
                0 <= i < readings@.len() ==> ((#[trigger] readings@[i]).entry.modified matches Some(
                    time,
                ) ==> clock::writable(time)),
        ensures
            match first_unread(readings@) {
                Some(reading) => result matches Err(CaptureError::Unreadable { path, cause })
                    && path@ == reading.entry.path@ && cause@ == reading.outcome->Err_0@,
                None => result matches Ok(snapshot) && captured(
                    readings@,
                    *resolved,
                    *device,
                    now,
                    snapshot,
                ),
            },
    {
        let ghost all = readings@;
        let mut files: Vec<FileEntry> = Vec::new();
        proof {
            reveal(Seq::filter);
            assert(all.skip(0) =~= all);
            assert(all.take(0) =~= seq![]);
        }
        assert(record_of(all.take(0), files@));
        for reading in it: readings
            invariant
                it.seq() == all,
                all == readings@,
                forall|i: int|
                    0 <= i < all.len() ==> ((#[trigger] all[i]).entry.modified matches Some(time)
                        ==> clock::writable(time)),
                record_of(all.take(it.index()), files@),
                first_unread(all) == first_unread(all.skip(it.index())),
        {
            let ghost before = files@;
            let ghost read = of_files(all.take(it.index()));
            proof {
                reveal(Seq::filter);
                assert(all[it.index()] == reading);
                assert(all.take(it.index() + 1).drop_last() =~= all.take(it.index()));
                assert(all.take(it.index() + 1).last() == reading);
                assert(all.skip(it.index())[0] == reading);
                assert(all.skip(it.index()).drop_first() =~= all.skip(it.index() + 1));
            }
            if reading.entry.kind == EntryKind::File {
                assert(of_files(all.take(it.index() + 1)) == read.push(reading));
                match reading.outcome {
                    Ok(print) => {
                        let modified = match reading.entry.modified {
                            Some(time) => Some(format_time(time)),
                            None => None,
                        };
                        let file = FileEntry {
                            path: normalise(reading.entry.path.as_str()),
                            size: reading.entry.size,
                            modified,
                            sha256: print.sha256,
                            content: print.content,
                        };
                        files.push(file);
                        proof {
                            let now_read = read.push(reading);
                            assert forall|i: int| 0 <= i < files@.len() implies records(
                                now_read[i],
                                #[trigger] files@[i],
                            ) by {
                                if i < before.len() {
                                    assert(records(read[i], before[i]));
                                }
                            }
                        }
                    },
                    Err(cause) => {
                        return Err(
                            CaptureError::Unreadable { path: reading.entry.path.clone(), cause },
                        );
                    },
                }
            }
        }
        proof {
            assert(all.take(all.len() as int) =~= all);
            assert(all.skip(all.len() as int) =~= seq![]);
            assert(record_of(all, files@));
            same_order_by_path();
        }
        // Sorted so snapshots are stable across runs and reviewable by eye.
        let files = sort(files);
        Ok(
            Snapshot {
                version: FORMAT_VERSION,
                group_id: resolved.id.clone(),
                container_uuid: resolved.uuid.clone(),
                device_udid: device.udid.clone(),
                taken_at: format_time(now),
                files,
            },
        )
    }

    /// Takes a snapshot read from disk.
    ///
    /// Fails on unreadable or malformed files, and on snapshots written by a newer
    /// format version than this build understands.
    pub fn load(path: &str, loaded: Loaded) -> (result: Result<Snapshot, LoadError>)
        ensures
            match loaded {
                Loaded::Unreadable => result matches Err(LoadError::Unreadable { path: file })
                    && file@ == path@,
                Loaded::Malformed => result matches Err(LoadError::Malformed { path: file })
                    && file@ == path@,
                Loaded::Snapshot(snapshot) => if snapshot.version > FORMAT_VERSION {
                    result matches Err(LoadError::NewerFormat { path: file, version }) && file@
                        == path@ && version == snapshot.version
                } else {
                    result == Ok::<Snapshot, LoadError>(snapshot)
                },
            },
    {
        match loaded {
            Loaded::Unreadable => Err(LoadError::Unreadable { path: path.to_string() }),
            Loaded::Malformed => Err(LoadError::Malformed { path: path.to_string() }),
            Loaded::Snapshot(snapshot) => {
                if snapshot.version > FORMAT_VERSION {
                    Err(
                        LoadError::NewerFormat {
                            path: path.to_string(),
                            version: snapshot.version,
                        },
                    )
                } else {
                    Ok(snapshot)
                }
            },
        }
    }
}

/// The rank of files is the order of their paths.
proof fn same_order_by_path()
    ensures
        order::ranking::<FileEntry>() == by_path(),
{
    assert(order::ranking::<FileEntry>() =~= by_path());
}

// ---------------------------------------------------------------------------
// Laws
// ---------------------------------------------------------------------------

/// The files of a snapshot are in order of their paths, each of those read once.
pub proof fn captured_files_are_in_order(files: Seq<FileEntry>)
    ensures
        order::in_order(order::arranged(files, by_path()), by_path()),
        order::arranged(files, by_path()).to_multiset() == files.to_multiset(),
{
    let before = by_path();
    assert forall|a: FileEntry, b: FileEntry| #[trigger] before(a, b) implies !before(b, a) by {
        text::precedes_asymmetric(a.path@, b.path@);
    }
    assert forall|a: FileEntry, b: FileEntry, c: FileEntry| #[trigger]
        before(a, b) implies #[trigger] before(a, c) || before(c, b) by {
        text::precedes_comparable(a.path@, b.path@, c.path@);
    }
    order::arranged_is_sorted(files, before);
}

/// A snapshot is taken exactly when every file could be read.
pub proof fn captured_iff_all_read(readings: Seq<Reading>)
    ensures
        first_unread(readings) is None <==> all_read(readings),
    decreases readings.len(),
{
    reveal(Seq::filter);
    if readings.len() > 0 {
        let front = readings.drop_last();
        let last = readings.last();
        captured_iff_all_read(front);
        first_unread_push(front, last);
        assert(front.push(last) =~= readings);
        let earlier = of_files(front);
        let files = of_files(readings);
        if last.entry.kind == EntryKind::File {
            assert(files == earlier.push(last));
            if all_read(readings) {
                assert(files[files.len() - 1].outcome is Ok);
                assert forall|i: int| 0 <= i < earlier.len() implies (
                #[trigger] earlier[i]).outcome is Ok by {
                    assert(files[i] == earlier[i]);
                }
            }
            if all_read(front) && last.outcome is Ok {
                assert forall|i: int| 0 <= i < files.len() implies (
                #[trigger] files[i]).outcome is Ok by {
                    if i < earlier.len() {
                        assert(files[i] == earlier[i]);
                    }
                }
            }
        } else {
            assert(files == earlier);
        }
    }
}

/// A reading put at the end is the first unread one only where no other is.
proof fn first_unread_push(readings: Seq<Reading>, last: Reading)
    ensures
        first_unread(readings.push(last)) == match first_unread(readings) {
            Some(reading) => Some(reading),
            None => if last.entry.kind == EntryKind::File && last.outcome is Err {
                Some(last)
            } else {
                None
            },
        },
    decreases readings.len(),
{
    reveal_with_fuel(first_unread, 2);
    let all = readings.push(last);
    if readings.len() > 0 {
        assert(all[0] == readings[0]);
        assert(all.drop_first() =~= readings.drop_first().push(last));
        first_unread_push(readings.drop_first(), last);
    } else {
        assert(all[0] == last);
        assert(all.drop_first() =~= seq![]);
    }
}

/// Whether two optional texts are one and the same time, or there is neither.
pub open spec fn same_time(a: Option<String>, b: Option<String>) -> bool {
    match (a, b) {
        (Some(x), Some(y)) => clock::same_instant(x@, y@),
        (None, None) => true,
        _ => false,
    }
}

/// Whether two records of a file are the same, whatever zone their times are in.
pub open spec fn same_record(a: FileEntry, b: FileEntry) -> bool {
    &&& a.path@ == b.path@
    &&& a.size == b.size
    &&& same_time(a.modified, b.modified)
    &&& a.sha256@ == b.sha256@
    &&& a.content == b.content
}

/// Records of the same readings stay side by side when they are sorted.
proof fn same_records_sort_alike(readings: Seq<Reading>, a: Seq<FileEntry>, b: Seq<FileEntry>)
    requires
        record_of(readings, a),
        record_of(readings, b),
    ensures
        order::arranged(a, by_path()).len() == order::arranged(b, by_path()).len(),
        forall|i: int|
            0 <= i < order::arranged(a, by_path()).len() ==> same_record(
                #[trigger] order::arranged(a, by_path())[i],
                order::arranged(b, by_path())[i],
            ),
{
    let related = |x: FileEntry, y: FileEntry| same_record(x, y);
    assert forall|i: int| 0 <= i < a.len() implies related(#[trigger] a[i], b[i]) by {
        assert(records(of_files(readings)[i], a[i]));
        assert(records(of_files(readings)[i], b[i]));
        if let Some(time) = of_files(readings)[i].entry.modified {
            assert(clock::written(time, a[i].modified->0@));
            assert(clock::written(time, b[i].modified->0@));
        }
    }
    order::arranged_relates(a, b, by_path(), related);
    assert forall|i: int| 0 <= i < order::arranged(a, by_path()).len() implies same_record(
        #[trigger] order::arranged(a, by_path())[i],
        order::arranged(b, by_path())[i],
    ) by {
        assert(related(order::arranged(a, by_path())[i], order::arranged(b, by_path())[i]));
    }
}

/// Snapshots are stable across runs: capturing the same readings again, at whatever
/// time, gives the same snapshot but for that time. Only the zone that times are
/// written in may differ.
pub proof fn recapture_is_stable(
    readings: Seq<Reading>,
    resolved: discover::Container,
    device: discover::Device,
    earlier: i64,
    later: i64,
    a: Snapshot,
    b: Snapshot,
)
    requires
        captured(readings, resolved, device, earlier, a),
        captured(readings, resolved, device, later, b),
    ensures
        a.version == b.version,
        a.group_id@ == b.group_id@,
        a.container_uuid@ == b.container_uuid@,
        a.device_udid@ == b.device_udid@,
        a.files@.len() == b.files@.len(),
        forall|i: int| 0 <= i < a.files@.len() ==> same_record(#[trigger] a.files@[i], b.files@[i]),
{
    let x = choose|files: Seq<FileEntry>| #[trigger]
        record_of(readings, files) && a.files@ == order::arranged(files, by_path());
    let y = choose|files: Seq<FileEntry>| #[trigger]
        record_of(readings, files) && b.files@ == order::arranged(files, by_path());
    same_records_sort_alike(readings, x, y);
}

/// Whether the times of records are written in the zone that `zone` gives for each.
pub open spec fn timed_in(
    readings: Seq<Reading>,
    files: Seq<FileEntry>,
    zone: spec_fn(i64) -> i32,
) -> bool {
    forall|i: int|
        0 <= i < files.len() ==> (of_files(readings)[i].entry.modified matches Some(time)
            ==> discover::optional_text((#[trigger] files[i]).modified) == Some(
            clock::rfc3339(time, zone(time)),
        ))
}

/// Whether `files` are the sorted records of the readings, with times in one zone.
pub open spec fn recorded_in(
    readings: Seq<Reading>,
    files: Seq<FileEntry>,
    zone: spec_fn(i64) -> i32,
) -> bool {
    exists|unsorted: Seq<FileEntry>| #[trigger]
        record_of(readings, unsorted) && timed_in(readings, unsorted, zone) && files
            == order::arranged(unsorted, by_path())
}

/// Whether two records of a file are the same to the letter.
pub open spec fn identical_record(a: FileEntry, b: FileEntry) -> bool {
    &&& a.path@ == b.path@
    &&& a.size == b.size
    &&& discover::optional_text(a.modified) == discover::optional_text(b.modified)
    &&& a.sha256@ == b.sha256@
    &&& a.content == b.content
}

/// In one zone, capturing the same readings again records the same files to the
/// letter.
pub proof fn recapture_in_one_zone_is_identical(
    readings: Seq<Reading>,
    a: Seq<FileEntry>,
    b: Seq<FileEntry>,
    zone: spec_fn(i64) -> i32,
)
    requires
        recorded_in(readings, a, zone),
        recorded_in(readings, b, zone),
    ensures
        a.len() == b.len(),
        forall|i: int| 0 <= i < a.len() ==> identical_record(#[trigger] a[i], b[i]),
{
    let x = choose|unsorted: Seq<FileEntry>| #[trigger]
        record_of(readings, unsorted) && timed_in(readings, unsorted, zone) && a
            == order::arranged(unsorted, by_path());
    let y = choose|unsorted: Seq<FileEntry>| #[trigger]
        record_of(readings, unsorted) && timed_in(readings, unsorted, zone) && b
            == order::arranged(unsorted, by_path());
    let related = |p: FileEntry, q: FileEntry| identical_record(p, q);
    assert forall|i: int| 0 <= i < x.len() implies related(#[trigger] x[i], y[i]) by {
        assert(records(of_files(readings)[i], x[i]));
        assert(records(of_files(readings)[i], y[i]));
    }
    order::arranged_relates(x, y, by_path(), related);
    assert forall|i: int| 0 <= i < a.len() implies identical_record(#[trigger] a[i], b[i]) by {
        assert(related(a[i], b[i]));
    }
}

/// The content that a snapshot keeps has ascending keys throughout, so it can be
/// compared key by key.
pub proof fn kept_content_is_valid(bytes: Seq<u8>, decoded: Decoded, content: Option<Json>)
    requires
        decode::decoded_from(bytes, decode::sniffed(bytes), decoded),
        kept(decoded, content),
    ensures
        content matches Some(json) ==> json::valid(json@),
{
    if let Some(json) = content {
        let value = decoded.body->Value_0;
        let outcome = choose|outcome: Result<decode::Value, PlistError>| #[trigger]
            property_list::outcome_of(bytes, outcome) && decode::settled(
                outcome,
                decode::sniffed(bytes),
                decoded,
            );
        let source = property_list::plist_parsed(bytes)->Ok_0;
        let tree = choose|tree: TreeModel| #[trigger]
            property_list::agrees(source, tree, property_list::MAX_DEPTH as nat) && value@
                == property_list::converted(tree, 0);
        property_list::conversion_is_bounded(tree, 0);
        decode::projected_is_valid(value@);
    }
}

/// Whether a record of a file tells what reading it came to: its path, with slashes, its
/// size, its time where it has one, its hash and its content.
pub open spec fn told_of(file: FileEntry, reading: Reading) -> bool {
    &&& reading.entry.kind == EntryKind::File
    &&& file.path@ == path::slashed(reading.entry.path@)
    &&& file.size == reading.entry.size
    &&& file.modified is Some <==> reading.entry.modified is Some
    &&& file.modified matches Some(text) ==> clock::written(reading.entry.modified->0, text@)
    &&& reading.outcome is Ok
    &&& file.sha256@ == reading.outcome->Ok_0.sha256@
    &&& file.content == reading.outcome->Ok_0.content
}

/// Whether a record tells of one of the readings.
pub open spec fn was_read(readings: Seq<Reading>, file: FileEntry) -> bool {
    exists|k: int| 0 <= k < readings.len() && told_of(file, #[trigger] readings[k])
}

/// Whether one of the records tells of a reading.
pub open spec fn is_recorded(files: Seq<FileEntry>, reading: Reading) -> bool {
    exists|i: int| 0 <= i < files.len() && told_of(#[trigger] files[i], reading)
}

/// A capture keeps which container of which group it is of and the device it is on, and
/// records the files that were read, all of them and nothing else, in order of their
/// paths. It fails exactly where a file could not be read.
pub proof fn a_capture_records_every_file(
    readings: Vec<Reading>,
    resolved: &discover::Container,
    device: &discover::Device,
    now: i64,
    result: Result<Snapshot, CaptureError>,
)
    requires
        call_ensures(Snapshot::capture, (readings, resolved, device, now), result),
    ensures
        result is Err <==> exists|i: int|
            0 <= i < readings@.len() && (#[trigger] readings@[i]).entry.kind == EntryKind::File
                && readings@[i].outcome is Err,
        result matches Ok(snapshot) ==> {
            &&& snapshot.version == 1
            &&& snapshot.group_id@ == resolved.id@
            &&& snapshot.container_uuid@ == resolved.uuid@
            &&& snapshot.device_udid@ == device.udid@
            &&& clock::written(now, snapshot.taken_at@)
            &&& snapshot.files@.len() == readings@.filter(
                |reading: Reading| reading.entry.kind == EntryKind::File,
            ).len()
            &&& forall|i: int|
                0 <= i < snapshot.files@.len() ==> was_read(readings@, #[trigger] snapshot.files@[i])
            &&& forall|k: int|
                0 <= k < readings@.len() && (#[trigger] readings@[k]).entry.kind
                    == EntryKind::File ==> is_recorded(snapshot.files@, readings@[k])
            &&& forall|i: int, j: int|
                0 <= i < j < snapshot.files@.len() ==> !text::precedes(
                    #[trigger] snapshot.files@[j].path@,
                    #[trigger] snapshot.files@[i].path@,
                )
        },
{
    let all = readings@;
    first_unread_is_unread(all);
    if let Ok(snapshot) = result {
        let files = choose|files: Seq<FileEntry>| #[trigger]
            record_of(all, files) && snapshot.files@ == order::arranged(files, by_path());
        records_tell_all(all, files, snapshot.files@);
    }
}

/// A file could not be read exactly where there is a first one.
proof fn first_unread_is_unread(readings: Seq<Reading>)
    ensures
        first_unread(readings) is Some <==> exists|i: int|
            0 <= i < readings.len() && (#[trigger] readings[i]).entry.kind == EntryKind::File
                && readings[i].outcome is Err,
    decreases readings.len(),
{
    if readings.len() > 0 {
        let rest = readings.drop_first();
        first_unread_is_unread(rest);
        if first_unread(rest) is Some {
            let i = choose|i: int|
                0 <= i < rest.len() && (#[trigger] rest[i]).entry.kind == EntryKind::File
                    && rest[i].outcome is Err;
            assert(readings[i + 1] == rest[i]);
        }
        if exists|i: int|
            0 <= i < readings.len() && (#[trigger] readings[i]).entry.kind == EntryKind::File
                && readings[i].outcome is Err {
            let i = choose|i: int|
                0 <= i < readings.len() && (#[trigger] readings[i]).entry.kind == EntryKind::File
                    && readings[i].outcome is Err;
            if i > 0 {
                assert(rest[i - 1] == readings[i]);
            }
        }
    }
}

/// A record tells of its reading.
proof fn a_record_tells(reading: Reading, file: FileEntry)
    requires
        records(reading, file),
        reading.entry.kind == EntryKind::File,
    ensures
        told_of(file, reading),
{
}

/// Sorted records tell of the files that were read, all of them and nothing else.
proof fn records_tell_all(readings: Seq<Reading>, files: Seq<FileEntry>, sorted: Seq<FileEntry>)
    requires
        record_of(readings, files),
        sorted == order::arranged(files, by_path()),
    ensures
        sorted.len() == of_files(readings).len(),
        forall|i: int|
            0 <= i < sorted.len() ==> was_read(readings, #[trigger] sorted[i]),
        forall|k: int|
            0 <= k < readings.len() && (#[trigger] readings[k]).entry.kind == EntryKind::File
                ==> is_recorded(sorted, readings[k]),
        forall|i: int, j: int|
            0 <= i < j < sorted.len() ==> !text::precedes(
                #[trigger] sorted[j].path@,
                #[trigger] sorted[i].path@,
            ),
{
    broadcast use {
        vstd::seq_lib::group_to_multiset_ensures,
        vstd::seq_lib::group_filter_ensures,
    };

    let pred = |reading: Reading| reading.entry.kind == EntryKind::File;
    let chosen = of_files(readings);
    captured_files_are_in_order(files);
    assert(sorted.to_multiset().len() == files.to_multiset().len());
    assert forall|i: int| 0 <= i < sorted.len() implies was_read(readings, #[trigger] sorted[i]) by {
        let file = sorted[i];
        assert(sorted.contains(file));
        assert(sorted.to_multiset().count(file) > 0);
        assert(files.contains(file));
        let m = choose|m: int| 0 <= m < files.len() && files[m] == file;
        assert(records(chosen[m], files[m]));
        assert(pred(chosen[m]));
        assert(chosen.contains(chosen[m]));
        readings.lemma_filter_contains_rev(pred, chosen[m]);
        let k = choose|k: int| 0 <= k < readings.len() && readings[k] == chosen[m];
        a_record_tells(readings[k], file);
        assert(told_of(sorted[i], readings[k]));
    }
    assert forall|k: int|
        0 <= k < readings.len() && (#[trigger] readings[k]).entry.kind
            == EntryKind::File implies is_recorded(sorted, readings[k]) by {
        assert(pred(readings[k]));
        assert(chosen.contains(readings[k]));
        let m = choose|m: int| 0 <= m < chosen.len() && chosen[m] == readings[k];
        assert(records(chosen[m], files[m]));
        assert(files.contains(files[m]));
        assert(files.to_multiset().count(files[m]) > 0);
        assert(sorted.contains(files[m]));
        let i = choose|i: int| 0 <= i < sorted.len() && sorted[i] == files[m];
        a_record_tells(readings[k], sorted[i]);
    }
    assert forall|i: int, j: int| 0 <= i < j < sorted.len() implies !text::precedes(
        #[trigger] sorted[j].path@,
        #[trigger] sorted[i].path@,
    ) by {
        order::in_order_means(sorted, by_path(), i, j);
        assert(!by_path()(sorted[j], sorted[i]));
    }
}

/// The first file that could not be read is the one a failed capture names.
pub proof fn a_failed_capture_names_the_first_file(
    readings: Vec<Reading>,
    resolved: &discover::Container,
    device: &discover::Device,
    now: i64,
    result: Result<Snapshot, CaptureError>,
    index: int,
)
    requires
        call_ensures(Snapshot::capture, (readings, resolved, device, now), result),
        0 <= index < readings@.len(),
        readings@[index].entry.kind == EntryKind::File,
        readings@[index].outcome is Err,
        forall|i: int|
            0 <= i < index && (#[trigger] readings@[i]).entry.kind == EntryKind::File
                ==> readings@[i].outcome is Ok,
    ensures
        result matches Err(CaptureError::Unreadable { path, cause }) && path@
            == readings@[index].entry.path@ && cause@ == readings@[index].outcome->Err_0@,
{
    first_unread_is_first(readings@, index);
}

/// The first file that could not be read has none before it.
proof fn first_unread_is_first(readings: Seq<Reading>, index: int)
    requires
        0 <= index < readings.len(),
        readings[index].entry.kind == EntryKind::File,
        readings[index].outcome is Err,
        forall|i: int|
            0 <= i < index && (#[trigger] readings[i]).entry.kind == EntryKind::File
                ==> readings[i].outcome is Ok,
    ensures
        first_unread(readings) == Some(readings[index]),
    decreases readings.len(),
{
    if index > 0 {
        let rest = readings.drop_first();
        assert(rest[index - 1] == readings[index]);
        assert forall|i: int|
            0 <= i < index - 1 && (#[trigger] rest[i]).entry.kind
                == EntryKind::File implies rest[i].outcome is Ok by {
            assert(rest[i] == readings[i + 1]);
        }
        assert(readings[0].entry.kind == EntryKind::File ==> readings[0].outcome is Ok);
        first_unread_is_first(rest, index - 1);
    }
}

/// A fingerprint is the hash of the bytes and, for a property list that can be read,
/// content that says what it says; of anything else it keeps no content.
pub proof fn a_fingerprint_keeps_what_is_said(bytes: &[u8], print: Fingerprint)
    requires
        call_ensures(fingerprint, (bytes,), print),
    ensures
        print.sha256@ == hash::sha256_digits(bytes@),
        print.content is Some <==> (decode::sniffed(bytes@) == Format::BinaryPlist
            || decode::sniffed(bytes@) == Format::XmlPlist) && !property_list::far_date_in(bytes@)
            && property_list::plist_parsed(bytes@) is Ok,
        print.content matches Some(json) ==> exists|value: decode::ValueModel|
            property_list::holds(property_list::plist_parsed(bytes@)->Ok_0, value, 128)
                && #[trigger] decode::says_the_same(value, json@),
{
    let decoded = choose|decoded: Decoded| #[trigger]
        decode::decoded_from(bytes@, decode::sniffed(bytes@), decoded) && kept(
            decoded,
            print.content,
        );
    if decode::sniffed(bytes@) == Format::BinaryPlist || decode::sniffed(bytes@)
        == Format::XmlPlist {
        let outcome = choose|outcome: Result<decode::Value, PlistError>| #[trigger]
            property_list::outcome_of(bytes@, outcome) && decode::settled(
                outcome,
                decode::sniffed(bytes@),
                decoded,
            );
        if let Ok(value) = outcome {
            property_list::outcome_holds(property_list::plist_parsed(bytes@)->Ok_0, value@);
            decode::json_keeps_what_is_said(value@);
            assert(decode::says_the_same(value@, print.content->0@));
        }
    }
}

/// A snapshot is taken as it is exactly where its format is the first one or older: a
/// newer one is refused with its number, and a file that cannot be read or holds no
/// snapshot is told by its path.
pub proof fn only_a_newer_format_is_refused(
    path: &str,
    loaded: Loaded,
    result: Result<Snapshot, LoadError>,
)
    requires
        call_ensures(Snapshot::load, (path, loaded), result),
    ensures
        result is Ok <==> loaded is Snapshot && loaded->Snapshot_0.version <= 1,
        result matches Ok(snapshot) ==> loaded == Loaded::Snapshot(snapshot),
        result matches Err(LoadError::NewerFormat { path: file, version }) ==> file@ == path@
            && loaded is Snapshot && version == loaded->Snapshot_0.version && version > 1,
        result matches Err(LoadError::Unreadable { path: file }) ==> file@ == path@
            && loaded is Unreadable,
        result matches Err(LoadError::Malformed { path: file }) ==> file@ == path@
            && loaded is Malformed,
{
}

/// Files of up to 262144 bytes are read whole, and no others.
pub proof fn small_files_are_read_whole(size: u64, whole: bool)
    requires
        call_ensures(reads_whole, (size,), whole),
    ensures
        whole <==> size <= 262_144,
{
}

/// What the errors say holds the paths, numbers and words they are about.
pub proof fn errors_name_the_file(path: String, cause: String, version: u32)
    ensures
        text::mentions((CaptureError::Unreadable { path, cause }).said(), path@),
        text::mentions((LoadError::Unreadable { path }).said(), path@),
        text::mentions((LoadError::Malformed { path }).said(), path@),
        text::mentions((LoadError::NewerFormat { path, version }).said(), path@),
        text::mentions(
            (LoadError::NewerFormat { path, version }).said(),
            number::decimal(version as nat),
        ),
{
    let digits = number::decimal(version as nat);
    let tail = " but this build understands "@ + number::decimal(FORMAT_VERSION as nat);
    let newer = (LoadError::NewerFormat { path, version }).said();
    assert(newer =~= "`"@ + path@ + ("` uses snapshot format "@ + digits + tail));
    assert(newer =~= ("`"@ + path@ + "` uses snapshot format "@) + digits + tail);
}

} // verus!
