//! Locating simulators and their App Group containers.
//!
//! This is deliberately the only module that knows simulators exist. The caller
//! runs `xcrun simctl` and reads directories, and hands over what came back;
//! everything above operates on a directory tree and can be tested without a
//! simulator booted.

use vstd::prelude::*;
use crate::decode::property_list;
use crate::decode::property_list::{PlistModel, Tree, TreeModel};
use crate::number;
use crate::number::push_decimal;
use crate::order;
use crate::order::{sort, Ranked};
use crate::path;
use crate::path::{file_name_of, put_together};
use crate::text;
use crate::text::{comes_before, same, same_ignoring_case};

verus! {

// ---------------------------------------------------------------------------
// Types
// ---------------------------------------------------------------------------

/// A simulator that can be inspected.
#[derive(Debug)]
pub struct Device {
    /// Stable unique identifier, e.g. `B943F0CB-ED32-487F-9D2D-F1977C064AE7`.
    pub udid: String,
    /// Display name, e.g. `iPhone 17`.
    pub name: String,
    /// Simulator lifecycle state, e.g. `Booted` or `Shutdown`.
    pub state: String,
    /// Human-readable runtime, e.g. `iOS 26.5`.
    pub runtime: String,
    /// Root of the device's data volume, the parent of `Containers/`.
    pub data_path: String,
}

/// What a device is.
pub struct DeviceModel {
    /// Stable unique identifier.
    pub udid: Seq<char>,
    /// Display name.
    pub name: Seq<char>,
    /// Simulator lifecycle state.
    pub state: Seq<char>,
    /// Human-readable runtime.
    pub runtime: Seq<char>,
    /// Root of the device's data volume.
    pub data_path: Seq<char>,
}

impl View for Device {
    type V = DeviceModel;

    open spec fn view(&self) -> DeviceModel {
        DeviceModel {
            udid: self.udid@,
            name: self.name@,
            state: self.state@,
            runtime: self.runtime@,
            data_path: self.data_path@,
        }
    }
}

impl Clone for Device {
    fn clone(&self) -> (copy: Self)
        ensures
            copy@ == self@,
    {
        Device {
            udid: self.udid.clone(),
            name: self.name.clone(),
            state: self.state.clone(),
            runtime: self.runtime.clone(),
            data_path: self.data_path.clone(),
        }
    }
}

/// Whether a device is running.
pub open spec fn booted(device: DeviceModel) -> bool {
    text::alike(device.state, "Booted"@)
}

impl Device {
    /// Whether the simulator is currently running.
    pub fn is_booted(&self) -> (yes: bool)
        ensures
            yes == booted(self@),
    {
        same_ignoring_case(self.state.as_str(), "Booted")
    }
}

/// An App Group container declared by an app.
#[derive(Debug)]
pub struct AppGroup {
    /// The group identifier as declared in the app's entitlements.
    ///
    /// Note this does **not** reliably begin with `group.` — `systemgroup.…` and
    /// bare identifiers such as `com.apple.CoreODI` both occur in practice.
    pub id: String,
    /// Absolute path to the container on the host filesystem.
    pub path: String,
}

impl View for AppGroup {
    type V = (Seq<char>, Seq<char>);

    /// The identifier with the path.
    open spec fn view(&self) -> (Seq<char>, Seq<char>) {
        (self.id@, self.path@)
    }
}

/// Which of the two shared-container roots a container lives under.
#[derive(Debug, Clone, Copy, PartialEq, Eq, Structural)]
pub enum ContainerKind {
    /// `Containers/Shared/AppGroup` — declared by an app's entitlements.
    App,
    /// `Containers/Shared/SystemGroup` — created by system daemons.
    System,
}

impl ContainerKind {
    /// Directory name under `Containers/Shared`.
    pub open spec fn directory(self) -> Seq<char> {
        match self {
            ContainerKind::App => "AppGroup"@,
            ContainerKind::System => "SystemGroup"@,
        }
    }

    /// Directory name under `Containers/Shared`.
    pub fn dir_name(self) -> (name: &'static str)
        ensures
            name@ == self.directory(),
    {
        match self {
            ContainerKind::App => "AppGroup",
            ContainerKind::System => "SystemGroup",
        }
    }

    /// The kind in a word.
    pub open spec fn named(self) -> Seq<char> {
        match self {
            ContainerKind::App => "app"@,
            ContainerKind::System => "system"@,
        }
    }

    /// The kind in a word.
    pub fn name(self) -> (name: &'static str)
        ensures
            name@ == self.named(),
    {
        match self {
            ContainerKind::App => "app",
            ContainerKind::System => "system",
        }
    }
}

/// A shared container found on disk.
#[derive(Debug)]
pub struct Container {
    /// Group identifier read from the container's metadata.
    pub id: String,
    /// Which root the container lives under.
    pub kind: ContainerKind,
    /// The container directory's own UUID, which is unique where `id` is not.
    pub uuid: String,
    /// Absolute path to the container.
    pub path: String,
}

/// What a container is.
pub struct ContainerModel {
    /// Group identifier.
    pub id: Seq<char>,
    /// Which root the container lives under.
    pub kind: ContainerKind,
    /// The container directory's own UUID.
    pub uuid: Seq<char>,
    /// Absolute path to the container.
    pub path: Seq<char>,
}

impl View for Container {
    type V = ContainerModel;

    open spec fn view(&self) -> ContainerModel {
        ContainerModel { id: self.id@, kind: self.kind, uuid: self.uuid@, path: self.path@ }
    }
}

impl Clone for Container {
    fn clone(&self) -> (copy: Self)
        ensures
            copy@ == self@,
    {
        Container {
            id: self.id.clone(),
            kind: self.kind,
            uuid: self.uuid.clone(),
            path: self.path.clone(),
        }
    }
}

// ---------------------------------------------------------------------------
// Errors
// ---------------------------------------------------------------------------

/// Why discovery failed.
#[derive(Debug)]
pub enum DiscoverError {
    /// No container has the identifier or UUID asked for.
    NoContainer {
        /// What was asked for.
        query: String,
        /// Name of the device that was searched.
        device: String,
    },
    /// Several containers have the identifier asked for.
    SeveralContainers {
        /// What was asked for.
        query: String,
        /// The containers that have it.
        containers: Vec<Container>,
    },
    /// A command could not be started.
    NotStarted {
        /// The command.
        command: String,
    },
    /// A command failed without saying why.
    FailedSilently {
        /// The command.
        command: String,
        /// How it exited.
        status: String,
    },
    /// A command failed.
    Failed {
        /// The command.
        command: String,
        /// What it said.
        detail: String,
    },
    /// No simulator has the UDID or name asked for.
    NoSimulator {
        /// What was asked for.
        query: String,
        /// The simulators there are.
        devices: Vec<Device>,
    },
    /// Several simulators have the name asked for.
    SeveralSimulators {
        /// What was asked for.
        query: String,
        /// The simulators that have it.
        devices: Vec<Device>,
    },
    /// No simulator is booted.
    NoneBooted {
        /// The simulators there are.
        devices: Vec<Device>,
    },
    /// Several simulators are booted.
    SeveralBooted {
        /// The simulators that are.
        devices: Vec<Device>,
    },
    /// A line of a group listing has no tab.
    UnexpectedLine {
        /// The line.
        line: String,
    },
    /// The groups of an app could not be listed.
    GroupsUnreadable {
        /// The app.
        bundle_id: String,
        /// Name of the device.
        device: String,
        /// UDID of the device.
        udid: String,
        /// Why they could not.
        cause: Box<DiscoverError>,
    },
    /// An app declares no groups.
    NoGroups {
        /// The app.
        bundle_id: String,
        /// Name of the device.
        device: String,
    },
}

/// One line of a list of devices.
pub open spec fn device_line(device: DeviceModel) -> Seq<char> {
    "  "@ + device.name + " ("@ + device.runtime + ", "@ + device.udid + ")"@
}

/// Devices as an indented list.
pub open spec fn bullets(devices: Seq<DeviceModel>) -> Seq<char> {
    if devices.len() == 0 {
        "  (none)"@
    } else {
        text::joined(devices.map_values(|device: DeviceModel| device_line(device)), "\n"@)
    }
}

/// One line of a list of containers.
pub open spec fn container_line(container: ContainerModel) -> Seq<char> {
    "  "@ + container.uuid + " ("@ + container.kind.named() + ")"@
}

/// Containers as an indented list.
pub open spec fn container_bullets(containers: Seq<ContainerModel>) -> Seq<char> {
    text::joined(
        containers.map_values(|container: ContainerModel| container_line(container)),
        "\n"@,
    )
}

impl DiscoverError {
    /// What the error says.
    pub open spec fn said(self) -> Seq<char> {
        match self {
            DiscoverError::NoContainer { query, device } => "no container for `"@ + query@
                + "` on "@ + device@
                + "\n\nrun `agpeek groups <bundle-id>` to see what an app declares"@,
            DiscoverError::SeveralContainers { query, containers } => "`"@ + query@ + "` matches "@
                + number::decimal(containers@.len())
                + " containers — pass the UUID instead:\n"@ + container_bullets(
                order::views(containers@),
            ),
            DiscoverError::NotStarted { command } => "failed to run `"@ + command@ + "`"@,
            DiscoverError::FailedSilently { command, status } => "`"@ + command@
                + "` failed with "@ + status@,
            DiscoverError::Failed { command, detail } => "`"@ + command@ + "` failed: "@ + detail@,
            DiscoverError::NoSimulator { query, devices } => "no simulator matches `"@ + query@
                + "`\n\navailable:\n"@ + bullets(order::views(devices@)),
            DiscoverError::SeveralSimulators { query, devices } => "`"@ + query@ + "` matches "@
                + number::decimal(devices@.len()) + " simulators — pass a UDID instead:\n"@
                + bullets(order::views(devices@)),
            DiscoverError::NoneBooted { devices } =>
                "no booted simulator — boot one, or pass --device\n\navailable:\n"@ + bullets(
                order::views(devices@),
            ),
            DiscoverError::SeveralBooted { devices } => number::decimal(devices@.len())
                + " simulators are booted — pass --device to choose:\n"@ + bullets(
                order::views(devices@),
            ),
            DiscoverError::UnexpectedLine { line } => "unexpected line from simctl: "@
                + text::quoted(line@),
            DiscoverError::GroupsUnreadable { bundle_id, device, udid, cause } =>
                "could not read App Groups for `"@ + bundle_id@ + "` on "@ + device@ + " ("@ + udid@
                + ") — is the app installed?"@,
            DiscoverError::NoGroups { bundle_id, device } => "`"@ + bundle_id@
                + "` is installed on "@ + device@ + " but declares no App Groups"@,
        }
    }

    /// The error in words.
    pub fn message(&self) -> (text: String)
        ensures
            text@ == self.said(),
    {
        let mut text = String::new();
        match self {
            DiscoverError::NoContainer { query, device } => {
                text.push_str("no container for `");
                text.push_str(query.as_str());
                text.push_str("` on ");
                text.push_str(device.as_str());
                text.push_str("\n\nrun `agpeek groups <bundle-id>` to see what an app declares");
            },
            DiscoverError::SeveralContainers { query, containers } => {
                text.push_str("`");
                text.push_str(query.as_str());
                text.push_str("` matches ");
                push_decimal(&mut text, containers.len() as u128);
                text.push_str(" containers — pass the UUID instead:\n");
                text.push_str(container_list(containers).as_str());
            },
            DiscoverError::NotStarted { command } => {
                text.push_str("failed to run `");
                text.push_str(command.as_str());
                text.push_str("`");
            },
            DiscoverError::FailedSilently { command, status } => {
                text.push_str("`");
                text.push_str(command.as_str());
                text.push_str("` failed with ");
                text.push_str(status.as_str());
            },
            DiscoverError::Failed { command, detail } => {
                text.push_str("`");
                text.push_str(command.as_str());
                text.push_str("` failed: ");
                text.push_str(detail.as_str());
            },
            DiscoverError::NoSimulator { query, devices } => {
                text.push_str("no simulator matches `");
                text.push_str(query.as_str());
                text.push_str("`\n\navailable:\n");
                text.push_str(bullet_list(devices).as_str());
            },
            DiscoverError::SeveralSimulators { query, devices } => {
                text.push_str("`");
                text.push_str(query.as_str());
                text.push_str("` matches ");
                push_decimal(&mut text, devices.len() as u128);
                text.push_str(" simulators — pass a UDID instead:\n");
                text.push_str(bullet_list(devices).as_str());
            },
            DiscoverError::NoneBooted { devices } => {
                text.push_str("no booted simulator — boot one, or pass --device\n\navailable:\n");
                text.push_str(bullet_list(devices).as_str());
            },
            DiscoverError::SeveralBooted { devices } => {
                push_decimal(&mut text, devices.len() as u128);
                text.push_str(" simulators are booted — pass --device to choose:\n");
                text.push_str(bullet_list(devices).as_str());
            },
            DiscoverError::UnexpectedLine { line } => {
                text.push_str("unexpected line from simctl: ");
                text.push_str(text::quote(line.as_str()).as_str());
            },
            DiscoverError::GroupsUnreadable { bundle_id, device, udid, cause: _ } => {
                text.push_str("could not read App Groups for `");
                text.push_str(bundle_id.as_str());
                text.push_str("` on ");
                text.push_str(device.as_str());
                text.push_str(" (");
                text.push_str(udid.as_str());
                text.push_str(") — is the app installed?");
            },
            DiscoverError::NoGroups { bundle_id, device } => {
                text.push_str("`");
                text.push_str(bundle_id.as_str());
                text.push_str("` is installed on ");
                text.push_str(device.as_str());
                text.push_str(" but declares no App Groups");
            },
        }
        assert(text@ =~= self.said());
        text
    }
}

/// Renders devices as an indented list for use inside error messages.
pub fn bullet_list(devices: &Vec<Device>) -> (list: String)
    ensures
        list@ == bullets(order::views(devices@)),
{
    if devices.len() == 0 {
        return "  (none)".to_string();
    }
    let ghost models = order::views(devices@);
    let ghost all = models.map_values(|device: DeviceModel| device_line(device));
    let mut lines: Vec<String> = Vec::new();
    let mut i: usize = 0;
    while i < devices.len()
        invariant
            i <= devices@.len(),
            models == order::views(devices@),
            all == models.map_values(|device: DeviceModel| device_line(device)),
            text::texts(lines@) == all.take(i as int),
        decreases devices@.len() - i,
    {
        let ghost before = text::texts(lines@);
        let mut line = "  ".to_string();
        line.push_str(devices[i].name.as_str());
        line.push_str(" (");
        line.push_str(devices[i].runtime.as_str());
        line.push_str(", ");
        line.push_str(devices[i].udid.as_str());
        line.push_str(")");
        assert(line@ == device_line(models[i as int]));
        lines.push(line);
        assert(text::texts(lines@) =~= before.push(all[i as int]));
        assert(text::texts(lines@) =~= all.take(i + 1));
        i += 1;
    }
    assert(all.take(i as int) =~= all);
    text::join(&lines, "\n")
}

/// Renders containers as an indented list for use inside error messages.
fn container_list(containers: &Vec<Container>) -> (list: String)
    ensures
        list@ == container_bullets(order::views(containers@)),
{
    let ghost models = order::views(containers@);
    let ghost all = models.map_values(|container: ContainerModel| container_line(container));
    let mut lines: Vec<String> = Vec::new();
    let mut i: usize = 0;
    while i < containers.len()
        invariant
            i <= containers@.len(),
            models == order::views(containers@),
            all == models.map_values(|container: ContainerModel| container_line(container)),
            text::texts(lines@) == all.take(i as int),
        decreases containers@.len() - i,
    {
        let ghost before = text::texts(lines@);
        let mut line = "  ".to_string();
        line.push_str(containers[i].uuid.as_str());
        line.push_str(" (");
        line.push_str(containers[i].kind.name());
        line.push_str(")");
        assert(line@ == container_line(models[i as int]));
        lines.push(line);
        assert(text::texts(lines@) =~= before.push(all[i as int]));
        assert(text::texts(lines@) =~= all.take(i + 1));
        i += 1;
    }
    assert(all.take(i as int) =~= all);
    text::join(&lines, "\n")
}

// ---------------------------------------------------------------------------
// Containers on disk
// ---------------------------------------------------------------------------

/// Filename of the per-container metadata plist written by the container manager.
pub const METADATA_PLIST: &'static str = ".com.apple.mobile_container_manager.metadata.plist";

/// Key inside that plist holding the group identifier.
pub const METADATA_ID_KEY: &'static str = "MCMMetadataIdentifier";

/// The group identifier that a property list holds.
pub open spec fn tree_id(tree: TreeModel) -> Option<Seq<char>> {
    match tree {
        TreeModel::Dict(entries) => match order::lookup(entries, METADATA_ID_KEY@) {
            Some(TreeModel::String(id)) => Some(id),
            _ => None,
        },
        _ => None,
    }
}

/// The group identifier that a property list holds.
pub open spec fn source_id(source: PlistModel) -> Option<Seq<char>> {
    match source {
        PlistModel::Dict(entries) => match order::lookup(entries, METADATA_ID_KEY@) {
            Some(PlistModel::String(id)) => Some(id),
            _ => None,
        },
        _ => None,
    }
}

/// The group identifier that the bytes of a metadata plist hold, if they are one
/// and it holds any.
pub open spec fn metadata_id(bytes: Seq<u8>) -> Option<Seq<char>> {
    if property_list::far_date_in(bytes) {
        None
    } else {
        match property_list::plist_parsed(bytes) {
            Ok(source) => source_id(source),
            Err(_) => None,
        }
    }
}

/// The view of an optional string.
pub open spec fn optional_text(text: Option<String>) -> Option<Seq<char>> {
    match text {
        Some(found) => Some(found@),
        None => None,
    }
}

/// What plain values hold under a key is what the property list holds there.
proof fn lookups_agree(
    source: Seq<(Seq<char>, PlistModel)>,
    tree: Seq<(Seq<char>, TreeModel)>,
    key: Seq<char>,
)
    requires
        source.len() == tree.len(),
        forall|i: int|
            0 <= i < source.len() ==> (#[trigger] source[i]).0 == tree[i].0
                && property_list::agrees(source[i].1, tree[i].1, 1),
    ensures
        match (order::lookup(source, key), order::lookup(tree, key)) {
            (Some(a), Some(b)) => property_list::agrees(a, b, 1),
            (None, None) => true,
            _ => false,
        },
    decreases source.len(),
{
    if source.len() > 0 {
        let x = source.drop_first();
        let y = tree.drop_first();
        assert(source[0].0 == tree[0].0);
        assert forall|i: int| 0 <= i < x.len() implies (#[trigger] x[i]).0 == y[i].0
            && property_list::agrees(x[i].1, y[i].1, 1) by {
            assert(x[i] == source[i + 1]);
            assert(y[i] == tree[i + 1]);
        }
        lookups_agree(x, y, key);
    }
}

/// What agrees some levels down agrees one level down.
proof fn agreement_at_the_top(source: PlistModel, tree: TreeModel, room: nat)
    requires
        room >= 1,
        property_list::agrees(source, tree, room),
    ensures
        property_list::agrees(source, tree, 1),
{
    reveal_with_fuel(property_list::agrees, 2);
}

/// Plain values hold the identifier that the property list holds.
proof fn ids_agree(source: PlistModel, tree: TreeModel, room: nat)
    requires
        room >= 2,
        property_list::agrees(source, tree, room),
    ensures
        tree_id(tree) == source_id(source),
{
    match (source, tree) {
        (PlistModel::Dict(a), TreeModel::Dict(b)) => {
            assert forall|i: int| 0 <= i < a.len() implies (#[trigger] a[i]).0 == b[i].0
                && property_list::agrees(a[i].1, b[i].1, 1) by {
                agreement_at_the_top(a[i].1, b[i].1, (room - 1) as nat);
            }
            lookups_agree(a, b, METADATA_ID_KEY@);
        },
        _ => {},
    }
}

/// The group identifier that a property list holds.
pub fn container_id(tree: &Tree) -> (id: Option<String>)
    ensures
        optional_text(id) == tree_id(tree@),
{
    match tree {
        Tree::Dict(entries) => {
            let ghost all = tree@->Dict_0;
            let mut i: usize = 0;
            assert(all.skip(0) =~= all);
            while i < entries.len()
                invariant
                    i <= entries@.len(),
                    *tree == Tree::Dict(*entries),
                    all == tree@->Dict_0,
                    order::lookup(all, METADATA_ID_KEY@) == order::lookup(
                        all.skip(i as int),
                        METADATA_ID_KEY@,
                    ),
                decreases entries@.len() - i,
            {
                assert(all.skip(i as int)[0] == all[i as int]);
                assert(all[i as int] == (entries@[i as int].0@, entries@[i as int].1@));
                if same(entries[i].0.as_str(), METADATA_ID_KEY) {
                    return match &entries[i].1 {
                        Tree::String(id) => Some(id.clone()),
                        _ => None,
                    };
                }
                assert(all.skip(i as int).drop_first() =~= all.skip(i + 1));
                i += 1;
            }
            None
        },
        _ => None,
    }
}

/// Reads the group identifier out of a container's metadata plist.
///
/// Returns `None` rather than an error for anything unexpected: the scan walks
/// every container on the device, and one malformed neighbour must not prevent
/// finding the container actually being looked for.
pub fn read_container_id(metadata: &[u8]) -> (id: Option<String>)
    ensures
        optional_text(id) == metadata_id(metadata@),
{
    match property_list::read(metadata) {
        Ok(tree) => {
            proof {
                ids_agree(
                    property_list::plist_parsed(metadata@)->Ok_0,
                    tree@,
                    property_list::MAX_DEPTH as nat,
                );
            }
            container_id(&tree)
        },
        Err(_) => None,
    }
}

/// The directory under which a device keeps its containers of one kind.
pub fn container_root(device: &Device, kind: ContainerKind) -> (root: String)
    ensures
        root@ == path::put_behind(
            path::put_behind(device.data_path@, "Containers/Shared"@),
            kind.directory(),
        ),
{
    let shared = put_together(device.data_path.as_str(), "Containers/Shared");
    put_together(shared.as_str(), kind.dir_name())
}

/// Something found under a container root.
#[derive(Debug)]
pub struct Found {
    /// Its path.
    pub path: String,
    /// Whether it is a directory.
    pub is_dir: bool,
    /// The bytes of its metadata plist, if they could be read.
    pub metadata: Option<Vec<u8>>,
}

/// The container that something found is, if it is one.
pub open spec fn identified(found: Found, kind: ContainerKind) -> Option<ContainerModel> {
    match (found.metadata, path::file_name(found.path@)) {
        (Some(metadata), Some(uuid)) => match metadata_id(metadata@) {
            Some(id) => if found.is_dir {
                Some(ContainerModel { id, kind, uuid, path: found.path@ })
            } else {
                None
            },
            None => None,
        },
        _ => None,
    }
}

/// The containers among what was found.
pub open spec fn gathered(found: Seq<Found>, kind: ContainerKind) -> Seq<ContainerModel>
    decreases found.len(),
{
    if found.len() == 0 {
        seq![]
    } else {
        let front = gathered(found.drop_last(), kind);
        match identified(found.last(), kind) {
            Some(container) => front.push(container),
            None => front,
        }
    }
}

/// Whether the UUID of one container comes before that of another.
pub open spec fn by_uuid() -> spec_fn(ContainerModel, ContainerModel) -> bool {
    |a: ContainerModel, b: ContainerModel| text::precedes(a.uuid, b.uuid)
}

impl Ranked for Container {
    open spec fn outranks(a: Self, b: Self) -> bool {
        text::precedes(a.uuid@, b.uuid@)
    }

    fn is_before(a: &Self, b: &Self) -> bool {
        comes_before(a.uuid.as_str(), b.uuid.as_str())
    }
}

/// The container that something found is, if it is one.
fn identify(found: &Found, kind: ContainerKind) -> (container: Option<Container>)
    ensures
        match container {
            Some(known) => Some(known@),
            None => None,
        } == identified(*found, kind),
{
    if !found.is_dir {
        return None;
    }
    match &found.metadata {
        Some(metadata) => match (
            read_container_id(metadata.as_slice()),
            file_name_of(found.path.as_str()),
        ) {
            (Some(id), Some(uuid)) => Some(
                Container { id, kind, uuid, path: found.path.clone() },
            ),
            _ => None,
        },
        None => None,
    }
}

/// The containers under one root, in order of their UUIDs.
fn containers_in(found: &Vec<Found>, kind: ContainerKind) -> (containers: Vec<Container>)
    ensures
        order::views(containers@) == order::arranged(gathered(found@, kind), by_uuid()),
{
    let mut in_root: Vec<Container> = Vec::new();
    let mut i: usize = 0;
    assert(order::views(in_root@) =~= gathered(found@.take(0), kind));
    while i < found.len()
        invariant
            i <= found@.len(),
            order::views(in_root@) == gathered(found@.take(i as int), kind),
        decreases found@.len() - i,
    {
        let ghost before = order::views(in_root@);
        assert(found@.take(i + 1).drop_last() =~= found@.take(i as int));
        assert(found@.take(i + 1).last() == found@[i as int]);
        if let Some(container) = identify(&found[i], kind) {
            in_root.push(container);
            assert(order::views(in_root@) =~= before.push(container@));
        }
        i += 1;
    }
    assert(found@.take(i as int) =~= found@);
    proof {
        order::arranged_views::<Container>(in_root@, by_uuid());
    }
    sort(in_root)
}

/// Every shared container on a device, across both roots, given what was found
/// under each.
pub open spec fn containers_of(app: Seq<Found>, system: Seq<Found>) -> Seq<ContainerModel> {
    order::arranged(gathered(app, ContainerKind::App), by_uuid()) + order::arranged(
        gathered(system, ContainerKind::System),
        by_uuid(),
    )
}

/// Lists every shared container on a device, across both roots.
///
/// Ordering is by kind then UUID so output and error messages are deterministic.
pub fn containers(app: &Vec<Found>, system: &Vec<Found>) -> (found: Vec<Container>)
    ensures
        order::views(found@) == containers_of(app@, system@),
{
    let mut found = containers_in(app, ContainerKind::App);
    let ghost first = found@;
    let mut rest = containers_in(system, ContainerKind::System);
    let ghost second = rest@;
    found.append(&mut rest);
    assert(order::views(first + second) =~= order::views(first) + order::views(second));
    found
}

/// The first container whose UUID is the one asked for, but for case.
pub open spec fn with_uuid(available: Seq<ContainerModel>, query: Seq<char>) -> Option<
    ContainerModel,
>
    decreases available.len(),
{
    if available.len() == 0 {
        None
    } else if text::alike(available[0].uuid, query) {
        Some(available[0])
    } else {
        with_uuid(available.drop_first(), query)
    }
}

/// The containers of the group asked for.
pub open spec fn with_id(available: Seq<ContainerModel>, query: Seq<char>) -> Seq<ContainerModel> {
    available.filter(|container: ContainerModel| container.id == query)
}

/// Resolves a group identifier to a single container.
///
/// Accepts either a group identifier or a container UUID. Group identifiers are
/// **not** unique — `systemgroup.com.apple.accessorysetupkit` exists under both
/// roots on a stock simulator, with different contents — so an ambiguous match is
/// an error listing the candidates, and the UUID is the way to disambiguate.
pub fn resolve_container(available: &Vec<Container>, device: &Device, query: &str) -> (result:
    Result<Container, DiscoverError>)
    ensures
        ({
            let all = order::views(available@);
            let matching = with_id(all, query@);
            match with_uuid(all, query@) {
                Some(container) => result matches Ok(found) && found@ == container,
                None => if matching.len() == 1 {
                    result matches Ok(found) && found@ == matching[0]
                } else if matching.len() == 0 {
                    result matches Err(DiscoverError::NoContainer { query: asked, device: name })
                        && asked@ == query@ && name@ == device.name@
                } else {
                    result matches Err(
                        DiscoverError::SeveralContainers { query: asked, containers },
                    ) && asked@ == query@ && order::views(containers@) == matching
                },
            }
        }),
{
    let ghost all = order::views(available@);
    let mut i: usize = 0;
    assert(all.skip(0) =~= all);
    while i < available.len()
        invariant
            i <= available@.len(),
            all == order::views(available@),
            with_uuid(all, query@) == with_uuid(all.skip(i as int), query@),
        decreases available@.len() - i,
    {
        assert(all.skip(i as int)[0] == available@[i as int]@);
        if same_ignoring_case(available[i].uuid.as_str(), query) {
            return Ok(available[i].clone());
        }
        assert(all.skip(i as int).drop_first() =~= all.skip(i + 1));
        i += 1;
    }
    assert(with_uuid(all, query@) is None);
    let mut matching: Vec<Container> = Vec::new();
    let mut j: usize = 0;
    proof {
        reveal(Seq::filter);
    }
    assert(order::views(matching@) =~= with_id(all.take(0), query@));
    while j < available.len()
        invariant
            j <= available@.len(),
            all == order::views(available@),
            order::views(matching@) == with_id(all.take(j as int), query@),
        decreases available@.len() - j,
    {
        let ghost before = order::views(matching@);
        proof {
            reveal(Seq::filter);
            assert(all.take(j + 1).drop_last() =~= all.take(j as int));
            assert(all.take(j + 1).last() == available@[j as int]@);
        }
        if same(available[j].id.as_str(), query) {
            matching.push(available[j].clone());
            assert(order::views(matching@) =~= before.push(available@[j as int]@));
        }
        j += 1;
    }
    assert(all.take(j as int) =~= all);
    assert(order::views(matching@).len() == matching@.len());
    if matching.len() == 1 {
        let only = matching.remove(0);
        Ok(only)
    } else if matching.len() == 0 {
        Err(
            DiscoverError::NoContainer {
                query: query.to_string(),
                device: device.name.clone(),
            },
        )
    } else {
        Err(DiscoverError::SeveralContainers { query: query.to_string(), containers: matching })
    }
}

// ---------------------------------------------------------------------------
// Running simctl
// ---------------------------------------------------------------------------

/// What came of running a command.
#[derive(Debug)]
pub enum Ran {
    /// The process could not be spawned.
    NotStarted,
    /// The process ran.
    Finished {
        /// Whether it exited with success.
        success: bool,
        /// How it exited, in words.
        status: String,
        /// What it wrote to stdout.
        stdout: String,
        /// What it wrote to stderr.
        stderr: String,
    },
}

/// A simctl command in one line.
pub open spec fn command_line(args: Seq<Seq<char>>) -> Seq<char> {
    "xcrun simctl "@ + text::joined(args, " "@)
}

/// The arguments of simctl that list the devices.
pub fn device_list_args() -> (args: Vec<String>)
    ensures
        text::texts(args@) == seq!["list"@, "devices"@, "-j"@],
{
    let mut args: Vec<String> = Vec::new();
    args.push("list".to_string());
    args.push("devices".to_string());
    args.push("-j".to_string());
    assert(text::texts(args@) =~= seq!["list"@, "devices"@, "-j"@]);
    args
}

/// The arguments of simctl that list the groups of an app.
pub fn app_group_args(device: &Device, bundle_id: &str) -> (args: Vec<String>)
    ensures
        text::texts(args@) == seq!["get_app_container"@, device.udid@, bundle_id@, "groups"@],
{
    let mut args: Vec<String> = Vec::new();
    args.push("get_app_container".to_string());
    args.push(device.udid.clone());
    args.push(bundle_id.to_string());
    args.push("groups".to_string());
    assert(text::texts(args@) =~= seq![
        "get_app_container"@,
        device.udid@,
        bundle_id@,
        "groups"@,
    ]);
    args
}

/// Takes the output of `xcrun simctl` with the given arguments.
///
/// Fails if the process could not be spawned, or if it exited non-zero — in which
/// case the error carries simctl's own stderr, which is usually the actionable part.
pub fn simctl(args: &Vec<String>, ran: Ran) -> (result: Result<String, DiscoverError>)
    ensures
        match ran {
            Ran::NotStarted => result matches Err(DiscoverError::NotStarted { command })
                && command@ == command_line(text::texts(args@)),
            Ran::Finished { success, status, stdout, stderr } => if success {
                result matches Ok(output) && output@ == stdout@
            } else if condensed(stderr@).len() == 0 {
                result matches Err(DiscoverError::FailedSilently { command, status: how })
                    && command@ == command_line(text::texts(args@)) && how@ == status@
            } else {
                result matches Err(DiscoverError::Failed { command, detail }) && command@
                    == command_line(text::texts(args@)) && detail@ == condensed(stderr@)
            },
        },
{
    let mut command = "xcrun simctl ".to_string();
    command.push_str(text::join(args, " ").as_str());
    match ran {
        Ran::NotStarted => Err(DiscoverError::NotStarted { command }),
        Ran::Finished { success, status, stdout, stderr } => {
            if success {
                return Ok(stdout);
            }
            let detail = condense(stderr.as_str());
            if detail.as_str().is_empty() {
                Err(DiscoverError::FailedSilently { command, status })
            } else {
                Err(DiscoverError::Failed { command, detail })
            }
        },
    }
}

/// A text on one line: its words with one space between neighbours.
pub open spec fn condensed(s: Seq<char>) -> Seq<char> {
    text::joined(text::words(s), " "@)
}

/// Flattens multi-line tool output into a single line.
///
/// simctl reports failures across three lines, repeating the underlying strerror
/// text. Collapsing it keeps the cause chain readable, since the actionable part
/// is already in the context message wrapping it.
pub fn condense(s: &str) -> (line: String)
    ensures
        line@ == condensed(s@),
{
    text::join(&text::words_of(s), " ")
}

// ---------------------------------------------------------------------------
// Devices
// ---------------------------------------------------------------------------

/// Shape of `xcrun simctl list devices -j`: runtime identifiers in ascending order,
/// each with its devices.
#[derive(Debug)]
pub struct DeviceList {
    /// The runtime identifiers with their devices.
    pub devices: Vec<(String, Vec<RawDevice>)>,
}

/// A single entry in simctl's device list.
#[derive(Debug)]
pub struct RawDevice {
    /// Stable unique identifier.
    pub udid: String,
    /// Display name.
    pub name: String,
    /// Simulator lifecycle state.
    pub state: String,
    /// Whether the runtime of the device is available.
    pub is_available: bool,
    /// Root of the device's data volume. Absent for runtimes that are not installed.
    pub data_path: Option<String>,
}

/// What runtime identifiers start with.
pub const RUNTIME_PREFIX: &'static str = "com.apple.CoreSimulator.SimRuntime.";

/// A runtime identifier in readable form.
pub open spec fn friendly(identifier: Seq<char>) -> Seq<char> {
    if text::starts_with(identifier, RUNTIME_PREFIX@) {
        let tail = identifier.skip(RUNTIME_PREFIX@.len() as int);
        match text::split_once(tail, '-') {
            Some((platform, version)) => platform + " "@ + text::replaced(version, '-', '.'),
            None => tail,
        }
    } else {
        identifier
    }
}

/// Turns a runtime identifier into something readable.
///
/// `com.apple.CoreSimulator.SimRuntime.iOS-26-5` becomes `iOS 26.5`. Unrecognised
/// identifiers are passed through unchanged rather than mangled.
pub fn friendly_runtime(identifier: &str) -> (readable: String)
    ensures
        readable@ == friendly(identifier@),
{
    let chars = text::chars_of(identifier);
    let prefix = text::chars_of(RUNTIME_PREFIX);
    if !text::begins_with(&chars, &prefix) {
        return identifier.to_string();
    }
    let start: usize = prefix.len();
    let length: usize = chars.len();
    let ghost tail = identifier@.skip(start as int);
    assert(chars@.subrange(start as int, length as int) =~= tail);
    let dash = text::find(&chars, start, length, '-');
    proof {
        text::position_is_first(tail, '-');
    }
    if dash == length {
        return text::string_of(&chars, start, length);
    }
    let mut readable = text::string_of(&chars, start, dash);
    assert(readable@ =~= tail.take(dash - start));
    readable.push(' ');
    let ghost shown = readable@;
    let ghost version = text::replaced(tail.skip(dash - start + 1), '-', '.');
    assert(shown =~= tail.take(dash - start) + " "@) by {
        reveal_strlit(" ");
    }
    let mut i: usize = dash + 1;
    assert(readable@ =~= shown + version.take(0));
    while i < length
        invariant
            start <= dash < length,
            dash + 1 <= i <= length,
            length == chars@.len(),
            chars@ == identifier@,
            tail == identifier@.skip(start as int),
            version == text::replaced(tail.skip(dash - start + 1), '-', '.'),
            readable@ == shown + version.take(i - dash - 1),
        decreases length - i,
    {
        let c = chars[i];
        let ghost before = readable@;
        readable.push(
            if c == '-' {
                '.'
            } else {
                c
            },
        );
        assert(version[i - dash - 1] == if c == '-' { '.' } else { c });
        assert(readable@ =~= shown + version.take(i - dash));
        i += 1;
    }
    assert(version.take(length - dash - 1) =~= version);
    readable
}

/// The device that an entry of the list is, unless it cannot be inspected.
pub open spec fn inspectable(raw: RawDevice, runtime: Seq<char>) -> Option<DeviceModel> {
    match raw.data_path {
        Some(data_path) => if raw.is_available {
            Some(
                DeviceModel {
                    udid: raw.udid@,
                    name: raw.name@,
                    state: raw.state@,
                    runtime: friendly(runtime),
                    data_path: data_path@,
                },
            )
        } else {
            None
        },
        None => None,
    }
}

/// The devices of one runtime that can be inspected.
pub open spec fn inspectable_in(raws: Seq<RawDevice>, runtime: Seq<char>) -> Seq<DeviceModel>
    decreases raws.len(),
{
    if raws.len() == 0 {
        seq![]
    } else {
        let front = inspectable_in(raws.drop_last(), runtime);
        match inspectable(raws.last(), runtime) {
            Some(device) => front.push(device),
            None => front,
        }
    }
}

/// The devices that can be inspected, in the order of the list.
pub open spec fn all_inspectable(list: Seq<(String, Vec<RawDevice>)>) -> Seq<DeviceModel>
    decreases list.len(),
{
    if list.len() == 0 {
        seq![]
    } else {
        all_inspectable(list.drop_last()) + inspectable_in(list.last().1@, list.last().0@)
    }
}

/// Whether a device comes before another: booted ones first, then by name, then by
/// UDID.
pub open spec fn more_useful(a: DeviceModel, b: DeviceModel) -> bool {
    if booted(a) != booted(b) {
        booted(a)
    } else if a.name != b.name {
        text::precedes(a.name, b.name)
    } else {
        text::precedes(a.udid, b.udid)
    }
}

/// The order of devices in a listing.
pub open spec fn by_use() -> spec_fn(DeviceModel, DeviceModel) -> bool {
    |a: DeviceModel, b: DeviceModel| more_useful(a, b)
}

impl Ranked for Device {
    open spec fn outranks(a: Self, b: Self) -> bool {
        more_useful(a@, b@)
    }

    fn is_before(a: &Self, b: &Self) -> bool {
        let left = a.is_booted();
        let right = b.is_booted();
        if left != right {
            left
        } else if !same(a.name.as_str(), b.name.as_str()) {
            comes_before(a.name.as_str(), b.name.as_str())
        } else {
            comes_before(a.udid.as_str(), b.udid.as_str())
        }
    }
}

/// Takes the devices out of the output of `xcrun simctl list devices -j`.
///
/// Devices whose runtime is unavailable are skipped, as are entries with no data
/// path — neither can be inspected. Booted devices come first, then by name, so the
/// useful ones are at the top.
pub fn parse_devices(list: &DeviceList) -> (devices: Vec<Device>)
    ensures
        order::views(devices@) == order::arranged(all_inspectable(list.devices@), by_use()),
{
    let mut devices: Vec<Device> = Vec::new();
    let mut i: usize = 0;
    assert(order::views(devices@) =~= all_inspectable(list.devices@.take(0)));
    while i < list.devices.len()
        invariant
            i <= list.devices@.len(),
            order::views(devices@) == all_inspectable(list.devices@.take(i as int)),
        decreases list.devices@.len() - i,
    {
        let ghost earlier = order::views(devices@);
        assert(list.devices@.take(i + 1).drop_last() =~= list.devices@.take(i as int));
        assert(list.devices@.take(i + 1).last() == list.devices@[i as int]);
        let runtime = friendly_runtime(list.devices[i].0.as_str());
        let raws = &list.devices[i].1;
        let ghost identifier = list.devices@[i as int].0@;
        let mut j: usize = 0;
        assert(earlier + inspectable_in(raws@.take(0), identifier) =~= earlier);
        while j < raws.len()
            invariant
                j <= raws@.len(),
                runtime@ == friendly(identifier),
                order::views(devices@) == earlier + inspectable_in(
                    raws@.take(j as int),
                    identifier,
                ),
            decreases raws@.len() - j,
        {
            let ghost before = order::views(devices@);
            assert(raws@.take(j + 1).drop_last() =~= raws@.take(j as int));
            assert(raws@.take(j + 1).last() == raws@[j as int]);
            let raw = &raws[j];
            if raw.is_available {
                if let Some(data_path) = &raw.data_path {
                    let device = Device {
                        udid: raw.udid.clone(),
                        name: raw.name.clone(),
                        state: raw.state.clone(),
                        runtime: runtime.clone(),
                        data_path: data_path.clone(),
                    };
                    devices.push(device);
                    assert(order::views(devices@) =~= before.push(device@));
                    assert(order::views(devices@) =~= earlier + inspectable_in(
                        raws@.take(j + 1),
                        identifier,
                    ));
                }
            }
            j += 1;
        }
        assert(raws@.take(j as int) =~= raws@);
        i += 1;
    }
    assert(list.devices@.take(i as int) =~= list.devices@);
    proof {
        order::arranged_views::<Device>(devices@, by_use());
    }
    sort(devices)
}

/// The first device whose UDID is the one asked for, but for case.
pub open spec fn with_udid(available: Seq<DeviceModel>, query: Seq<char>) -> Option<DeviceModel>
    decreases available.len(),
{
    if available.len() == 0 {
        None
    } else if text::alike(available[0].udid, query) {
        Some(available[0])
    } else {
        with_udid(available.drop_first(), query)
    }
}

/// The devices of the name asked for, but for case.
pub open spec fn with_name(available: Seq<DeviceModel>, query: Seq<char>) -> Seq<DeviceModel> {
    available.filter(|device: DeviceModel| text::alike(device.name, query))
}

/// The devices that are booted.
pub open spec fn all_booted(available: Seq<DeviceModel>) -> Seq<DeviceModel> {
    available.filter(|device: DeviceModel| booted(device))
}

/// Whether `result` is what an explicit request for a device comes to.
pub open spec fn chosen_by_query(
    available: Seq<DeviceModel>,
    query: Seq<char>,
    result: Result<Device, DiscoverError>,
) -> bool {
    let by_name = with_name(available, query);
    match with_udid(available, query) {
        Some(device) => result matches Ok(found) && found@ == device,
        None => if by_name.len() == 1 {
            result matches Ok(found) && found@ == by_name[0]
        } else if by_name.len() == 0 {
            result matches Err(DiscoverError::NoSimulator { query: asked, devices }) && asked@
                == query && order::views(devices@) == available
        } else {
            result matches Err(DiscoverError::SeveralSimulators { query: asked, devices })
                && asked@ == query && order::views(devices@) == by_name
        },
    }
}

/// Whether `result` is what the lack of a request for a device comes to.
pub open spec fn chosen_by_state(
    available: Seq<DeviceModel>,
    result: Result<Device, DiscoverError>,
) -> bool {
    let running = all_booted(available);
    if running.len() == 1 {
        result matches Ok(found) && found@ == running[0]
    } else if running.len() == 0 {
        result matches Err(DiscoverError::NoneBooted { devices }) && order::views(devices@)
            == available
    } else {
        result matches Err(DiscoverError::SeveralBooted { devices }) && order::views(devices@)
            == running
    }
}

/// Picks the device to operate on.
///
/// With no request, the single booted device is used. Ambiguity is always an error
/// rather than an arbitrary choice, because picking the wrong simulator produces a
/// confusingly empty container rather than an obvious failure.
pub fn select_device(available: Vec<Device>, requested: Option<&str>) -> (result: Result<
    Device,
    DiscoverError,
>)
    ensures
        match requested {
            Some(query) => chosen_by_query(order::views(available@), query@, result),
            None => chosen_by_state(order::views(available@), result),
        },
{
    match requested {
        Some(query) => select_by_query(available, query),
        None => select_booted(available),
    }
}

/// Resolves an explicit `--device` request against UDID first, then name.
fn select_by_query(available: Vec<Device>, query: &str) -> (result: Result<Device, DiscoverError>)
    ensures
        chosen_by_query(order::views(available@), query@, result),
{
    let ghost all = order::views(available@);
    let mut i: usize = 0;
    assert(all.skip(0) =~= all);
    while i < available.len()
        invariant
            i <= available@.len(),
            all == order::views(available@),
            with_udid(all, query@) == with_udid(all.skip(i as int), query@),
        decreases available@.len() - i,
    {
        assert(all.skip(i as int)[0] == available@[i as int]@);
        if same_ignoring_case(available[i].udid.as_str(), query) {
            return Ok(available[i].clone());
        }
        assert(all.skip(i as int).drop_first() =~= all.skip(i + 1));
        i += 1;
    }
    assert(with_udid(all, query@) is None);
    let mut by_name: Vec<Device> = Vec::new();
    let mut j: usize = 0;
    proof {
        reveal(Seq::filter);
    }
    assert(order::views(by_name@) =~= with_name(all.take(0), query@));
    while j < available.len()
        invariant
            j <= available@.len(),
            all == order::views(available@),
            order::views(by_name@) == with_name(all.take(j as int), query@),
        decreases available@.len() - j,
    {
        let ghost before = order::views(by_name@);
        proof {
            reveal(Seq::filter);
            assert(all.take(j + 1).drop_last() =~= all.take(j as int));
            assert(all.take(j + 1).last() == available@[j as int]@);
        }
        if same_ignoring_case(available[j].name.as_str(), query) {
            by_name.push(available[j].clone());
            assert(order::views(by_name@) =~= before.push(available@[j as int]@));
        }
        j += 1;
    }
    assert(all.take(j as int) =~= all);
    assert(order::views(by_name@).len() == by_name@.len());
    if by_name.len() == 1 {
        let only = by_name.remove(0);
        Ok(only)
    } else if by_name.len() == 0 {
        Err(DiscoverError::NoSimulator { query: query.to_string(), devices: available })
    } else {
        Err(DiscoverError::SeveralSimulators { query: query.to_string(), devices: by_name })
    }
}

/// Resolves the implicit case: exactly one booted simulator.
fn select_booted(available: Vec<Device>) -> (result: Result<Device, DiscoverError>)
    ensures
        chosen_by_state(order::views(available@), result),
{
    let ghost all = order::views(available@);
    let mut running: Vec<Device> = Vec::new();
    let mut i: usize = 0;
    proof {
        reveal(Seq::filter);
    }
    assert(order::views(running@) =~= all_booted(all.take(0)));
    while i < available.len()
        invariant
            i <= available@.len(),
            all == order::views(available@),
            order::views(running@) == all_booted(all.take(i as int)),
        decreases available@.len() - i,
    {
        let ghost before = order::views(running@);
        proof {
            reveal(Seq::filter);
            assert(all.take(i + 1).drop_last() =~= all.take(i as int));
            assert(all.take(i + 1).last() == available@[i as int]@);
        }
        if available[i].is_booted() {
            running.push(available[i].clone());
            assert(order::views(running@) =~= before.push(available@[i as int]@));
        }
        i += 1;
    }
    assert(all.take(i as int) =~= all);
    assert(order::views(running@).len() == running@.len());
    if running.len() == 1 {
        let only = running.remove(0);
        Ok(only)
    } else if running.len() == 0 {
        Err(DiscoverError::NoneBooted { devices: available })
    } else {
        Err(DiscoverError::SeveralBooted { devices: running })
    }
}

// ---------------------------------------------------------------------------
// App Groups
// ---------------------------------------------------------------------------

/// The groups that some lines list, or the first line that lists none.
///
/// Blank lines are skipped. The identifier stands before the first tab of a line,
/// the path behind it.
pub open spec fn groups_in(lines: Seq<Seq<char>>) -> Result<
    Seq<(Seq<char>, Seq<char>)>,
    Seq<char>,
>
    decreases lines.len(),
{
    if lines.len() == 0 {
        Ok(seq![])
    } else {
        let line = text::trim_end(lines[0]);
        let rest = groups_in(lines.drop_first());
        if line.len() == 0 {
            rest
        } else {
            match (text::split_once(line, '\t'), rest) {
                (None, _) => Err(line),
                (Some(_), Err(other)) => Err(other),
                (Some((id, path)), Ok(groups)) => Ok(
                    seq![(text::trim(id), text::trim(path))] + groups,
                ),
            }
        }
    }
}

/// Whether `result` is what a listing of groups comes to.
pub open spec fn listed(stdout: Seq<char>, result: Result<Vec<AppGroup>, DiscoverError>) -> bool {
    match groups_in(text::lines(stdout)) {
        Ok(groups) => result matches Ok(found) && order::views(found@) == groups,
        Err(bad) => result matches Err(DiscoverError::UnexpectedLine { line }) && line@ == bad,
    }
}

/// Parses the tab-separated output of `simctl get_app_container … groups`.
///
/// # Layout
///
/// One line per group, `identifier<TAB>absolute-path`. Paths may contain spaces,
/// so the split is on the first tab only.
///
/// # Edge cases
///
/// Blank lines are skipped. A line with no tab is malformed and is an error rather
/// than silently dropped, since silently losing a group would be worse than failing.
pub fn parse_groups(stdout: &str) -> (result: Result<Vec<AppGroup>, DiscoverError>)
    ensures
        listed(stdout@, result),
{
    let chars = text::chars_of(stdout);
    let length: usize = chars.len();
    let mut groups: Vec<AppGroup> = Vec::new();
    let mut at: usize = 0;
    let ghost whole = groups_in(text::lines(stdout@));
    proof {
        assert(stdout@.skip(0) =~= stdout@);
        assert(continues(order::views(groups@), groups_in(text::lines(stdout@.skip(0))), whole)) by {
            match whole {
                Ok(found) => {
                    assert(order::views(groups@) + found =~= found);
                },
                Err(_) => {},
            }
        }
    }
    while at < length
        invariant
            at <= length,
            length == chars@.len(),
            chars@ == stdout@,
            whole == groups_in(text::lines(stdout@)),
            continues(
                order::views(groups@),
                groups_in(text::lines(stdout@.skip(at as int))),
                whole,
            ),
        decreases length - at,
    {
        let ghost rest = stdout@.skip(at as int);
        let ghost before = order::views(groups@);
        assert(chars@.subrange(at as int, length as int) =~= rest);
        let end = text::find(&chars, at, length, '\n');
        proof {
            text::position_is_first(rest, '\n');
        }
        let ghost lines = text::lines(rest);
        let mut stop: usize = end;
        if end < length && end > at && chars[end - 1] == '\r' {
            stop = end - 1;
        }
        let ghost line = chars@.subrange(at as int, stop as int);
        let next: usize = if end < length {
            end + 1
        } else {
            length
        };
        proof {
            if end < length {
                let full = rest.take(end - at);
                assert(full =~= chars@.subrange(at as int, end as int));
                if full.len() > 0 {
                    assert(full.last() == chars@[end - 1]);
                }
                assert(text::without_return(full) =~= line);
                assert(rest.skip(end - at + 1) =~= stdout@.skip(next as int));
                assert(lines =~= seq![line] + text::lines(stdout@.skip(next as int)));
            } else {
                assert(line =~= rest);
                assert(stdout@.skip(next as int) =~= seq![]);
                assert(text::lines(stdout@.skip(next as int)) =~= seq![]);
                assert(lines =~= seq![line] + text::lines(stdout@.skip(next as int)));
            }
            assert(lines[0] == line);
            assert(lines.drop_first() =~= text::lines(stdout@.skip(next as int)));
        }
        let line_end = text::end_of(&chars, at, stop);
        let ghost kept = text::trim_end(line);
        assert(chars@.subrange(at as int, line_end as int) == kept);
        if line_end > at {
            let tab = text::find(&chars, at, line_end, '\t');
            proof {
                text::position_is_first(kept, '\t');
            }
            if tab == line_end {
                return Err(
                    DiscoverError::UnexpectedLine { line: text::string_of(&chars, at, line_end) },
                );
            }
            assert(kept.take(tab - at) =~= chars@.subrange(at as int, tab as int));
            assert(kept.skip(tab - at + 1) =~= chars@.subrange(tab + 1, line_end as int));
            let group = AppGroup {
                id: text::trimmed(&chars, at, tab),
                path: text::trimmed(&chars, tab + 1, line_end),
            };
            groups.push(group);
            assert(order::views(groups@) =~= before.push(group@));
            proof {
                match groups_in(text::lines(stdout@.skip(next as int))) {
                    Ok(later) => {
                        assert(before + (seq![group@] + later) =~= before.push(group@) + later);
                    },
                    Err(_) => {},
                }
            }
        }
        at = next;
    }
    assert(stdout@.skip(at as int) =~= seq![]);
    assert(order::views(groups@) + seq![] =~= order::views(groups@));
    Ok(groups)
}

/// Whether the groups found so far and those still to come make the whole.
spec fn continues(
    found: Seq<(Seq<char>, Seq<char>)>,
    rest: Result<Seq<(Seq<char>, Seq<char>)>, Seq<char>>,
    whole: Result<Seq<(Seq<char>, Seq<char>)>, Seq<char>>,
) -> bool {
    match (rest, whole) {
        (Ok(later), Ok(all)) => found + later == all,
        (Err(a), Err(b)) => a == b,
        _ => false,
    }
}

/// Lists the App Groups declared by an installed app, given what simctl said.
///
/// Distinguishes the two failure modes that look identical in simctl's own output:
/// the app not being installed, and the app declaring no groups at all. Both are
/// errors here — an empty success would leave the user unsure which happened.
pub fn app_groups(
    device: &Device,
    bundle_id: &str,
    output: Result<String, DiscoverError>,
) -> (result: Result<Vec<AppGroup>, DiscoverError>)
    ensures
        match output {
            Err(error) => result matches Err(
                DiscoverError::GroupsUnreadable { bundle_id: app, device: name, udid, cause },
            ) && app@ == bundle_id@ && name@ == device.name@ && udid@ == device.udid@ && *cause
                == error,
            Ok(stdout) => if groups_in(text::lines(stdout@)) == Ok::<
                Seq<(Seq<char>, Seq<char>)>,
                Seq<char>,
            >(seq![]) {
                result matches Err(DiscoverError::NoGroups { bundle_id: app, device: name })
                    && app@ == bundle_id@ && name@ == device.name@
            } else {
                listed(stdout@, result)
            },
        },
{
    match output {
        Err(error) => Err(
            DiscoverError::GroupsUnreadable {
                bundle_id: bundle_id.to_string(),
                device: device.name.clone(),
                udid: device.udid.clone(),
                cause: Box::new(error),
            },
        ),
        Ok(stdout) => match parse_groups(stdout.as_str()) {
            Ok(groups) => {
                assert(order::views(groups@).len() == groups@.len());
                if groups.len() == 0 {
                    assert(order::views(groups@) =~= seq![]);
                    Err(
                        DiscoverError::NoGroups {
                            bundle_id: bundle_id.to_string(),
                            device: device.name.clone(),
                        },
                    )
                } else {
                    Ok(groups)
                }
            },
            Err(error) => Err(error),
        },
    }
}

// ---------------------------------------------------------------------------
// Laws
// ---------------------------------------------------------------------------

/// Containers under one root are listed in order of their UUIDs, each of those
/// found once.
pub proof fn containers_are_in_order(found: Seq<Found>, kind: ContainerKind)
    ensures
        order::in_order(order::arranged(gathered(found, kind), by_uuid()), by_uuid()),
        order::arranged(gathered(found, kind), by_uuid()).to_multiset() == gathered(
            found,
            kind,
        ).to_multiset(),
{
    uuids_give_an_order();
    order::arranged_is_sorted(gathered(found, kind), by_uuid());
}

/// The UUIDs of containers give an order.
proof fn uuids_give_an_order()
    ensures
        order::is_order(by_uuid()),
{
    let before = by_uuid();
    assert forall|a: ContainerModel, b: ContainerModel| #[trigger] before(a, b) implies !before(
        b,
        a,
    ) by {
        text::precedes_asymmetric(a.uuid, b.uuid);
    }
    assert forall|a: ContainerModel, b: ContainerModel, c: ContainerModel| #[trigger]
        before(a, b) implies #[trigger] before(a, c) || before(c, b) by {
        text::precedes_comparable(a.uuid, b.uuid, c.uuid);
    }
}

/// What was found in two goes is gathered in two goes.
pub proof fn gathered_in_parts(first: Seq<Found>, second: Seq<Found>, kind: ContainerKind)
    ensures
        gathered(first + second, kind) == gathered(first, kind) + gathered(second, kind),
    decreases second.len(),
{
    if second.len() == 0 {
        assert(first + second =~= first);
    } else {
        gathered_in_parts(first, second.drop_last(), kind);
        assert((first + second).drop_last() =~= first + second.drop_last());
        assert((first + second).last() == second.last());
    }
    assert(gathered(first + second, kind) =~= gathered(first, kind) + gathered(second, kind));
}

/// One malformed neighbour hides no container: something found that is none makes no
/// difference to those that are listed.
pub proof fn neighbour_hides_nothing(
    first: Seq<Found>,
    odd: Found,
    second: Seq<Found>,
    kind: ContainerKind,
)
    requires
        identified(odd, kind) is None,
    ensures
        gathered(first + seq![odd] + second, kind) == gathered(first + second, kind),
{
    gathered_in_parts(first + seq![odd], second, kind);
    gathered_in_parts(first, second, kind);
    assert((first + seq![odd]).drop_last() =~= first);
    assert((first + seq![odd]).last() == odd);
}

/// A container can always be told from the others by its UUID: as long as no other
/// has the same one, asking for it finds that container.
pub proof fn uuid_disambiguates(available: Seq<ContainerModel>, index: int)
    requires
        0 <= index < available.len(),
        forall|i: int|
            0 <= i < available.len() && i != index ==> !text::alike(
                (#[trigger] available[i]).uuid,
                available[index].uuid,
            ),
    ensures
        with_uuid(available, available[index].uuid) == Some(available[index]),
    decreases available.len(),
{
    if index > 0 {
        let rest = available.drop_first();
        assert(!text::alike(available[0].uuid, available[index].uuid));
        assert forall|i: int| 0 <= i < rest.len() && i != index - 1 implies !text::alike(
            (#[trigger] rest[i]).uuid,
            rest[index - 1].uuid,
        ) by {
            assert(rest[i] == available[i + 1]);
        }
        uuid_disambiguates(rest, index - 1);
    }
}

/// Devices are listed booted ones first, then by name, then by UDID, each of those
/// that can be inspected once.
pub proof fn devices_are_in_order(list: Seq<(String, Vec<RawDevice>)>)
    ensures
        order::in_order(order::arranged(all_inspectable(list), by_use()), by_use()),
        order::arranged(all_inspectable(list), by_use()).to_multiset() == all_inspectable(
            list,
        ).to_multiset(),
{
    let before = by_use();
    assert forall|a: DeviceModel, b: DeviceModel| #[trigger] before(a, b) implies !before(b, a) by {
        if booted(a) == booted(b) {
            if a.name != b.name {
                text::precedes_asymmetric(a.name, b.name);
            } else {
                text::precedes_asymmetric(a.udid, b.udid);
            }
        }
    }
    assert forall|a: DeviceModel, b: DeviceModel, c: DeviceModel| #[trigger]
        before(a, b) implies #[trigger] before(a, c) || before(c, b) by {
        if booted(a) == booted(b) && booted(b) == booted(c) {
            if a.name != b.name {
                text::precedes_comparable(a.name, b.name, c.name);
                text::precedes_irreflexive(a.name);
                text::precedes_irreflexive(b.name);
            } else if a.name == c.name {
                text::precedes_comparable(a.udid, b.udid, c.udid);
            } else {
                text::precedes_total(a.name, c.name);
            }
        }
    }
    order::arranged_is_sorted(all_inspectable(list), before);
}

/// An item that passes a test was among those tested.
proof fn filtered_from<M>(items: Seq<M>, test: spec_fn(M) -> bool, index: int)
    requires
        0 <= index < items.filter(test).len(),
    ensures
        items.contains(items.filter(test)[index]),
        test(items.filter(test)[index]),
    decreases items.len(),
{
    reveal(Seq::filter);
    let kept = items.filter(test);
    if items.len() > 0 {
        let front = items.drop_last();
        assert(items[items.len() - 1] == items.last());
        if index < front.filter(test).len() {
            filtered_from(front, test, index);
            let k = choose|k: int| 0 <= k < front.len() && front[k] == kept[index];
            assert(items[k] == kept[index]);
        }
    }
}

/// The device found by its UDID is one of those available.
proof fn with_udid_is_available(available: Seq<DeviceModel>, query: Seq<char>)
    ensures
        with_udid(available, query) matches Some(device) ==> available.contains(device)
            && text::alike(device.udid, query),
    decreases available.len(),
{
    if available.len() > 0 {
        let rest = available.drop_first();
        with_udid_is_available(rest, query);
        assert(available.contains(available[0]));
        if let Some(device) = with_udid(rest, query) {
            let k = choose|k: int| 0 <= k < rest.len() && rest[k] == device;
            assert(available[k + 1] == device);
        }
    }
}

/// A device that is picked is one of those available, and the one asked for: by its
/// UDID or its name, or by being the only one booted.
pub proof fn picked_device_is_asked_for(
    available: Seq<DeviceModel>,
    requested: Option<Seq<char>>,
    result: Result<Device, DiscoverError>,
)
    requires
        match requested {
            Some(query) => chosen_by_query(available, query, result),
            None => chosen_by_state(available, result),
        },
    ensures
        result matches Ok(device) ==> {
            &&& available.contains(device@)
            &&& match requested {
                Some(query) => text::alike(device@.udid, query) || text::alike(
                    device@.name,
                    query,
                ),
                None => booted(device@) && all_booted(available) == seq![device@],
            }
        },
{
    match requested {
        Some(query) => {
            with_udid_is_available(available, query);
            if with_name(available, query).len() > 0 {
                filtered_from(
                    available,
                    |device: DeviceModel| text::alike(device.name, query),
                    0,
                );
            }
        },
        None => {
            let running = all_booted(available);
            if running.len() == 1 {
                filtered_from(available, |device: DeviceModel| booted(device), 0);
                assert(running =~= seq![running[0]]);
            }
        },
    }
}

/// How many lines are not blank.
pub open spec fn filled_lines(lines: Seq<Seq<char>>) -> nat
    decreases lines.len(),
{
    if lines.len() == 0 {
        0
    } else if text::trim_end(lines[0]).len() == 0 {
        filled_lines(lines.drop_first())
    } else {
        filled_lines(lines.drop_first()) + 1
    }
}

/// No group is lost: a listing that is accepted has one group for every line that
/// is not blank.
pub proof fn no_group_is_lost(lines: Seq<Seq<char>>)
    ensures
        groups_in(lines) matches Ok(groups) ==> groups.len() == filled_lines(lines),
    decreases lines.len(),
{
    if lines.len() > 0 {
        no_group_is_lost(lines.drop_first());
    }
}

/// Words hold no white space.
proof fn words_hold_no_white_space(s: Seq<char>, word: int, at: int)
    requires
        0 <= word < text::words(s).len(),
        0 <= at < text::words(s)[word].len(),
    ensures
        !text::is_white(text::words(s)[word][at]),
    decreases s.len(),
{
    if s.len() > 0 {
        if text::is_white(s[0]) {
            words_hold_no_white_space(s.drop_first(), word, at);
        } else {
            let n = text::word_length(s);
            text::word_length_bounds(s);
            if word == 0 {
                word_is_not_white(s, at);
            } else {
                words_hold_no_white_space(s.skip(n), word - 1, at);
            }
        }
    }
}

/// A word ends before the first white space.
proof fn word_is_not_white(s: Seq<char>, at: int)
    requires
        0 <= at < text::word_length(s),
        at < s.len(),
    ensures
        !text::is_white(s[at]),
    decreases s.len(),
{
    if at > 0 {
        word_is_not_white(s.drop_first(), at - 1);
    }
}

/// Condensed text is a single line: the only white space in it is the space.
pub proof fn condensed_is_one_line(s: Seq<char>, at: int)
    requires
        0 <= at < condensed(s).len(),
    ensures
        text::is_white(condensed(s)[at]) ==> condensed(s)[at] == ' ',
{
    let words = text::words(s);
    assert forall|word: int, k: int|
        0 <= word < words.len() && 0 <= k < words[word].len() implies !text::is_white(
        #[trigger] words[word][k],
    ) by {
        words_hold_no_white_space(s, word, k);
    }
    joined_white_space(words, at);
}

/// The only white space in words joined with spaces is the space.
proof fn joined_white_space(words: Seq<Seq<char>>, at: int)
    requires
        0 <= at < text::joined(words, " "@).len(),
        forall|word: int, k: int|
            0 <= word < words.len() && 0 <= k < words[word].len() ==> !text::is_white(
                #[trigger] words[word][k],
            ),
    ensures
        text::is_white(text::joined(words, " "@)[at]) ==> text::joined(words, " "@)[at] == ' ',
    decreases words.len(),
{
    reveal_strlit(" ");
    if words.len() == 1 {
        assert(text::joined(words, " "@) == words[0]);
        assert(!text::is_white(words[0][at]));
    } else if words.len() > 1 {
        let front = words.drop_last();
        let start = text::joined(front, " "@);
        if at < start.len() {
            assert forall|word: int, k: int|
                0 <= word < front.len() && 0 <= k < front[word].len() implies !text::is_white(
                #[trigger] front[word][k],
            ) by {
                assert(words[word][k] == front[word][k]);
            }
            joined_white_space(front, at);
        } else if at > start.len() {
            let k = at - start.len() - 1;
            assert(text::joined(words, " "@)[at] == words.last()[k]);
            assert(words[words.len() - 1][k] == words.last()[k]);
        }
    }
}

/// What passes a test is kept.
proof fn filter_keeps<M>(items: Seq<M>, test: spec_fn(M) -> bool, index: int)
    requires
        0 <= index < items.len(),
        test(items[index]),
    ensures
        items.filter(test).contains(items[index]),
    decreases items.len(),
{
    reveal(Seq::filter);
    let front = items.drop_last();
    let kept = items.filter(test);
    if index < front.len() {
        filter_keeps(front, test, index);
        let early = front.filter(test);
        let k = choose|k: int| 0 <= k < early.len() && early[k] == items[index];
        assert(kept[k] == items[index]);
    } else {
        assert(kept[kept.len() - 1] == items[index]);
    }
}

/// Where nothing passes a test, nothing is kept.
proof fn filter_keeps_nothing<M>(items: Seq<M>, test: spec_fn(M) -> bool)
    requires
        forall|i: int| 0 <= i < items.len() ==> !test(#[trigger] items[i]),
    ensures
        items.filter(test).len() == 0,
{
    if items.filter(test).len() > 0 {
        filtered_from(items, test, 0);
        let i = choose|i: int| 0 <= i < items.len() && items[i] == items.filter(test)[0];
        assert(!test(items[i]));
    }
}

/// Where one thing passes a test, that is kept and nothing else.
proof fn filter_keeps_one<M>(items: Seq<M>, test: spec_fn(M) -> bool, index: int)
    requires
        0 <= index < items.len(),
        test(items[index]),
        forall|i: int| 0 <= i < items.len() && i != index ==> !test(#[trigger] items[i]),
    ensures
        items.filter(test) == seq![items[index]],
    decreases items.len(),
{
    reveal(Seq::filter);
    let front = items.drop_last();
    let last = items.len() - 1;
    assert forall|i: int| 0 <= i < front.len() && i != index implies !test(#[trigger] front[i]) by {
        assert(front[i] == items[i]);
    }
    if index < last {
        filter_keeps_one(front, test, index);
        assert(!test(items[last]));
    } else {
        filter_keeps_nothing(front, test);
        assert(front.filter(test) =~= seq![]);
    }
    assert(items.filter(test) =~= seq![items[index]]);
}

/// Where two things pass a test, at least two are kept.
proof fn filter_keeps_two<M>(items: Seq<M>, test: spec_fn(M) -> bool, i: int, j: int)
    requires
        0 <= i < j < items.len(),
        test(items[i]),
        test(items[j]),
    ensures
        items.filter(test).len() >= 2,
    decreases items.len(),
{
    reveal(Seq::filter);
    let front = items.drop_last();
    if j < front.len() {
        filter_keeps_two(front, test, i, j);
    } else {
        filter_keeps(front, test, i);
        assert(front[i] == items[i]);
    }
}

/// The container found by its UUID is one of those available, and nothing is found
/// exactly where none has it.
proof fn with_uuid_is_available(available: Seq<ContainerModel>, query: Seq<char>)
    ensures
        with_uuid(available, query) matches Some(container) ==> available.contains(container)
            && text::alike(container.uuid, query),
        with_uuid(available, query) is None <==> forall|i: int|
            0 <= i < available.len() ==> !text::alike((#[trigger] available[i]).uuid, query),
    decreases available.len(),
{
    if available.len() > 0 {
        let rest = available.drop_first();
        with_uuid_is_available(rest, query);
        assert(available.contains(available[0]));
        if let Some(container) = with_uuid(rest, query) {
            let k = choose|k: int| 0 <= k < rest.len() && rest[k] == container;
            assert(available[k + 1] == container);
        }
        if with_uuid(available, query) is None {
            assert forall|i: int| 0 <= i < available.len() implies !text::alike(
                (#[trigger] available[i]).uuid,
                query,
            ) by {
                if i > 0 {
                    assert(rest[i - 1] == available[i]);
                }
            }
        } else if with_uuid(rest, query) is Some {
            let container = with_uuid(rest, query)->0;
            let k = choose|k: int| 0 <= k < rest.len() && rest[k] == container;
            assert(text::alike(available[k + 1].uuid, query));
        }
    }
}

/// Whether no container has the UUID asked for.
pub open spec fn no_uuid(available: Seq<Container>, query: Seq<char>) -> bool {
    forall|i: int|
        0 <= i < available.len() ==> !text::alike((#[trigger] available[i]).uuid@, query)
}

/// What the views of containers say of the containers.
proof fn no_uuid_in_views(available: Seq<Container>, query: Seq<char>)
    ensures
        with_uuid(order::views(available), query) is None <==> no_uuid(available, query),
        with_uuid(order::views(available), query) matches Some(container) ==> text::alike(
            container.uuid,
            query,
        ) && exists|i: int| 0 <= i < available.len() && (#[trigger] available[i])@ == container,
{
    let all = order::views(available);
    with_uuid_is_available(all, query);
    if with_uuid(all, query) is None {
        assert forall|i: int| 0 <= i < available.len() implies !text::alike(
            (#[trigger] available[i]).uuid@,
            query,
        ) by {
            assert(!text::alike(all[i].uuid, query));
        }
    } else {
        let container = with_uuid(all, query)->0;
        let i = choose|i: int| 0 <= i < all.len() && all[i] == container;
        assert(available[i]@ == container);
        assert(text::alike(available[i].uuid@, query));
    }
}

/// The containers of a group are those of the available ones that have its identifier.
proof fn with_id_in_views(available: Seq<Container>, query: Seq<char>, index: int)
    requires
        0 <= index < with_id(order::views(available), query).len(),
    ensures
        with_id(order::views(available), query)[index].id == query,
        exists|i: int|
            0 <= i < available.len() && (#[trigger] available[i])@ == with_id(
                order::views(available),
                query,
            )[index],
{
    let all = order::views(available);
    let matching = with_id(all, query);
    filtered_from(all, |container: ContainerModel| container.id == query, index);
    let i = choose|i: int| 0 <= i < all.len() && all[i] == matching[index];
    assert(available[i]@ == matching[index]);
}

/// A container that is resolved is one of those available, and has exactly the identifier
/// asked for, or the UUID asked for but for case. Where a UUID matches, it goes by that,
/// and otherwise by the identifier alone.
pub proof fn resolved_container_is_asked_for(
    available: &Vec<Container>,
    device: &Device,
    query: &str,
    result: Result<Container, DiscoverError>,
)
    requires
        call_ensures(resolve_container, (available, device, query), result),
    ensures
        result matches Ok(found) ==> {
            &&& exists|i: int| 0 <= i < available@.len() && (#[trigger] available@[i])@ == found@
            &&& if no_uuid(available@, query@) {
                found.id@ == query@
            } else {
                text::alike(found.uuid@, query@)
            }
        },
        !no_uuid(available@, query@) ==> result is Ok,
{
    let all = order::views(available@);
    no_uuid_in_views(available@, query@);
    if with_id(all, query@).len() > 0 {
        with_id_in_views(available@, query@, 0);
    }
}

/// Where no UUID matches and exactly one container has the identifier asked for, that
/// container is the result, whatever other identifiers there are.
pub proof fn only_container_of_a_group_is_resolved(
    available: &Vec<Container>,
    device: &Device,
    query: &str,
    result: Result<Container, DiscoverError>,
    index: int,
)
    requires
        call_ensures(resolve_container, (available, device, query), result),
        no_uuid(available@, query@),
        0 <= index < available@.len(),
        available@[index].id@ == query@,
        forall|i: int|
            0 <= i < available@.len() && i != index ==> (#[trigger] available@[i]).id@ != query@,
    ensures
        result matches Ok(found) && found@ == available@[index]@,
{
    let all = order::views(available@);
    let test = |container: ContainerModel| container.id == query@;
    no_uuid_in_views(available@, query@);
    assert forall|i: int| 0 <= i < all.len() && i != index implies !test(#[trigger] all[i]) by {
        assert(available@[i].id@ != query@);
    }
    filter_keeps_one(all, test, index);
    assert(with_id(all, query@) == seq![all[index]]);
}

/// Where no UUID matches, that there is no container is said exactly where none has the
/// identifier asked for, and where several have it, exactly those are listed.
pub proof fn unresolved_containers_are_told(
    available: &Vec<Container>,
    device: &Device,
    query: &str,
    result: Result<Container, DiscoverError>,
)
    requires
        call_ensures(resolve_container, (available, device, query), result),
        no_uuid(available@, query@),
    ensures
        (forall|i: int| 0 <= i < available@.len() ==> (#[trigger] available@[i]).id@ != query@)
            <==> (result matches Err(DiscoverError::NoContainer { .. })),
        result matches Err(DiscoverError::NoContainer { query: asked, device: name }) ==> asked@
            == query@ && name@ == device.name@,
        result matches Err(error) ==> error is NoContainer || error is SeveralContainers,
        result matches Err(DiscoverError::SeveralContainers { query: asked, containers }) ==> {
            &&& asked@ == query@
            &&& containers@.len() >= 2
            &&& forall|i: int|
                0 <= i < containers@.len() ==> (#[trigger] containers@[i]).id@ == query@
            &&& forall|i: int|
                0 <= i < available@.len() && (#[trigger] available@[i]).id@ == query@
                    ==> order::views(containers@).contains(available@[i]@)
        },
{
    let all = order::views(available@);
    let test = |container: ContainerModel| container.id == query@;
    let matching = with_id(all, query@);
    no_uuid_in_views(available@, query@);
    if forall|i: int| 0 <= i < available@.len() ==> (#[trigger] available@[i]).id@ != query@ {
        assert forall|i: int| 0 <= i < all.len() implies !test(#[trigger] all[i]) by {
            assert(available@[i].id@ != query@);
        }
        filter_keeps_nothing(all, test);
        assert(matching.len() == 0);
    } else {
        let i = choose|i: int| 0 <= i < available@.len() && (#[trigger] available@[i]).id@ == query@;
        filter_keeps(all, test, i);
        assert(matching.contains(all[i]));
    }
    if let Err(DiscoverError::SeveralContainers { containers, .. }) = result {
        assert forall|i: int| 0 <= i < containers@.len() implies (#[trigger] containers@[i]).id@
            == query@ by {
            assert(order::views(containers@)[i] == containers@[i]@);
            with_id_in_views(available@, query@, i);
        }
        assert(order::views(containers@).len() == containers@.len());
        assert forall|i: int|
            0 <= i < available@.len() && (#[trigger] available@[i]).id@
                == query@ implies order::views(containers@).contains(available@[i]@) by {
            filter_keeps(all, test, i);
            assert(matching.contains(all[i]));
        }
    }
}

/// Where several UUIDs match, the container listed first is the result.
pub proof fn the_first_container_with_the_uuid_is_resolved(
    available: &Vec<Container>,
    device: &Device,
    query: &str,
    result: Result<Container, DiscoverError>,
    index: int,
)
    requires
        call_ensures(resolve_container, (available, device, query), result),
        0 <= index < available@.len(),
        text::alike(available@[index].uuid@, query@),
        no_uuid(available@.take(index), query@),
    ensures
        result matches Ok(found) && found@ == available@[index]@,
{
    let all = order::views(available@);
    assert forall|i: int| 0 <= i < index implies !text::alike((#[trigger] all[i]).uuid, query@) by {
        assert(!text::alike(available@.take(index)[i].uuid@, query@));
    }
    with_uuid_is_first(all, query@, index);
}

/// The container found by its UUID is the first that has it.
proof fn with_uuid_is_first(available: Seq<ContainerModel>, query: Seq<char>, index: int)
    requires
        0 <= index < available.len(),
        text::alike(available[index].uuid, query),
        forall|i: int| 0 <= i < index ==> !text::alike((#[trigger] available[i]).uuid, query),
    ensures
        with_uuid(available, query) == Some(available[index]),
    decreases available.len(),
{
    if index > 0 {
        let rest = available.drop_first();
        assert(!text::alike(available[0].uuid, query));
        assert forall|i: int| 0 <= i < index - 1 implies !text::alike(
            (#[trigger] rest[i]).uuid,
            query,
        ) by {
            assert(rest[i] == available[i + 1]);
        }
        with_uuid_is_first(rest, query, index - 1);
    }
}

/// Of several containers of the group asked for none is picked: they are an error, as
/// long as no UUID matches.
pub proof fn containers_of_one_group_are_not_picked_from(
    available: &Vec<Container>,
    device: &Device,
    query: &str,
    result: Result<Container, DiscoverError>,
    i: int,
    j: int,
)
    requires
        call_ensures(resolve_container, (available, device, query), result),
        no_uuid(available@, query@),
        0 <= i < j < available@.len(),
        available@[i].id@ == query@,
        available@[j].id@ == query@,
    ensures
        result matches Err(DiscoverError::SeveralContainers { .. }),
{
    let all = order::views(available@);
    let test = |container: ContainerModel| container.id == query@;
    no_uuid_in_views(available@, query@);
    filter_keeps_two(all, test, i, j);
    assert(with_id(all, query@).len() >= 2);
}

// ---------------------------------------------------------------------------
// Laws on picking a device
// ---------------------------------------------------------------------------

/// The device found by its UDID is the first that has it.
proof fn with_udid_is_first(available: Seq<DeviceModel>, query: Seq<char>, index: int)
    requires
        0 <= index <= available.len(),
        index < available.len() ==> text::alike(available[index].udid, query),
        forall|i: int| 0 <= i < index ==> !text::alike((#[trigger] available[i]).udid, query),
    ensures
        with_udid(available, query) == if index < available.len() {
            Some(available[index])
        } else {
            None
        },
    decreases available.len(),
{
    if index > 0 {
        let rest = available.drop_first();
        assert(!text::alike(available[0].udid, query));
        assert forall|i: int| 0 <= i < index - 1 implies !text::alike(
            (#[trigger] rest[i]).udid,
            query,
        ) by {
            assert(rest[i] == available[i + 1]);
        }
        with_udid_is_first(rest, query, index - 1);
    }
}

/// Whether no device has the UDID asked for.
pub open spec fn no_udid(available: Seq<Device>, query: Seq<char>) -> bool {
    forall|i: int|
        0 <= i < available.len() ==> !text::alike((#[trigger] available[i]).udid@, query)
}

/// What the views of devices say of the devices.
proof fn no_udid_in_views(available: Seq<Device>, query: Seq<char>)
    requires
        no_udid(available, query),
    ensures
        with_udid(order::views(available), query) is None,
{
    let all = order::views(available);
    assert forall|i: int| 0 <= i < all.len() implies !text::alike((#[trigger] all[i]).udid, query) by {
        assert(!text::alike(available[i].udid@, query));
    }
    with_udid_is_first(all, query, all.len() as int);
}

/// The device whose UDID is asked for is picked, whatever names there are, and the first
/// of several.
pub proof fn a_udid_picks_its_device(
    available: Vec<Device>,
    query: &str,
    result: Result<Device, DiscoverError>,
    index: int,
)
    requires
        call_ensures(select_device, (available, Some(query)), result),
        0 <= index < available@.len(),
        text::alike(available@[index].udid@, query@),
        no_udid(available@.take(index), query@),
    ensures
        result matches Ok(found) && found@ == available@[index]@,
{
    let all = order::views(available@);
    assert forall|i: int| 0 <= i < index implies !text::alike((#[trigger] all[i]).udid, query@) by {
        assert(!text::alike(available@.take(index)[i].udid@, query@));
    }
    with_udid_is_first(all, query@, index);
}

/// Where no UDID matches, a name picks the one device that has it, but for case.
pub proof fn a_name_picks_the_only_device(
    available: Vec<Device>,
    query: &str,
    result: Result<Device, DiscoverError>,
    index: int,
)
    requires
        call_ensures(select_device, (available, Some(query)), result),
        no_udid(available@, query@),
        0 <= index < available@.len(),
        text::alike(available@[index].name@, query@),
        forall|i: int|
            0 <= i < available@.len() && i != index ==> !text::alike(
                (#[trigger] available@[i]).name@,
                query@,
            ),
    ensures
        result matches Ok(found) && found@ == available@[index]@,
{
    let all = order::views(available@);
    let test = |device: DeviceModel| text::alike(device.name, query@);
    no_udid_in_views(available@, query@);
    assert forall|i: int| 0 <= i < all.len() && i != index implies !test(#[trigger] all[i]) by {
        assert(!text::alike(available@[i].name@, query@));
    }
    filter_keeps_one(all, test, index);
    assert(with_name(all, query@) == seq![all[index]]);
}

/// Where no UDID and no name matches, that no simulator does is said, with what was asked
/// for and all the simulators there are.
pub proof fn an_unknown_device_is_told(
    available: Vec<Device>,
    query: &str,
    result: Result<Device, DiscoverError>,
)
    requires
        call_ensures(select_device, (available, Some(query)), result),
        no_udid(available@, query@),
        forall|i: int|
            0 <= i < available@.len() ==> !text::alike((#[trigger] available@[i]).name@, query@),
    ensures
        result matches Err(DiscoverError::NoSimulator { query: asked, devices }) && asked@
            == query@ && order::views(devices@) == order::views(available@),
{
    let all = order::views(available@);
    let test = |device: DeviceModel| text::alike(device.name, query@);
    no_udid_in_views(available@, query@);
    assert forall|i: int| 0 <= i < all.len() implies !test(#[trigger] all[i]) by {
        assert(!text::alike(available@[i].name@, query@));
    }
    filter_keeps_nothing(all, test);
    assert(with_name(all, query@).len() == 0);
}

/// Where no UDID matches and several devices have the name asked for, none is picked:
/// those that have it are listed, all of them and no others.
pub proof fn devices_of_one_name_are_not_picked_from(
    available: Vec<Device>,
    query: &str,
    result: Result<Device, DiscoverError>,
    i: int,
    j: int,
)
    requires
        call_ensures(select_device, (available, Some(query)), result),
        no_udid(available@, query@),
        0 <= i < j < available@.len(),
        text::alike(available@[i].name@, query@),
        text::alike(available@[j].name@, query@),
    ensures
        result matches Err(DiscoverError::SeveralSimulators { query: asked, devices }) && {
            &&& asked@ == query@
            &&& devices@.len() >= 2
            &&& forall|k: int|
                0 <= k < devices@.len() ==> text::alike((#[trigger] devices@[k]).name@, query@)
                    && order::views(available@).contains(devices@[k]@)
            &&& forall|k: int|
                0 <= k < available@.len() && text::alike((#[trigger] available@[k]).name@, query@)
                    ==> order::views(devices@).contains(available@[k]@)
        },
{
    let all = order::views(available@);
    let test = |device: DeviceModel| text::alike(device.name, query@);
    let matching = with_name(all, query@);
    no_udid_in_views(available@, query@);
    filter_keeps_two(all, test, i, j);
    assert(matching.len() >= 2);
    if let Err(DiscoverError::SeveralSimulators { devices, .. }) = result {
        assert(order::views(devices@).len() == devices@.len());
        assert forall|k: int| 0 <= k < devices@.len() implies text::alike(
            (#[trigger] devices@[k]).name@,
            query@,
        ) && all.contains(devices@[k]@) by {
            assert(order::views(devices@)[k] == devices@[k]@);
            filtered_from(all, test, k);
        }
        assert forall|k: int|
            0 <= k < available@.len() && text::alike(
                (#[trigger] available@[k]).name@,
                query@,
            ) implies order::views(devices@).contains(available@[k]@) by {
            filter_keeps(all, test, k);
            assert(matching.contains(all[k]));
        }
    }
}

/// Whether a device says it is booted, but for case.
pub open spec fn says_booted(device: Device) -> bool {
    text::alike(device.state@, "Booted"@)
}

/// With no request, the one device that is booted is picked.
pub proof fn the_only_booted_device_is_picked(
    available: Vec<Device>,
    result: Result<Device, DiscoverError>,
    index: int,
)
    requires
        call_ensures(select_device, (available, None::<&str>), result),
        0 <= index < available@.len(),
        says_booted(available@[index]),
        forall|i: int|
            0 <= i < available@.len() && i != index ==> !says_booted(#[trigger] available@[i]),
    ensures
        result matches Ok(found) && found@ == available@[index]@,
{
    let all = order::views(available@);
    let test = |device: DeviceModel| booted(device);
    assert(test(all[index]));
    assert forall|i: int| 0 <= i < all.len() && i != index implies !test(#[trigger] all[i]) by {
        assert(!says_booted(available@[i]));
    }
    filter_keeps_one(all, test, index);
    assert(all_booted(all) == seq![all[index]]);
}

/// With no request and no device booted, that is said, with all the simulators there are.
pub proof fn no_booted_device_is_told(available: Vec<Device>, result: Result<Device, DiscoverError>)
    requires
        call_ensures(select_device, (available, None::<&str>), result),
        forall|i: int| 0 <= i < available@.len() ==> !says_booted(#[trigger] available@[i]),
    ensures
        result matches Err(DiscoverError::NoneBooted { devices }) && order::views(devices@)
            == order::views(available@),
{
    let all = order::views(available@);
    let test = |device: DeviceModel| booted(device);
    assert forall|i: int| 0 <= i < all.len() implies !test(#[trigger] all[i]) by {
        assert(!says_booted(available@[i]));
    }
    filter_keeps_nothing(all, test);
    assert(all_booted(all).len() == 0);
}

/// With no request and several devices booted, none is picked: those that are booted are
/// listed, all of them and no others.
pub proof fn booted_devices_are_not_picked_from(
    available: Vec<Device>,
    result: Result<Device, DiscoverError>,
    i: int,
    j: int,
)
    requires
        call_ensures(select_device, (available, None::<&str>), result),
        0 <= i < j < available@.len(),
        says_booted(available@[i]),
        says_booted(available@[j]),
    ensures
        result matches Err(DiscoverError::SeveralBooted { devices }) && {
            &&& devices@.len() >= 2
            &&& forall|k: int|
                0 <= k < devices@.len() ==> says_booted(#[trigger] devices@[k]) && order::views(
                    available@,
                ).contains(devices@[k]@)
            &&& forall|k: int|
                0 <= k < available@.len() && says_booted(#[trigger] available@[k]) ==> order::views(
                    devices@,
                ).contains(available@[k]@)
        },
{
    let all = order::views(available@);
    let test = |device: DeviceModel| booted(device);
    let matching = all_booted(all);
    assert(test(all[i]) && test(all[j]));
    filter_keeps_two(all, test, i, j);
    assert(matching.len() >= 2);
    if let Err(DiscoverError::SeveralBooted { devices }) = result {
        assert(order::views(devices@).len() == devices@.len());
        assert forall|k: int| 0 <= k < devices@.len() implies says_booted(#[trigger] devices@[k])
            && all.contains(devices@[k]@) by {
            assert(order::views(devices@)[k] == devices@[k]@);
            filtered_from(all, test, k);
        }
        assert forall|k: int|
            0 <= k < available@.len() && says_booted(
                #[trigger] available@[k],
            ) implies order::views(devices@).contains(available@[k]@) by {
            assert(test(all[k]));
            filter_keeps(all, test, k);
            assert(matching.contains(all[k]));
        }
    }
}

// ---------------------------------------------------------------------------
// Laws on listing devices
// ---------------------------------------------------------------------------

/// Whether a device is what an entry of the list says, under the readable name of its
/// runtime, and can be inspected.
pub open spec fn stands_for(device: DeviceModel, raw: RawDevice, runtime: Seq<char>) -> bool {
    &&& raw.is_available
    &&& raw.data_path matches Some(place) && device.data_path == place@
    &&& device.udid == raw.udid@
    &&& device.name == raw.name@
    &&& device.state == raw.state@
    &&& device.runtime == friendly(runtime)
}

/// Whether a device stands for an entry of one of the runtimes.
pub open spec fn is_on(list: Seq<(String, Vec<RawDevice>)>, device: DeviceModel) -> bool {
    exists|i: int, j: int|
        0 <= i < list.len() && 0 <= j < list[i].1@.len() && stands_for(
            device,
            #[trigger] list[i].1@[j],
            list[i].0@,
        )
}

/// The devices of one runtime stand for its entries that can be inspected.
proof fn inspectable_in_are(raws: Seq<RawDevice>, runtime: Seq<char>, device: DeviceModel)
    ensures
        inspectable_in(raws, runtime).contains(device) <==> exists|j: int|
            0 <= j < raws.len() && stands_for(device, #[trigger] raws[j], runtime),
    decreases raws.len(),
{
    if raws.len() > 0 {
        let front = raws.drop_last();
        let all = inspectable_in(raws, runtime);
        let some = inspectable_in(front, runtime);
        inspectable_in_are(front, runtime, device);
        if all.contains(device) {
            let k = choose|k: int| 0 <= k < all.len() && all[k] == device;
            if k < some.len() {
                assert(some[k] == device);
                let j = choose|j: int|
                    0 <= j < front.len() && stands_for(device, #[trigger] front[j], runtime);
                assert(stands_for(device, raws[j], runtime));
            } else {
                assert(stands_for(device, raws[raws.len() - 1], runtime));
            }
        }
        if exists|j: int| 0 <= j < raws.len() && stands_for(device, #[trigger] raws[j], runtime) {
            let j = choose|j: int|
                0 <= j < raws.len() && stands_for(device, #[trigger] raws[j], runtime);
            if j < front.len() {
                assert(stands_for(device, front[j], runtime));
                let k = choose|k: int| 0 <= k < some.len() && some[k] == device;
                assert(all[k] == device);
            } else {
                assert(all[all.len() - 1] == device);
            }
        }
    }
}

/// The devices stand for the entries of all runtimes that can be inspected.
proof fn all_inspectable_are(list: Seq<(String, Vec<RawDevice>)>, device: DeviceModel)
    ensures
        all_inspectable(list).contains(device) <==> is_on(list, device),
    decreases list.len(),
{
    if list.len() > 0 {
        let front = list.drop_last();
        let last = list.last();
        let some = all_inspectable(front);
        let more = inspectable_in(last.1@, last.0@);
        all_inspectable_are(front, device);
        inspectable_in_are(last.1@, last.0@, device);
        let all = some + more;
        let end = list.len() - 1;
        if all.contains(device) {
            let k = choose|k: int| 0 <= k < all.len() && all[k] == device;
            if k < some.len() {
                assert(some[k] == device);
                let (i, j) = choose|i: int, j: int|
                    0 <= i < front.len() && 0 <= j < front[i].1@.len() && stands_for(
                        device,
                        #[trigger] front[i].1@[j],
                        front[i].0@,
                    );
                assert(stands_for(device, list[i].1@[j], list[i].0@));
            } else {
                assert(more[k - some.len()] == device);
                let j = choose|j: int|
                    0 <= j < last.1@.len() && stands_for(device, #[trigger] last.1@[j], last.0@);
                assert(stands_for(device, list[end].1@[j], list[end].0@));
            }
        }
        if is_on(list, device) {
            let (i, j) = choose|i: int, j: int|
                0 <= i < list.len() && 0 <= j < list[i].1@.len() && stands_for(
                    device,
                    #[trigger] list[i].1@[j],
                    list[i].0@,
                );
            if i < end {
                assert(stands_for(device, front[i].1@[j], front[i].0@));
                let k = choose|k: int| 0 <= k < some.len() && some[k] == device;
                assert(all[k] == device);
            } else {
                assert(stands_for(device, last.1@[j], last.0@));
                let k = choose|k: int| 0 <= k < more.len() && more[k] == device;
                assert(all[some.len() + k] == device);
            }
        }
    }
}

/// Devices are listed exactly where they can be inspected, as simctl has them, and booted
/// ones come before others, lower names before higher and, under one name, lower UDIDs
/// before higher.
pub proof fn inspectable_devices_are_listed(list: &DeviceList, devices: Vec<Device>)
    requires
        call_ensures(parse_devices, (list,), devices),
    ensures
        forall|i: int|
            0 <= i < devices@.len() ==> is_on(list.devices@, (#[trigger] devices@[i])@),
        forall|device: DeviceModel| #[trigger]
            is_on(list.devices@, device) ==> order::views(devices@).contains(device),
        forall|i: int, j: int|
            0 <= i < j < devices@.len() ==> {
                let a = #[trigger] devices@[i];
                let b = #[trigger] devices@[j];
                &&& says_booted(b) ==> says_booted(a)
                &&& says_booted(a) == says_booted(b) ==> !text::precedes(b.name@, a.name@)
                &&& says_booted(a) == says_booted(b) && a.name@ == b.name@ ==> !text::precedes(
                    b.udid@,
                    a.udid@,
                )
            },
{
    broadcast use vstd::seq_lib::group_to_multiset_ensures;

    let gathered = all_inspectable(list.devices@);
    let all = order::views(devices@);
    devices_are_in_order(list.devices@);
    assert forall|i: int| 0 <= i < devices@.len() implies is_on(
        list.devices@,
        (#[trigger] devices@[i])@,
    ) by {
        let device = devices@[i]@;
        assert(all[i] == device);
        assert(all.contains(device));
        assert(all.to_multiset().count(device) > 0);
        assert(gathered.contains(device));
        all_inspectable_are(list.devices@, device);
    }
    assert forall|device: DeviceModel| #[trigger]
        is_on(list.devices@, device) implies all.contains(device) by {
        all_inspectable_are(list.devices@, device);
        assert(gathered.to_multiset().count(device) > 0);
    }
    assert forall|i: int, j: int| 0 <= i < j < devices@.len() implies {
        let a = #[trigger] devices@[i];
        let b = #[trigger] devices@[j];
        &&& says_booted(b) ==> says_booted(a)
        &&& says_booted(a) == says_booted(b) ==> !text::precedes(b.name@, a.name@)
        &&& says_booted(a) == says_booted(b) && a.name@ == b.name@ ==> !text::precedes(
            b.udid@,
            a.udid@,
        )
    } by {
        assert(all[i] == devices@[i]@ && all[j] == devices@[j]@);
        order::in_order_means(all, by_use(), i, j);
        assert(!by_use()(all[j], all[i]));
        text::precedes_irreflexive(all[i].name);
    }
}

/// A runtime is named by its platform and its version with dots, what Apple puts before
/// it left out. One without a version is left as it is behind that, and one that does not
/// start like that is left as it is.
pub proof fn runtimes_read_as_platform_and_version(platform: Seq<char>, version: Seq<char>)
    requires
        !platform.contains('-'),
    ensures
        friendly("com.apple.CoreSimulator.SimRuntime."@ + platform + seq!['-'] + version)
            == platform + seq![' '] + text::replaced(version, '-', '.'),
        friendly("com.apple.CoreSimulator.SimRuntime."@ + platform) == platform,
        !text::starts_with(version, "com.apple.CoreSimulator.SimRuntime."@) ==> friendly(version)
            == version,
{
    let prefix = "com.apple.CoreSimulator.SimRuntime."@;
    let full = prefix + platform + seq!['-'] + version;
    let tail = platform.push('-') + version;
    reveal_strlit(" ");
    assert(full.take(prefix.len() as int) =~= prefix);
    assert(full.skip(prefix.len() as int) =~= tail);
    text::split_once_undoes(platform, '-', version);
    assert(" "@ =~= seq![' ']);
    let short = prefix + platform;
    assert(short.take(prefix.len() as int) =~= prefix);
    assert(short.skip(prefix.len() as int) =~= platform);
    text::split_once_comes_apart(platform, '-');
}

/// Entries are taken one by one, in order: those of two lists are those of the first and
/// then those of the second, and one entry is one device exactly where it can be
/// inspected.
pub proof fn devices_are_taken_one_by_one(
    a: Seq<RawDevice>,
    b: Seq<RawDevice>,
    raw: RawDevice,
    runtime: Seq<char>,
)
    ensures
        inspectable_in(a + b, runtime) == inspectable_in(a, runtime) + inspectable_in(b, runtime),
        inspectable_in(seq![raw], runtime).len() == if raw.is_available && raw.data_path is Some {
            1nat
        } else {
            0
        },
    decreases b.len(),
{
    reveal_with_fuel(inspectable_in, 2);
    assert(seq![raw].drop_last() =~= Seq::<RawDevice>::empty());
    if b.len() == 0 {
        assert(a + b =~= a);
    } else {
        devices_are_taken_one_by_one(a, b.drop_last(), raw, runtime);
        assert((a + b).drop_last() =~= a + b.drop_last());
        assert((a + b).last() == b.last());
    }
    assert(inspectable_in(a + b, runtime) =~= inspectable_in(a, runtime) + inspectable_in(
        b,
        runtime,
    ));
}

/// Every entry that can be inspected is listed, as often as simctl lists it.
pub proof fn no_device_is_lost(list: &DeviceList, devices: Vec<Device>)
    requires
        call_ensures(parse_devices, (list,), devices),
    ensures
        devices@.len() == all_inspectable(list.devices@).len(),
        order::views(devices@).to_multiset() == all_inspectable(list.devices@).to_multiset(),
        list.devices@.len() > 0 ==> all_inspectable(list.devices@) == all_inspectable(
            list.devices@.drop_last(),
        ) + inspectable_in(list.devices@.last().1@, list.devices@.last().0@),
{
    broadcast use vstd::seq_lib::group_to_multiset_ensures;

    devices_are_in_order(list.devices@);
    assert(order::views(devices@).len() == devices@.len());
    assert(order::views(devices@).to_multiset().len() == all_inspectable(
        list.devices@,
    ).to_multiset().len());
}

// ---------------------------------------------------------------------------
// Laws on listing containers
// ---------------------------------------------------------------------------

/// The group of a container is what its metadata names: the text under the first entry
/// with the key `MCMMetadataIdentifier` of a property list that is a dictionary. Anything
/// else names no group.
pub proof fn metadata_names_the_group(metadata: &[u8], id: Option<String>)
    requires
        call_ensures(read_container_id, (metadata,), id),
    ensures
        id matches Some(name) ==> {
            &&& !property_list::far_date_in(metadata@)
            &&& property_list::plist_parsed(metadata@) matches Ok(PlistModel::Dict(entries))
                && exists|i: int|
                0 <= i < entries.len() && (#[trigger] entries[i]).0 == "MCMMetadataIdentifier"@
                    && entries[i].1 == PlistModel::String(name@) && forall|k: int|
                    0 <= k < i ==> (#[trigger] entries[k]).0 != "MCMMetadataIdentifier"@
        },
        id is None ==> property_list::far_date_in(metadata@) || !(property_list::plist_parsed(
            metadata@,
        ) matches Ok(PlistModel::Dict(entries)) && exists|i: int|
            0 <= i < entries.len() && (#[trigger] entries[i]).0 == "MCMMetadataIdentifier"@
                && entries[i].1 is String && forall|k: int|
                0 <= k < i ==> (#[trigger] entries[k]).0 != "MCMMetadataIdentifier"@),
{
    assert(optional_text(id) == metadata_id(metadata@));
    if !property_list::far_date_in(metadata@) {
        if let Ok(PlistModel::Dict(entries)) = property_list::plist_parsed(metadata@) {
            order::lookup_finds_the_first(entries, METADATA_ID_KEY@);
            if let Some(found) = order::lookup(entries, METADATA_ID_KEY@) {
                let i = choose|i: int|
                    0 <= i < entries.len() && (#[trigger] entries[i]) == (METADATA_ID_KEY@, found)
                        && forall|k: int|
                        0 <= k < i ==> (#[trigger] entries[k]).0 != METADATA_ID_KEY@;
                assert(entries[i].0 == METADATA_ID_KEY@ && entries[i].1 == found);
                if exists|m: int|
                    0 <= m < entries.len() && (#[trigger] entries[m]).0 == METADATA_ID_KEY@
                        && entries[m].1 is String && forall|k: int|
                        0 <= k < m ==> (#[trigger] entries[k]).0 != METADATA_ID_KEY@ {
                    let m = choose|m: int|
                        0 <= m < entries.len() && (#[trigger] entries[m]).0 == METADATA_ID_KEY@
                            && entries[m].1 is String && forall|k: int|
                            0 <= k < m ==> (#[trigger] entries[k]).0 != METADATA_ID_KEY@;
                    assert(m == i) by {
                        if m < i {
                            assert(entries[m].0 != METADATA_ID_KEY@);
                        } else if i < m {
                            assert(entries[i].0 != METADATA_ID_KEY@);
                        }
                    }
                }
            }
        }
    }
}

/// Whether a container is something found: a directory whose metadata names the group,
/// with the last part of its path for a UUID.
pub open spec fn was_found(container: ContainerModel, found: Found) -> bool {
    &&& found.is_dir
    &&& container.path == found.path@
    &&& path::file_name(found.path@) == Some(container.uuid)
    &&& found.metadata matches Some(bytes) && metadata_id(bytes@) == Some(container.id)
}

/// Whether a container is among what was found.
pub open spec fn is_among(found: Seq<Found>, container: ContainerModel) -> bool {
    exists|k: int| 0 <= k < found.len() && was_found(container, #[trigger] found[k])
}

/// What is gathered was found, under its root.
proof fn gathered_are_found(found: Seq<Found>, kind: ContainerKind, container: ContainerModel)
    ensures
        gathered(found, kind).contains(container) <==> container.kind == kind && is_among(
            found,
            container,
        ),
    decreases found.len(),
{
    if found.len() > 0 {
        let front = found.drop_last();
        let all = gathered(found, kind);
        let some = gathered(front, kind);
        let end = found.len() - 1;
        gathered_are_found(front, kind, container);
        if all.contains(container) {
            let k = choose|k: int| 0 <= k < all.len() && all[k] == container;
            if k < some.len() {
                assert(some[k] == container);
                let j = choose|j: int|
                    0 <= j < front.len() && was_found(container, #[trigger] front[j]);
                assert(was_found(container, found[j]));
            } else {
                assert(was_found(container, found[end]));
            }
        }
        if container.kind == kind && is_among(found, container) {
            let k = choose|k: int| 0 <= k < found.len() && was_found(container, #[trigger] found[k]);
            if k < end {
                assert(was_found(container, front[k]));
                let j = choose|j: int| 0 <= j < some.len() && some[j] == container;
                assert(all[j] == container);
            } else {
                assert(identified(found[end], kind) == Some(container));
                assert(all[all.len() - 1] == container);
            }
        }
    }
}

/// Whether a container is among what was found under the root of its kind.
pub open spec fn under_its_root(
    app: Seq<Found>,
    system: Seq<Found>,
    container: ContainerModel,
) -> bool {
    match container.kind {
        ContainerKind::App => is_among(app, container),
        ContainerKind::System => is_among(system, container),
    }
}

/// Containers under one root, sorted, are those gathered there.
proof fn sorted_are_gathered(found: Seq<Found>, kind: ContainerKind, container: ContainerModel)
    ensures
        order::arranged(gathered(found, kind), by_uuid()).contains(container) <==> container.kind
            == kind && is_among(found, container),
{
    broadcast use vstd::seq_lib::group_to_multiset_ensures;

    let all = gathered(found, kind);
    let sorted = order::arranged(all, by_uuid());
    containers_are_in_order(found, kind);
    gathered_are_found(found, kind, container);
    assert(sorted.to_multiset().count(container) == all.to_multiset().count(container));
}

/// The containers of a device are the directories found under either root whose metadata
/// names a group, all of them and no others: those of apps before those of the system,
/// and under either root lower UUIDs before higher.
pub proof fn containers_found_are_listed(app: &Vec<Found>, system: &Vec<Found>, found: Vec<Container>)
    requires
        call_ensures(containers, (app, system), found),
    ensures
        forall|i: int|
            0 <= i < found@.len() ==> under_its_root(app@, system@, (#[trigger] found@[i])@),
        forall|container: ContainerModel| #[trigger]
            under_its_root(app@, system@, container) ==> order::views(found@).contains(container),
        forall|i: int, j: int|
            0 <= i < j < found@.len() ==> {
                let a = #[trigger] found@[i];
                let b = #[trigger] found@[j];
                &&& b.kind == ContainerKind::App ==> a.kind == ContainerKind::App
                &&& a.kind == b.kind ==> !text::precedes(b.uuid@, a.uuid@)
            },
        found@.len() == gathered(app@, ContainerKind::App).len() + gathered(
            system@,
            ContainerKind::System,
        ).len(),
{
    broadcast use vstd::seq_lib::group_to_multiset_ensures;

    let first = order::arranged(gathered(app@, ContainerKind::App), by_uuid());
    let second = order::arranged(gathered(system@, ContainerKind::System), by_uuid());
    let all = order::views(found@);
    let split = first.len() as int;
    assert(all =~= first + second);
    containers_are_in_order(app@, ContainerKind::App);
    containers_are_in_order(system@, ContainerKind::System);
    assert(first.to_multiset().len() == gathered(app@, ContainerKind::App).to_multiset().len());
    assert(second.to_multiset().len() == gathered(
        system@,
        ContainerKind::System,
    ).to_multiset().len());
    assert(all.len() == found@.len());
    assert forall|i: int| 0 <= i < found@.len() implies under_its_root(
        app@,
        system@,
        (#[trigger] found@[i])@,
    ) && (i < split <==> found@[i].kind == ContainerKind::App) by {
        let container = found@[i]@;
        assert(all[i] == container);
        if i < split {
            assert(first[i] == container);
            assert(first.contains(container));
            sorted_are_gathered(app@, ContainerKind::App, container);
        } else {
            assert(second[i - split] == container);
            assert(second.contains(container));
            sorted_are_gathered(system@, ContainerKind::System, container);
        }
    }
    assert forall|container: ContainerModel| #[trigger]
        under_its_root(app@, system@, container) implies all.contains(container) by {
        if container.kind == ContainerKind::App {
            sorted_are_gathered(app@, ContainerKind::App, container);
            let k = choose|k: int| 0 <= k < first.len() && first[k] == container;
            assert(all[k] == container);
        } else {
            sorted_are_gathered(system@, ContainerKind::System, container);
            let k = choose|k: int| 0 <= k < second.len() && second[k] == container;
            assert(all[split + k] == container);
        }
    }
    assert forall|i: int, j: int| 0 <= i < j < found@.len() implies {
        let a = #[trigger] found@[i];
        let b = #[trigger] found@[j];
        &&& b.kind == ContainerKind::App ==> a.kind == ContainerKind::App
        &&& a.kind == b.kind ==> !text::precedes(b.uuid@, a.uuid@)
    } by {
        assert(all[i] == found@[i]@ && all[j] == found@[j]@);
        assert(i < split <==> found@[i].kind == ContainerKind::App);
        assert(j < split <==> found@[j].kind == ContainerKind::App);
        if j < split {
            order::in_order_means(first, by_uuid(), i, j);
            assert(!by_uuid()(first[j], first[i]));
        } else if i >= split {
            order::in_order_means(second, by_uuid(), i - split, j - split);
            assert(!by_uuid()(second[j - split], second[i - split]));
        }
    }
}

/// The containers of apps lie under `Containers/Shared/AppGroup` of the device's data,
/// those of the system under `Containers/Shared/SystemGroup`.
pub proof fn containers_lie_below_the_data(
    device: &Device,
    app: String,
    system: String,
)
    requires
        call_ensures(container_root, (device, ContainerKind::App), app),
        call_ensures(container_root, (device, ContainerKind::System), system),
        device.data_path@.len() > 0,
        device.data_path@.last() != '/',
    ensures
        app@ == device.data_path@ + "/Containers/Shared/AppGroup"@,
        system@ == device.data_path@ + "/Containers/Shared/SystemGroup"@,
{
    reveal_strlit("Containers/Shared");
    reveal_strlit("AppGroup");
    reveal_strlit("SystemGroup");
    reveal_strlit("/Containers/Shared/AppGroup");
    reveal_strlit("/Containers/Shared/SystemGroup");
    let shared = path::put_behind(device.data_path@, "Containers/Shared"@);
    path::putting_behind_keeps_both(device.data_path@, "Containers/Shared"@);
    path::putting_behind_keeps_both(shared, "AppGroup"@);
    path::putting_behind_keeps_both(shared, "SystemGroup"@);
    assert(shared.last() == 'd');
    assert(app@ =~= device.data_path@ + "/Containers/Shared/AppGroup"@);
    assert(system@ =~= device.data_path@ + "/Containers/Shared/SystemGroup"@);
}

// ---------------------------------------------------------------------------
// Laws on listing groups
// ---------------------------------------------------------------------------

/// Whether a text has no white space at its ends.
pub open spec fn is_trimmed(s: Seq<char>) -> bool {
    s.len() > 0 && !text::is_white(s[0]) && !text::is_white(s.last())
}

/// A line of an identifier, a tab and a path lists that group, before those of the lines
/// that follow, however often the path holds a tab or a space.
pub proof fn a_line_lists_its_group(id: Seq<char>, path: Seq<char>, rest: Seq<Seq<char>>)
    requires
        is_trimmed(id),
        is_trimmed(path),
        !id.contains('\t'),
    ensures
        groups_in(seq![id + seq!['\t'] + path] + rest) == match groups_in(rest) {
            Ok(groups) => Ok(seq![(id, path)] + groups),
            Err(line) => Err(line),
        },
{
    let line = id + seq!['\t'] + path;
    let lines = seq![line] + rest;
    assert(line =~= id.push('\t') + path);
    assert(line[0] == id[0]);
    assert(line.last() == path.last());
    text::trim_keeps(line);
    text::trim_keeps(id);
    text::trim_keeps(path);
    text::split_once_undoes(id, '\t', path);
    assert(lines.drop_first() =~= rest);
    assert(lines[0] == line);
}

/// A line of white space lists nothing.
pub proof fn a_blank_line_lists_nothing(line: Seq<char>, rest: Seq<Seq<char>>)
    requires
        forall|i: int| 0 <= i < line.len() ==> text::is_white(#[trigger] line[i]),
    ensures
        groups_in(seq![line] + rest) == groups_in(rest),
{
    let end = text::trim_end_cuts(line);
    if end > 0 {
        assert(text::is_white(line[end - 1]));
    }
    assert((seq![line] + rest).drop_first() =~= rest);
}

/// A line that is not blank and has no tab fails the listing, whatever follows it, and is
/// named.
pub proof fn a_line_without_a_tab_fails(line: Seq<char>, rest: Seq<Seq<char>>)
    requires
        is_trimmed(line),
        !line.contains('\t'),
    ensures
        groups_in(seq![line] + rest) == Err::<Seq<(Seq<char>, Seq<char>)>, Seq<char>>(line),
{
    text::trim_keeps(line);
    text::split_once_comes_apart(line, '\t');
    assert((seq![line] + rest).drop_first() =~= rest);
}

/// No lines list no group.
pub proof fn no_line_lists_nothing()
    ensures
        groups_in(Seq::empty()) == Ok::<Seq<(Seq<char>, Seq<char>)>, Seq<char>>(Seq::empty()),
{
}

/// A listing of groups is read line by line: it is the groups that its lines list, in
/// order, or an error that names the line.
pub proof fn groups_are_read_line_by_line(
    stdout: &str,
    result: Result<Vec<AppGroup>, DiscoverError>,
)
    requires
        call_ensures(parse_groups, (stdout,), result),
    ensures
        result is Ok <==> groups_in(text::lines(stdout@)) is Ok,
        result matches Ok(found) ==> {
            let groups = groups_in(text::lines(stdout@))->Ok_0;
            &&& found@.len() == groups.len()
            &&& forall|i: int|
                0 <= i < found@.len() ==> (#[trigger] found@[i]).id@ == groups[i].0
                    && found@[i].path@ == groups[i].1
        },
        result matches Err(error) ==> error matches DiscoverError::UnexpectedLine { line } && line@
            == groups_in(text::lines(stdout@))->Err_0,
{
    assert(listed(stdout@, result));
    if let Ok(found) = result {
        let groups = groups_in(text::lines(stdout@))->Ok_0;
        assert(order::views(found@).len() == found@.len());
        assert forall|i: int| 0 <= i < found@.len() implies (#[trigger] found@[i]).id@
            == groups[i].0 && found@[i].path@ == groups[i].1 by {
            assert(order::views(found@)[i] == found@[i]@);
        }
    }
}

/// The groups of an app are listed exactly where simctl lists some: what simctl failed
/// with is kept as the cause, and a listing without groups is an error that names the
/// app and the device.
pub proof fn groups_of_an_app_are_listed_or_missed(
    device: &Device,
    bundle_id: &str,
    output: Result<String, DiscoverError>,
    result: Result<Vec<AppGroup>, DiscoverError>,
)
    requires
        call_ensures(app_groups, (device, bundle_id, output), result),
    ensures
        result matches Ok(found) ==> found@.len() > 0 && (output matches Ok(stdout) && groups_in(
            text::lines(stdout@),
        ) matches Ok(groups) && order::views(found@) == groups),
        output matches Ok(stdout) ==> (groups_in(text::lines(stdout@)) matches Ok(groups)
            ==> groups.len() > 0 ==> result is Ok),
        output matches Ok(stdout) ==> (groups_in(text::lines(stdout@)) matches Ok(groups)
            ==> groups.len() == 0 ==> (result matches Err(
            DiscoverError::NoGroups { bundle_id: app, device: name },
        ) && app@ == bundle_id@ && name@ == device.name@)),
        output matches Err(error) ==> (result matches Err(
            DiscoverError::GroupsUnreadable { bundle_id: app, device: name, udid, cause },
        ) && app@ == bundle_id@ && name@ == device.name@ && udid@ == device.udid@ && *cause
            == error),
{
    if let Ok(stdout) = output {
        if let Ok(groups) = groups_in(text::lines(stdout@)) {
            if groups.len() == 0 {
                assert(groups =~= seq![]);
            }
        }
        if let Ok(found) = result {
            assert(order::views(found@).len() == found@.len());
        }
    }
}

// ---------------------------------------------------------------------------
// Laws on running simctl
// ---------------------------------------------------------------------------

/// Condensing keeps the words and their order.
pub proof fn condensing_keeps_the_words(s: Seq<char>)
    ensures
        text::words(condensed(s)) == text::words(s),
{
    let words = text::words(s);
    assert forall|word: int| 0 <= word < words.len() implies text::solid(#[trigger] words[word])
        && words[word].len() > 0 by {
        assert forall|k: int| 0 <= k < words[word].len() implies !text::is_white(
            #[trigger] words[word][k],
        ) by {
            words_hold_no_white_space(s, word, k);
        }
        words_hold_something(s, word);
    }
    joined_words(words);
}

/// No word is empty.
proof fn words_hold_something(s: Seq<char>, word: int)
    requires
        0 <= word < text::words(s).len(),
    ensures
        text::words(s)[word].len() > 0,
    decreases s.len(),
{
    if s.len() > 0 {
        if text::is_white(s[0]) {
            words_hold_something(s.drop_first(), word);
        } else {
            let n = text::word_length(s);
            text::word_length_bounds(s);
            if word > 0 {
                words_hold_something(s.skip(n), word - 1);
            }
        }
    }
}

/// Words joined with spaces are those words.
proof fn joined_words(words: Seq<Seq<char>>)
    requires
        forall|word: int|
            0 <= word < words.len() ==> text::solid(#[trigger] words[word]) && words[word].len()
                > 0,
    ensures
        text::words(text::joined(words, " "@)) == words,
    decreases words.len(),
{
    reveal_strlit(" ");
    if words.len() == 0 {
        assert(text::words(text::joined(words, " "@)) =~= words);
    } else {
        let last = words.last();
        let front = words.drop_last();
        assert(text::solid(words[words.len() - 1]));
        text::one_word(last);
        assert forall|word: int| 0 <= word < front.len() implies text::solid(#[trigger] front[word])
            && front[word].len() > 0 by {
            assert(front[word] == words[word]);
        }
        joined_words(front);
        if front.len() > 0 {
            let start = text::joined(front, " "@);
            assert(text::joined(words, " "@) =~= start.push(' ') + last);
            text::white_space_of_ascii(' ');
            text::words_part_at_white_space(start, ' ', last);
        } else {
            assert(text::joined(words, " "@) =~= last);
        }
        assert(front + seq![last] =~= words);
    }
}

/// What simctl wrote is its result exactly where it ran with success. Otherwise the error
/// has the whole command, and the words simctl complained in, or how it exited where it
/// did not complain.
pub proof fn simctl_tells_why_it_failed(
    args: &Vec<String>,
    ran: Ran,
    result: Result<String, DiscoverError>,
)
    requires
        call_ensures(simctl, (args, ran), result),
    ensures
        result is Ok <==> ran is Finished && ran->success,
        result matches Ok(output) ==> output@ == ran->stdout@,
        result matches Err(DiscoverError::Failed { command, detail }) ==> {
            &&& text::words(detail@) == text::words(ran->stderr@)
            &&& text::words(detail@).len() > 0
            &&& forall|i: int|
                0 <= i < args@.len() ==> text::mentions(command@, (#[trigger] args@[i])@)
        },
        result matches Err(DiscoverError::FailedSilently { command, status }) ==> {
            &&& status@ == ran->status@
            &&& text::words(ran->stderr@).len() == 0
            &&& forall|i: int|
                0 <= i < args@.len() ==> text::mentions(command@, (#[trigger] args@[i])@)
        },
        result matches Err(DiscoverError::NotStarted { command }) ==> {
            &&& ran is NotStarted
            &&& forall|i: int|
                0 <= i < args@.len() ==> text::mentions(command@, (#[trigger] args@[i])@)
        },
        result matches Err(error) ==> error is Failed || error is FailedSilently
            || error is NotStarted,
{
    let texts = text::texts(args@);
    let command = command_line(texts);
    assert forall|i: int| 0 <= i < args@.len() implies text::mentions(
        command,
        (#[trigger] args@[i])@,
    ) by {
        assert(texts[i] == args@[i]@);
        text::joined_mentions(texts, " "@, i);
        let none = Seq::<char>::empty();
        text::mentions_within("xcrun simctl "@, text::joined(texts, " "@), none, args@[i]@);
        assert(command =~= "xcrun simctl "@ + text::joined(texts, " "@) + none);
    }
    if let Ran::Finished { stderr, .. } = ran {
        condensing_keeps_the_words(stderr@);
        if condensed(stderr@).len() == 0 {
            assert(text::words(condensed(stderr@)) =~= seq![]);
        } else if text::words(stderr@).len() == 0 {
            text::joined_of_nothing(" "@);
            assert(text::words(stderr@) =~= Seq::<Seq<char>>::empty());
        }
    }
}

// ---------------------------------------------------------------------------
// Laws on what errors say
// ---------------------------------------------------------------------------

/// A list in an error has a line for each device, in order, with its name, its runtime
/// and its UDID.
pub proof fn devices_are_listed_line_by_line(devices: &Vec<Device>, list: String, index: int)
    requires
        call_ensures(bullet_list, (devices,), list),
        0 <= index < devices@.len(),
    ensures
        list@ == text::joined(
            Seq::new(
                devices@.len(),
                |i: int|
                    "  "@ + devices@[i].name@ + " ("@ + devices@[i].runtime@ + ", "@
                        + devices@[i].udid@ + ")"@,
            ),
            "\n"@,
        ),
        text::mentions(
            list@,
            "  "@ + devices@[index].name@ + " ("@ + devices@[index].runtime@ + ", "@
                + devices@[index].udid@ + ")"@,
        ),
{
    let models = order::views(devices@);
    let lines = Seq::new(
        devices@.len(),
        |i: int|
            "  "@ + devices@[i].name@ + " ("@ + devices@[i].runtime@ + ", "@ + devices@[i].udid@
                + ")"@,
    );
    assert(models.map_values(|device: DeviceModel| device_line(device)) =~= lines);
    text::joined_mentions(lines, "\n"@, index);
}

/// A request for a container that fails is repeated in what the error says, with the
/// device, or with each of the containers there are for it.
pub proof fn container_errors_say_what_was_asked(
    query: String,
    device: String,
    containers: Vec<Container>,
    index: int,
)
    requires
        0 <= index < containers@.len(),
    ensures
        text::mentions((DiscoverError::NoContainer { query, device }).said(), query@),
        text::mentions((DiscoverError::NoContainer { query, device }).said(), device@),
        text::mentions((DiscoverError::SeveralContainers { query, containers }).said(), query@),
        text::mentions(
            (DiscoverError::SeveralContainers { query, containers }).said(),
            containers@[index].uuid@,
        ),
{
    let hint = "\n\nrun `agpeek groups <bundle-id>` to see what an app declares"@;
    let missing = (DiscoverError::NoContainer { query, device }).said();
    assert(missing =~= "no container for `"@ + query@ + ("` on "@ + device@ + hint));
    assert(missing =~= ("no container for `"@ + query@ + "` on "@) + device@ + hint);
    let several = (DiscoverError::SeveralContainers { query, containers }).said();
    let models = order::views(containers@);
    let list = container_bullets(models);
    let middle = "` matches "@ + number::decimal(containers@.len())
        + " containers — pass the UUID instead:\n"@;
    assert(several =~= "`"@ + query@ + (middle + list));
    let lines = models.map_values(|container: ContainerModel| container_line(container));
    let uuid = containers@[index].uuid@;
    let tail = " ("@ + models[index].kind.named() + ")"@;
    assert(lines[index] =~= "  "@ + uuid + tail);
    text::joined_mentions(lines, "\n"@, index);
    let (x, y) = choose|x: Seq<char>, y: Seq<char>| list == #[trigger] (x + lines[index] + y);
    let none = Seq::<char>::empty();
    assert(list =~= (x + "  "@) + uuid + (tail + y));
    text::mentions_within("`"@ + query@ + middle, list, none, uuid);
    assert(several =~= ("`"@ + query@ + middle) + list + none);
}

/// A request for a simulator that fails is repeated in what the error says, with the list
/// of the simulators that come into question.
pub proof fn simulator_errors_say_what_was_asked(query: String, devices: Vec<Device>)
    ensures
        text::mentions((DiscoverError::NoSimulator { query, devices }).said(), query@),
        text::mentions((DiscoverError::SeveralSimulators { query, devices }).said(), query@),
        text::mentions(
            (DiscoverError::NoSimulator { query, devices }).said(),
            bullets(order::views(devices@)),
        ),
        text::mentions(
            (DiscoverError::SeveralSimulators { query, devices }).said(),
            bullets(order::views(devices@)),
        ),
        text::mentions(
            (DiscoverError::NoneBooted { devices }).said(),
            bullets(order::views(devices@)),
        ),
        text::mentions(
            (DiscoverError::SeveralBooted { devices }).said(),
            bullets(order::views(devices@)),
        ),
        text::mentions(
            (DiscoverError::SeveralBooted { devices }).said(),
            number::decimal(devices@.len()),
        ),
{
    let list = bullets(order::views(devices@));
    let count = number::decimal(devices@.len());
    let none = Seq::<char>::empty();
    let unknown = (DiscoverError::NoSimulator { query, devices }).said();
    let above = "`\n\navailable:\n"@;
    assert(unknown =~= "no simulator matches `"@ + query@ + (above + list));
    assert(unknown =~= ("no simulator matches `"@ + query@ + above) + list + none);
    let several = (DiscoverError::SeveralSimulators { query, devices }).said();
    let middle = "` matches "@ + count + " simulators — pass a UDID instead:\n"@;
    assert(several =~= "`"@ + query@ + (middle + list));
    assert(several =~= ("`"@ + query@ + middle) + list + none);
    let nothing = (DiscoverError::NoneBooted { devices }).said();
    assert(nothing =~= "no booted simulator — boot one, or pass --device\n\navailable:\n"@ + list
        + none);
    let running = (DiscoverError::SeveralBooted { devices }).said();
    let choose_one = " simulators are booted — pass --device to choose:\n"@;
    assert(running =~= none + count + (choose_one + list));
    assert(running =~= (count + choose_one) + list + none);
}

/// A container is called `app` or `system` by the root it lies under.
pub proof fn kinds_have_their_names(kind: ContainerKind, name: &'static str)
    requires
        call_ensures(ContainerKind::name, (kind,), name),
    ensures
        kind == ContainerKind::App ==> name@ == "app"@,
        kind == ContainerKind::System ==> name@ == "system"@,
{
}

/// What simctl could not do for an app is said with the app and the device, and a command
/// that failed is said with what it complained of.
pub proof fn simctl_errors_say_what_failed(
    bundle_id: String,
    device: String,
    udid: String,
    cause: Box<DiscoverError>,
    command: String,
    detail: String,
    status: String,
    line: String,
)
    ensures
        (DiscoverError::GroupsUnreadable { bundle_id, device, udid, cause }).said()
            == "could not read App Groups for `"@ + bundle_id@ + "` on "@ + device@ + " ("@ + udid@
            + ") — is the app installed?"@,
        (DiscoverError::NoGroups { bundle_id, device }).said() == "`"@ + bundle_id@
            + "` is installed on "@ + device@ + " but declares no App Groups"@,
        (DiscoverError::Failed { command, detail }).said() == "`"@ + command@ + "` failed: "@
            + detail@,
        (DiscoverError::FailedSilently { command, status }).said() == "`"@ + command@
            + "` failed with "@ + status@,
        (DiscoverError::NotStarted { command }).said() == "failed to run `"@ + command@ + "`"@,
        (DiscoverError::UnexpectedLine { line }).said() == "unexpected line from simctl: "@
            + text::quoted(line@),
{
}

/// A readable runtime is what its identifier reads as.
pub proof fn a_runtime_is_made_readable(
    identifier: &str,
    readable: String,
    platform: Seq<char>,
    version: Seq<char>,
)
    requires
        call_ensures(friendly_runtime, (identifier,), readable),
        !platform.contains('-'),
        identifier@ == "com.apple.CoreSimulator.SimRuntime."@ + platform + seq!['-'] + version,
    ensures
        readable@.len() == platform.len() + 1 + version.len(),
        readable@.take(platform.len() as int) == platform,
        readable@[platform.len() as int] == ' ',
        forall|i: int|
            0 <= i < version.len() ==> #[trigger] readable@[platform.len() + 1 + i] == if version[i]
                == '-' {
                '.'
            } else {
                version[i]
            },
{
    runtimes_read_as_platform_and_version(platform, version);
    text::replaced_place_by_place(version, '-', '.');
    let dotted = text::replaced(version, '-', '.');
    assert(readable@ =~= platform + seq![' '] + dotted);
    assert(readable@.take(platform.len() as int) =~= platform);
    assert forall|i: int| 0 <= i < version.len() implies #[trigger] readable@[platform.len() + 1
        + i] == if version[i] == '-' {
        '.'
    } else {
        version[i]
    } by {
        assert(readable@[platform.len() + 1 + i] == dotted[i]);
    }
}

/// Condensed output has the words of the output, with one space between neighbours.
pub proof fn output_is_condensed_to_its_words(output: &str, line: String)
    requires
        call_ensures(condense, (output,), line),
    ensures
        text::words(line@) == text::words(output@),
        line@ == text::joined(text::words(output@), seq![' ']),
        forall|i: int|
            0 <= i < line@.len() && text::is_white(#[trigger] line@[i]) ==> line@[i] == ' ',
{
    reveal_strlit(" ");
    assert(" "@ =~= seq![' ']);
    condensing_keeps_the_words(output@);
    assert forall|i: int| 0 <= i < line@.len() && text::is_white(#[trigger] line@[i]) implies line@[i]
        == ' ' by {
        condensed_is_one_line(output@, i);
    }
}

/// A device is booted where its state says so, but for case.
pub proof fn booted_devices_say_so(device: &Device, yes: bool)
    requires
        call_ensures(Device::is_booted, (device,), yes),
    ensures
        yes <==> text::alike(device.state@, "Booted"@),
{
}

/// White space around the identifier and around the path of a group is left out.
pub proof fn white_space_in_a_listing_is_left_out(
    a: Seq<char>,
    id: Seq<char>,
    b: Seq<char>,
    c: Seq<char>,
    path: Seq<char>,
    d: Seq<char>,
    rest: Seq<Seq<char>>,
)
    requires
        is_trimmed(id),
        is_trimmed(path),
        text::blank(a) && text::blank(b) && text::blank(c) && text::blank(d),
        !(a + id + b).contains('\t'),
    ensures
        groups_in(seq![a + id + b + seq!['\t'] + c + path + d] + rest) == match groups_in(rest) {
            Ok(groups) => Ok(seq![(id, path)] + groups),
            Err(line) => Err(line),
        },
{
    let left = a + id + b;
    let right = c + path;
    let line = left + seq!['\t'] + c + path + d;
    let front = left.push('\t') + c;
    let kept = left.push('\t') + right;
    let lines = seq![line] + rest;
    let none = Seq::<char>::empty();
    assert(line =~= front + path + d);
    ends_are_trimmed(front, path, d);
    assert(front + path =~= kept);
    text::split_once_undoes(left, '\t', right);
    text::trim_undoes_padding(a, id, b);
    text::trim_undoes_padding(c, path, none);
    assert(c + path + none =~= right);
    assert(lines.drop_first() =~= rest);
    assert(lines[0] == line);
}

/// White space behind a text is trimmed off its end.
proof fn ends_are_trimmed(front: Seq<char>, s: Seq<char>, behind: Seq<char>)
    requires
        is_trimmed(s),
        text::blank(behind),
    ensures
        text::trim_end(front + s + behind) == front + s,
{
    let whole = front + s + behind;
    let end = (front.len() + s.len()) as int;
    let cut = text::trim_end_cuts(whole);
    assert(whole[end - 1] == s.last());
    if cut < end {
        assert(text::is_white(whole[end - 1]));
    }
    if cut > end {
        assert(whole[cut - 1] == behind[cut - 1 - end]);
        assert(text::is_white(whole[cut - 1]));
    }
    assert(whole.take(end) =~= front + s);
}

/// Where there are no devices, a list of them says so.
pub proof fn no_devices_are_listed_as_none(devices: &Vec<Device>, list: String)
    requires
        call_ensures(bullet_list, (devices,), list),
        devices@.len() == 0,
    ensures
        list@ == "  (none)"@,
{
    assert(order::views(devices@).len() == 0);
}

/// simctl is asked for the groups of the app on the device, by its UDID, and for the
/// devices as JSON.
pub proof fn simctl_is_asked_for_what_is_wanted(
    device: &Device,
    bundle_id: &str,
    groups: Vec<String>,
    devices: Vec<String>,
)
    requires
        call_ensures(app_group_args, (device, bundle_id), groups),
        call_ensures(device_list_args, (), devices),
    ensures
        groups@.len() == 4,
        groups@[0]@ == "get_app_container"@,
        groups@[1]@ == device.udid@,
        groups@[2]@ == bundle_id@,
        groups@[3]@ == "groups"@,
        devices@.len() == 3,
        devices@[0]@ == "list"@,
        devices@[1]@ == "devices"@,
        devices@[2]@ == "-j"@,
{
    let asked = text::texts(groups@);
    let listed = text::texts(devices@);
    assert(asked.len() == groups@.len() && listed.len() == devices@.len());
    assert(asked[0] == groups@[0]@ && asked[1] == groups@[1]@ && asked[2] == groups@[2]@ && asked[3]
        == groups@[3]@);
    assert(listed[0] == devices@[0]@ && listed[1] == devices@[1]@ && listed[2] == devices@[2]@);
}

/// A command that could not be started is named as it would be typed.
pub proof fn a_command_is_named_as_typed(
    args: &Vec<String>,
    result: Result<String, DiscoverError>,
)
    requires
        call_ensures(simctl, (args, Ran::NotStarted), result),
    ensures
        result matches Err(DiscoverError::NotStarted { command }) && command@ == "xcrun simctl "@
            + text::joined(Seq::new(args@.len(), |i: int| args@[i]@), seq![' ']),
{
    reveal_strlit(" ");
    assert(" "@ =~= seq![' ']);
    assert(text::texts(args@) =~= Seq::new(args@.len(), |i: int| args@[i]@));
}

} // verus!
