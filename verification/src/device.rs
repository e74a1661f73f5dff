//! Devices.
//!
//! A directory of the tree is a device where it has a metadata file. A
//! device is built in one pass from a snapshot of the tree: its properties
//! from the metadata file, its subsystem and driver from the links of those
//! names, its attributes from the files below it, its device node from the
//! `DEVNAME` property, and its parent from the nearest directory above it
//! that is a device too.

use crate::attributes::{attributes, collect_attributes};
use crate::error::Error;
use crate::path::{absolute, copy_names, join, joined, names, render};
use crate::properties::{parse, properties};
use crate::table::Table;
use crate::text::{bytes_eq, str_eq, text_of, to_text};
use crate::tree::{
    all_proper, canonical, is_device, lemma_canonical_of_written, lemma_directories_above, lookup,
    metadata_file, metadata_name, step, FileSystem, Node,
};
use vstd::prelude::*;
use vstd::string::*;
use vstd::utf8::*;

verus! {

/// What a device is, as plain values.
pub struct DeviceView {
    /// The written canonical path of the device's directory.
    pub syspath: Seq<u8>,
    /// The subsystem that the device belongs to.
    pub subsystem: Option<Seq<char>>,
    /// The driver bound to the device.
    pub driver: Option<Seq<char>>,
    /// The written path of the device's special file.
    pub devnode: Option<Seq<u8>>,
    /// The attributes, by their path below the device's directory.
    pub attributes: Map<Seq<char>, Seq<u8>>,
    /// The properties from the metadata file.
    pub properties: Map<Seq<char>, Seq<u8>>,
    /// The nearest device above this one.
    pub parent: Option<Box<DeviceView>>,
}

/// One device of the tree, with the devices above it.
#[derive(Debug)]
pub struct Device {
    system_path: Vec<u8>,
    subsystem: Option<String>,
    driver: Option<String>,
    devnode: Option<Vec<u8>>,
    attributes: Table,
    properties: Table,
    parent: Option<Box<Device>>,
}

/// The written path of the directory that holds the device nodes.
pub open spec fn node_root() -> Seq<u8> {
    "/dev".spec_bytes()
}

/// The key of the property that names a device's node.
pub open spec fn node_key() -> Seq<char> {
    "DEVNAME"@
}

/// The key of the property that holds a device's type.
pub open spec fn type_key() -> Seq<char> {
    "DEVTYPE"@
}

/// The name of the link to a device's subsystem.
pub open spec fn subsystem_link() -> Seq<u8> {
    "subsystem".spec_bytes()
}

/// The name of the link to a device's driver.
pub open spec fn driver_link() -> Seq<u8> {
    "driver".spec_bytes()
}

/// The text of an optional string.
pub open spec fn text(s: Option<String>) -> Option<Seq<char>> {
    match s {
        Some(s) => Some(s@),
        None => None,
    }
}

/// The bytes of an optional byte string.
pub open spec fn bytes(s: Option<Vec<u8>>) -> Option<Seq<u8>> {
    match s {
        Some(s) => Some(s@),
        None => None,
    }
}

/// What the link `link` in the directory `dir` classifies the device as:
/// the last name of the canonical path that `link` leads to, where that
/// name is text.
pub open spec fn classification(root: Node, dir: Seq<Seq<u8>>, link: Seq<u8>) -> Option<
    Seq<char>,
> {
    match step(root, dir, link) {
        Some(at) => if at.len() > 0 {
            text_of(at.last())
        } else {
            None
        },
        None => None,
    }
}

/// The properties of the device at `dir`: what its metadata file states,
/// and nothing where the file cannot be read.
pub open spec fn device_properties(root: Node, dir: Seq<Seq<u8>>) -> Map<Seq<char>, Seq<u8>> {
    match metadata_file(root, dir) {
        Some(Node::File(Some(content))) => properties(content@),
        _ => Map::empty(),
    }
}

/// The device node that goes with these properties: the node root joined
/// with the value of `DEVNAME`, where there is one.
pub open spec fn device_node(props: Map<Seq<char>, Seq<u8>>) -> Option<Seq<u8>> {
    if props.contains_key(node_key()) {
        Some(joined(node_root(), props[node_key()]))
    } else {
        None
    }
}

/// The device whose directory has the canonical path `dir`, if that
/// directory is a device.
pub open spec fn device_at(root: Node, dir: Seq<Seq<u8>>) -> Option<DeviceView>
    decreases dir.len(), 1int,
{
    if is_device(root, dir) {
        Some(
            DeviceView {
                syspath: absolute(dir),
                subsystem: classification(root, dir, subsystem_link()),
                driver: classification(root, dir, driver_link()),
                devnode: device_node(device_properties(root, dir)),
                attributes: attributes(root, lookup(root, dir)),
                properties: device_properties(root, dir),
                parent: match device_above(root, dir) {
                    Some(parent) => Some(Box::new(parent)),
                    None => None,
                },
            },
        )
    } else {
        None
    }
}

/// The nearest device above the directory `dir`: the device at the longest
/// proper prefix of `dir` that is one.
pub open spec fn device_above(root: Node, dir: Seq<Seq<u8>>) -> Option<DeviceView>
    decreases dir.len(), 0int,
{
    if dir.len() == 0 {
        None
    } else {
        match device_at(root, dir.drop_last()) {
            Some(device) => Some(device),
            None => device_above(root, dir.drop_last()),
        }
    }
}

/// The device that the written path `path` leads to, if it leads to one.
pub open spec fn device(root: Node, path: Seq<u8>) -> Option<DeviceView> {
    match canonical(root, path) {
        Some(dir) => device_at(root, dir),
        None => None,
    }
}

/// The nearest device above `device` that `hit` holds of.
pub open spec fn nearest(device: DeviceView, hit: spec_fn(DeviceView) -> bool) -> Option<
    DeviceView,
>
    decreases device,
{
    match device.parent {
        Some(parent) => if hit(*parent) {
            Some(*parent)
        } else {
            nearest(*parent, hit)
        },
        None => None,
    }
}

/// The condition of belonging to the subsystem `name`.
pub open spec fn in_subsystem(name: Seq<char>) -> spec_fn(DeviceView) -> bool {
    |d: DeviceView| d.subsystem == Some(name)
}

/// The condition of belonging to the subsystem `name` and having the type
/// `devtype`: a `DEVTYPE` property that is text and reads `devtype`.
pub open spec fn in_subsystem_with_type(name: Seq<char>, devtype: Seq<char>) -> spec_fn(
    DeviceView,
) -> bool {
    |d: DeviceView|
        d.subsystem == Some(name) && d.properties.contains_key(type_key()) && text_of(
            d.properties[type_key()],
        ) == Some(devtype)
}

/// The view of a device that may be there.
pub open spec fn viewed(device: Option<&Device>) -> Option<DeviceView> {
    match device {
        Some(device) => Some(device@),
        None => None,
    }
}

/// The device `k` steps above `device`: `device` itself for no step, its
/// parent for one, and so on.
pub open spec fn ancestor(device: DeviceView, k: nat) -> Option<DeviceView>
    decreases k,
{
    if k == 0 {
        Some(device)
    } else {
        match device.parent {
            Some(parent) => ancestor(*parent, (k - 1) as nat),
            None => None,
        }
    }
}

/// A written path leads to a device exactly where it resolves to a
/// directory with a metadata file, and the device's path is then the
/// canonical form of the written path.
pub proof fn lemma_device_exists(root: Node, path: Seq<u8>)
    ensures
        device(root, path).is_some() <==> (canonical(root, path) matches Some(dir) && is_device(
            root,
            dir,
        )),
        device(root, path) matches Some(found) ==> found.syspath == absolute(
            canonical(root, path).unwrap(),
        ),
{
}

/// A device's node is the node root joined with its `DEVNAME` property, and
/// a device without that property has no node.
pub proof fn lemma_device_node(root: Node, dir: Seq<Seq<u8>>)
    ensures
        device_at(root, dir) matches Some(found) ==> found.devnode == (if found.properties.contains_key(
            node_key(),
        ) {
            Some(joined(node_root(), found.properties[node_key()]))
        } else {
            None
        }),
{
}

/// The parent of a device is the device at the nearest directory above it
/// that is one: the result is the length of that directory's path, which is
/// shorter than the device's own. No directory in between is a device, and
/// a device without a parent has no device above it at all.
pub proof fn lemma_parent_is_nearest_device(root: Node, dir: Seq<Seq<u8>>) -> (k: int)
    ensures
        match device_above(root, dir) {
            Some(parent) => 0 <= k < dir.len() && device_at(root, dir.take(k)) == Some(parent)
                && forall|j: int| k < j < dir.len() ==> !is_device(root, #[trigger] dir.take(j)),
            None => forall|j: int| 0 <= j < dir.len() ==> !is_device(root, #[trigger] dir.take(j)),
        },
    decreases dir.len(),
{
    if dir.len() == 0 {
        0
    } else {
        let above = dir.drop_last();
        assert(above =~= dir.take(dir.len() - 1));
        if device_at(root, above).is_some() {
            dir.len() - 1
        } else {
            let k = lemma_parent_is_nearest_device(root, above);
            assert forall|j: int| 0 <= j < above.len() implies #[trigger] dir.take(j)
                == above.take(j) by {
                assert(dir.take(j) =~= above.take(j));
            }
            k
        }
    }
}

/// The device that `nearest` finds is the first one above `device` that
/// `hit` holds of: the result is the number of steps up to it, and `hit`
/// holds of no device fewer steps above. Where `nearest` finds none, `hit`
/// holds of no device above `device`. This holds of every condition: a
/// search by subsystem and type goes past a device of the subsystem that has
/// another type, and finds the first that has both.
pub proof fn lemma_nearest_is_first_match(device: DeviceView, hit: spec_fn(DeviceView) -> bool) -> (k:
    nat)
    ensures
        match nearest(device, hit) {
            Some(found) => k >= 1 && ancestor(device, k) == Some(found) && hit(found)
                && forall|j: nat|
                1 <= j < k ==> (#[trigger] ancestor(device, j)).is_some() && !hit(
                    ancestor(device, j).unwrap(),
                ),
            None => forall|j: nat|
                j >= 1 && (#[trigger] ancestor(device, j)).is_some() ==> !hit(
                    ancestor(device, j).unwrap(),
                ),
        },
    decreases device,
{
    match device.parent {
        Some(parent) => {
            assert(ancestor(device, 1) == Some(*parent)) by {
                reveal_with_fuel(ancestor, 2);
            }
            if hit(*parent) {
                1
            } else {
                let k = lemma_nearest_is_first_match(*parent, hit);
                assert forall|j: nat| j >= 1 implies #[trigger] ancestor(device, j) == ancestor(
                    *parent,
                    (j - 1) as nat,
                ) by {}
                assert forall|j: nat| j >= 2 implies (#[trigger] ancestor(device, j)
                    == ancestor(*parent, (j - 1) as nat) && (j - 1) as nat >= 1) by {}
                k + 1
            }
        },
        None => {
            assert forall|j: nat| j >= 1 implies (#[trigger] ancestor(device, j)).is_none() by {}
            0
        },
    }
}

/// The path of a device leads back to the device: the written path of a
/// device's directory, whose names name entries, is canonical, and the
/// device that it leads to is that device.
pub proof fn lemma_syspath_leads_back(root: Node, dir: Seq<Seq<u8>>)
    requires
        all_proper(dir),
        is_device(root, dir),
    ensures
        canonical(root, absolute(dir)) == Some(dir),
        device(root, absolute(dir)) == device_at(root, dir),
{
    let below = dir.push(metadata_name());
    assert(below.take(dir.len() as int) =~= dir);
    lemma_directories_above(root, below, dir.len() as int);
    lemma_canonical_of_written(root, dir);
}

/// Building a device twice from one snapshot and one path gives the same
/// device: the same properties, the same attributes, and the same of
/// everything else.
pub proof fn lemma_construction_repeats(root: Node, path: Seq<u8>, first: Device, second: Device)
    requires
        device(root, path) == Some(first@),
        device(root, path) == Some(second@),
    ensures
        first@.properties == second@.properties,
        first@.attributes == second@.attributes,
        first@ == second@,
{
}

impl Device {
    /// What this device is, as plain values.
    pub closed spec fn model(&self) -> DeviceView
        decreases self,
    {
        DeviceView {
            syspath: self.system_path@,
            subsystem: text(self.subsystem),
            driver: text(self.driver),
            devnode: bytes(self.devnode),
            attributes: self.attributes@,
            properties: self.properties@,
            parent: match self.parent {
                Some(parent) => Some(Box::new(parent.model())),
                None => None,
            },
        }
    }
}

impl Device {
    /// Tells whether the device and the devices above it are well formed:
    /// whether no key stands twice among the attributes of one of them, nor
    /// among its properties.
    pub closed spec fn well_formed(&self) -> bool
        decreases self,
    {
        &&& self.attributes.distinct()
        &&& self.properties.distinct()
        &&& match self.parent {
            Some(parent) => parent.well_formed(),
            None => true,
        }
    }
}

impl View for Device {
    type V = DeviceView;

    open spec fn view(&self) -> DeviceView {
        self.model()
    }
}

/// Reads what the link `link` in the directory `dir` classifies the device
/// as.
fn classify(fs: &FileSystem, dir: &Vec<Vec<u8>>, link: &[u8]) -> (r: Option<String>)
    ensures
        text(r) == classification(fs.root, names(dir@), link@),
{
    let mut at = copy_names(dir);
    if !fs.advance(&mut at, link) {
        return None;
    }
    if at.len() == 0 {
        return None;
    }
    to_text(at[at.len() - 1].as_slice())
}

impl Device {
    /// Builds the device whose directory has the canonical path `dir`.
    fn at(fs: &FileSystem, dir: &Vec<Vec<u8>>) -> (r: Option<Device>)
        ensures
            match r {
                Some(found) => device_at(fs.root, names(dir@)) == Some(found@) && found.well_formed(),
                None => device_at(fs.root, names(dir@)).is_none(),
            },
        decreases dir@.len(),
    {
        let properties = match fs.metadata_of(dir) {
            Some(Some(content)) => parse(content.as_slice()),
            Some(None) => Table::new(),
            None => {
                return None;
            },
        };
        let mut parent: Option<Box<Device>> = None;
        let mut above = copy_names(dir);
        while above.len() > 0
            invariant_except_break
                parent.is_none(),
                device_above(fs.root, names(dir@)) == device_above(fs.root, names(above@)),
            invariant
                above@.len() <= dir@.len(),
            ensures
                match parent {
                    Some(parent) => device_above(fs.root, names(dir@)) == Some(parent@)
                        && parent.well_formed(),
                    None => device_above(fs.root, names(dir@)).is_none(),
                },
            decreases above@.len(),
        {
            let ghost before = names(above@);
            above.pop();
            assert(names(above@) =~= before.drop_last());
            match Device::at(fs, &above) {
                Some(device) => {
                    parent = Some(Box::new(device));
                    break ;
                },
                None => {},
            }
        }
        let devnode = match properties.get("DEVNAME") {
            Some(name) => Some(join("/dev".as_bytes(), name)),
            None => None,
        };
        Some(
            Device {
                system_path: render(dir),
                subsystem: classify(fs, dir, "subsystem".as_bytes()),
                driver: classify(fs, dir, "driver".as_bytes()),
                devnode,
                attributes: collect_attributes(fs, fs.lookup(dir)),
                properties,
                parent,
            },
        )
    }

    /// Builds the device that the written path `path` leads to.
    ///
    /// The path is read from the root of the snapshot and resolved to its
    /// canonical form. Where it leads nowhere, or to a directory without a
    /// metadata file, there is no device: that is the one way to fail.
    pub fn from_syspath(fs: &FileSystem, path: &[u8]) -> (r: Result<Device, Error>)
        ensures
            r.is_ok() <==> (canonical(fs.root, path@) matches Some(dir) && is_device(fs.root, dir)),
            match r {
                Ok(found) => device(fs.root, path@) == Some(found@) && found.well_formed(),
                Err(e) => e == Error::NotFound && device(fs.root, path@).is_none(),
            },
    {
        match fs.canonicalize(path) {
            Some(dir) => match Device::at(fs, &dir) {
                Some(found) => Ok(found),
                None => Err(Error::NotFound),
            },
            None => Err(Error::NotFound),
        }
    }

    /// The nearest device above this one that belongs to the subsystem
    /// `parent_subsystem`.
    pub fn parent_with_subsystem(&self, parent_subsystem: &str) -> (r: Result<
        Option<&Device>,
        Error,
    >)
        ensures
            r matches Ok(found) && viewed(found) == nearest(self@, in_subsystem(parent_subsystem@)),
            self.well_formed() ==> (r matches Ok(Some(found)) ==> found.well_formed()),
    {
        let ghost hit = in_subsystem(parent_subsystem@);
        let mut at: &Device = self;
        loop
            invariant
                hit == in_subsystem(parent_subsystem@),
                self.well_formed() ==> at.well_formed(),
                nearest(self@, hit) == nearest(at@, hit),
            decreases at,
        {
            match &at.parent {
                Some(parent) => {
                    let matches = match &parent.subsystem {
                        Some(name) => str_eq(name.as_str(), parent_subsystem),
                        None => false,
                    };
                    if matches {
                        return Ok(Some(parent));
                    }
                    at = parent;
                },
                None => {
                    return Ok(None);
                },
            }
        }
    }

    /// The nearest device above this one that belongs to the subsystem
    /// `parent_subsystem` and has the type `devtype`.
    pub fn parent_with_subsystem_devtype(&self, parent_subsystem: &str, devtype: &str) -> (r:
        Result<Option<&Device>, Error>)
        ensures
            r matches Ok(found) && viewed(found) == nearest(
                self@,
                in_subsystem_with_type(parent_subsystem@, devtype@),
            ),
            self.well_formed() ==> (r matches Ok(Some(found)) ==> found.well_formed()),
    {
        let ghost hit = in_subsystem_with_type(parent_subsystem@, devtype@);
        let mut at: &Device = self;
        loop
            invariant
                hit == in_subsystem_with_type(parent_subsystem@, devtype@),
                self.well_formed() ==> at.well_formed(),
                nearest(self@, hit) == nearest(at@, hit),
            decreases at,
        {
            match &at.parent {
                Some(parent) => {
                    let in_subsystem = match &parent.subsystem {
                        Some(name) => str_eq(name.as_str(), parent_subsystem),
                        None => false,
                    };
                    let has_type = match parent.property_value("DEVTYPE") {
                        Some(value) => {
                            proof {
                                encode_utf8_valid_utf8(devtype@);
                                encode_utf8_decode_utf8(devtype@);
                                if valid_utf8(value@) {
                                    decode_utf8_encode_utf8(value@);
                                }
                            }
                            bytes_eq(value, devtype.as_bytes())
                        },
                        None => false,
                    };
                    if in_subsystem && has_type {
                        return Ok(Some(parent));
                    }
                    at = parent;
                },
                None => {
                    return Ok(None);
                },
            }
        }
    }

    /// The value of the property `key`.
    pub fn property_value(&self, key: &str) -> (r: Option<&[u8]>)
        ensures
            match r {
                Some(value) => self@.properties.contains_key(key@) && self@.properties[key@]
                    == value@,
                None => !self@.properties.contains_key(key@),
            },
    {
        self.properties.get(key)
    }

    /// The value of the attribute `key`.
    pub fn attribute_value(&self, key: &str) -> (r: Option<&[u8]>)
        ensures
            match r {
                Some(value) => self@.attributes.contains_key(key@) && self@.attributes[key@]
                    == value@,
                None => !self@.attributes.contains_key(key@),
            },
    {
        self.attributes.get(key)
    }

    /// The written path of the device's special file.
    pub fn devnode(&self) -> (r: Option<&[u8]>)
        ensures
            match r {
                Some(path) => self@.devnode == Some(path@),
                None => self@.devnode.is_none(),
            },
    {
        match &self.devnode {
            Some(path) => Some(path.as_slice()),
            None => None,
        }
    }

    /// The written canonical path of the device's directory.
    pub fn syspath(&self) -> (r: &[u8])
        ensures
            r@ == self@.syspath,
    {
        self.system_path.as_slice()
    }
}

} // verus!
