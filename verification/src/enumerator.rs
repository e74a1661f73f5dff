//! Listing the devices of a subsystem.
//!
//! The devices of a subsystem are listed in one directory of the tree, as
//! directories or as links to them. A scan builds the device of each entry
//! and leaves out the entries that are no device.

use crate::device::{device, text, Device, DeviceView};
use crate::error::Error;
use crate::path::{join, joined};
use crate::tree::{canonical, lookup, Entry, FileSystem, Node};
use vstd::prelude::*;
use vstd::string::*;
use vstd::utf8::encode_utf8;

verus! {

/// Lists the devices of one subsystem.
#[derive(Debug)]
pub struct Enumerator {
    subsystem: Option<String>,
}

/// The written path of the directory that holds the device tree.
pub open spec fn device_root() -> Seq<u8> {
    "/sys".spec_bytes()
}

/// The name of the directory, under the device root, that holds one
/// directory for each subsystem.
pub open spec fn class_name() -> Seq<u8> {
    "class".spec_bytes()
}

/// The written path of the directory that lists the devices of `subsystem`:
/// the device root joined with the class directory and the subsystem.
pub open spec fn class_dir(subsystem: Seq<char>) -> Seq<u8> {
    joined(joined(device_root(), class_name()), encode_utf8(subsystem))
}

/// The entries of the directory that the written path `path` leads to.
pub open spec fn listing(root: Node, path: Seq<u8>) -> Result<Seq<Entry>, Error> {
    match canonical(root, path) {
        Some(dir) => match lookup(root, dir) {
            Some(Node::Directory(entries)) => Ok(entries@),
            Some(_) => Err(Error::NotADirectory),
            None => Err(Error::NotFound),
        },
        None => Err(Error::NotFound),
    }
}

/// The devices among `entries`, the entries of the directory written
/// `dir`, in the order of the entries: for each entry the device that the
/// directory's path joined with its name leads to, where there is one.
pub open spec fn devices_in(root: Node, dir: Seq<u8>, entries: Seq<Entry>) -> Seq<DeviceView>
    decreases entries.len(),
{
    if entries.len() == 0 {
        Seq::empty()
    } else {
        let before = devices_in(root, dir, entries.drop_last());
        match device(root, joined(dir, entries.last().name@)) {
            Some(found) => before.push(found),
            None => before,
        }
    }
}

/// The devices of `subsystem`.
pub open spec fn scan(root: Node, subsystem: Seq<char>) -> Result<Seq<DeviceView>, Error> {
    match listing(root, class_dir(subsystem)) {
        Ok(entries) => Ok(devices_in(root, class_dir(subsystem), entries)),
        Err(e) => Err(e),
    }
}

/// The views of a list of devices.
pub open spec fn views(devices: Seq<Device>) -> Seq<DeviceView> {
    Seq::new(devices.len(), |i: int| devices[i]@)
}

/// The condition of being, in the directory written `dir`, an entry that
/// leads to a device.
pub open spec fn leads_to_device(root: Node, dir: Seq<u8>) -> spec_fn(Entry) -> bool {
    |e: Entry| device(root, joined(dir, e.name@)).is_some()
}

/// A scan yields as many devices as the directory has entries that lead to
/// one: no entry is counted twice, and none that leads to no device is
/// counted at all.
pub proof fn lemma_scan_counts_devices(root: Node, dir: Seq<u8>, entries: Seq<Entry>)
    ensures
        devices_in(root, dir, entries).len() == entries.filter(leads_to_device(root, dir)).len(),
    decreases entries.len(),
{
    reveal(Seq::filter);
    if entries.len() > 0 {
        lemma_scan_counts_devices(root, dir, entries.drop_last());
    }
}

/// Writes the path of the directory that lists the devices of `subsystem`.
pub fn class_path(subsystem: &str) -> (r: Vec<u8>)
    ensures
        r@ == class_dir(subsystem@),
{
    let classes = join("/sys".as_bytes(), "class".as_bytes());
    join(classes.as_slice(), subsystem.as_bytes())
}

impl Enumerator {
    /// The subsystem whose devices a scan lists, once it is set.
    pub closed spec fn filter(&self) -> Option<Seq<char>> {
        text(self.subsystem)
    }

    /// The subsystem whose devices a scan lists, once it is set.
    pub fn subsystem(&self) -> (r: Option<&str>)
        ensures
            match r {
                Some(name) => self.filter() == Some(name@),
                None => self.filter().is_none(),
            },
    {
        match &self.subsystem {
            Some(name) => Some(name.as_str()),
            None => None,
        }
    }

    /// An enumerator with no subsystem set.
    pub fn new() -> (r: Result<Enumerator, Error>)
        ensures
            r matches Ok(e) && e.filter().is_none(),
    {
        Ok(Enumerator { subsystem: None })
    }

    /// Sets the subsystem whose devices a scan lists. The one set before,
    /// if any, is forgotten.
    pub fn match_subsystem(&mut self, subsystem: &str) -> (r: Result<(), Error>)
        ensures
            r.is_ok(),
            final(self).filter() == Some(subsystem@),
    {
        self.subsystem = Some(subsystem.to_owned());
        Ok(())
    }

    /// Lists the devices of the subsystem that was set, in the order in
    /// which their directory lists them. An entry that is no device is left
    /// out.
    pub fn scan_devices(&self, fs: &FileSystem) -> (r: Result<Vec<Device>, Error>)
        requires
            self.filter().is_some(),
        ensures
            match r {
                Ok(devices) => scan(fs.root, self.filter().unwrap()) == Ok::<
                    Seq<DeviceView>,
                    Error,
                >(views(devices@)) && forall|i: int|
                    0 <= i < devices@.len() ==> (#[trigger] devices@[i]).well_formed(),
                Err(e) => scan(fs.root, self.filter().unwrap()) == Err::<Seq<DeviceView>, Error>(e),
            },
    {
        let subsystem = match &self.subsystem {
            Some(subsystem) => subsystem.as_str(),
            None => unreached(),
        };
        let dir = class_path(subsystem);
        let entries = match fs.canonicalize(dir.as_slice()) {
            Some(at) => match fs.lookup(&at) {
                Some(Node::Directory(entries)) => entries,
                Some(_) => {
                    return Err(Error::NotADirectory);
                },
                None => {
                    return Err(Error::NotFound);
                },
            },
            None => {
                return Err(Error::NotFound);
            },
        };
        let mut devices: Vec<Device> = Vec::new();
        let mut i: usize = 0;
        assert(entries@.take(0) =~= Seq::<Entry>::empty());
        assert(views(devices@) =~= Seq::<DeviceView>::empty());
        while i < entries.len()
            invariant
                i <= entries@.len(),
                forall|j: int| 0 <= j < devices@.len() ==> (#[trigger] devices@[j]).well_formed(),
                views(devices@) == devices_in(fs.root, dir@, entries@.take(i as int)),
            decreases entries@.len() - i,
        {
            let ghost next = entries@.take(i + 1);
            let ghost before = views(devices@);
            assert(next.drop_last() =~= entries@.take(i as int));
            assert(next.last() == entries@[i as int]);
            let path = join(dir.as_slice(), entries[i].name.as_slice());
            match Device::from_syspath(fs, path.as_slice()) {
                Ok(found) => {
                    devices.push(found);
                    assert(views(devices@) =~= before.push(found@));
                },
                Err(_) => {},
            }
            i += 1;
        }
        assert(entries@.take(i as int) =~= entries@);
        Ok(devices)
    }
}

} // verus!
