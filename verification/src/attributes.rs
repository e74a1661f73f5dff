//! The attributes of a device: the regular files under its directory.
//!
//! The walk goes down from the device's directory. It passes over links,
//! over anything named like the metadata file or the device-number file, and
//! over every directory that is a device of its own, which is one with a
//! metadata file; it goes into the other directories. Each regular file
//! that it meets and can read is an attribute: its key is its path below the
//! device's directory, where that is text, and its value is its bytes
//! without one newline at the end.

use crate::path::{append_bytes, SEPARATOR};
use crate::properties::NEWLINE;
use crate::table::Table;
use crate::text::{bytes_eq, text_of, to_text};
use crate::tree::{
    child, find_child, followed, held, is_device, lemma_lookup_below, lookup, metadata,
    metadata_name, Entry, FileSystem, Node,
};
use vstd::prelude::*;
use vstd::slice::*;
use vstd::string::*;

verus! {

/// The name of the file that holds a device's number.
pub open spec fn number_name() -> Seq<u8> {
    "dev".spec_bytes()
}

/// Tells whether the walk passes over everything with this name.
pub open spec fn passed_over(name: Seq<u8>) -> bool {
    name == metadata_name() || name == number_name()
}

/// A file's bytes as an attribute value: without the newline at their end,
/// if there is one.
pub open spec fn stripped(content: Seq<u8>) -> Seq<u8> {
    if content.len() > 0 && content.last() == NEWLINE {
        content.drop_last()
    } else {
        content
    }
}

/// Tells whether a directory with these entries is a device of its own:
/// whether it has a metadata file that is a regular file, links followed.
pub open spec fn nested_device(root: Node, entries: Seq<Entry>) -> bool {
    followed(root, child(entries, metadata_name())) matches Some(Node::File(_))
}

/// The attributes `known` with those added that the walk finds at `entry`,
/// an entry of the directory whose path below the device is `prefix`.
pub open spec fn visit(
    root: Node,
    entry: Entry,
    prefix: Seq<u8>,
    known: Map<Seq<char>, Seq<u8>>,
) -> Map<Seq<char>, Seq<u8>>
    decreases entry,
{
    let path = prefix + entry.name@;
    if passed_over(entry.name@) {
        known
    } else {
        match entry.node {
            Node::Directory(below) => if nested_device(root, below@) {
                known
            } else {
                gather(root, below@, path + seq![SEPARATOR], known)
            },
            Node::File(Some(content)) => match text_of(path) {
                Some(key) => known.insert(key, stripped(content@)),
                None => known,
            },
            _ => known,
        }
    }
}

/// The attributes `known` with those added that the walk finds at
/// `entries`, one entry after the other.
pub open spec fn gather(
    root: Node,
    entries: Seq<Entry>,
    prefix: Seq<u8>,
    known: Map<Seq<char>, Seq<u8>>,
) -> Map<Seq<char>, Seq<u8>>
    decreases entries,
{
    if entries.len() == 0 {
        known
    } else {
        visit(root, entries.last(), prefix, gather(root, entries.drop_last(), prefix, known))
    }
}

/// The attributes of the device whose directory is `node`.
pub open spec fn attributes(root: Node, node: Option<Node>) -> Map<Seq<char>, Seq<u8>> {
    match node {
        Some(Node::Directory(entries)) => gather(root, entries@, Seq::empty(), Map::empty()),
        _ => Map::empty(),
    }
}

/// Tells whether an entry is a link.
pub open spec fn is_link(entry: Entry) -> bool {
    entry.node is Symlink
}

/// Tells whether an entry is a directory that is a device of its own: one
/// that holds a metadata file.
pub open spec fn is_nested_device(root: Node, entry: Entry) -> bool {
    match entry.node {
        Node::Directory(below) => nested_device(root, below@),
        _ => false,
    }
}

/// The condition of being no link.
pub open spec fn no_link() -> spec_fn(Entry) -> bool {
    |e: Entry| !is_link(e)
}

/// The condition of being no device of its own.
pub open spec fn no_nested_device(root: Node) -> spec_fn(Entry) -> bool {
    |e: Entry| !is_nested_device(root, e)
}

/// Tells whether the walk finds the attribute `key` with the value `value`
/// at `entry`, an entry of the directory whose path below the device is
/// `prefix`: whether `entry` is a readable regular file whose path is `key`
/// and whose bytes make `value`, or a directory, no device of its own, in
/// which the walk finds such an attribute. Nothing is found at or below a
/// name that the walk passes over, and nothing at a link.
pub open spec fn found_in(
    root: Node,
    entry: Entry,
    prefix: Seq<u8>,
    key: Seq<char>,
    value: Seq<u8>,
) -> bool
    decreases entry,
{
    let path = prefix + entry.name@;
    !passed_over(entry.name@) && match entry.node {
        Node::Directory(below) => !nested_device(root, below@) && found_at(
            root,
            below@,
            path + seq![SEPARATOR],
            key,
            value,
        ),
        Node::File(Some(content)) => text_of(path) == Some(key) && stripped(content@) == value,
        _ => false,
    }
}

/// Tells whether the walk finds the attribute `key` with the value `value`
/// at one of `entries`.
pub open spec fn found_at(
    root: Node,
    entries: Seq<Entry>,
    prefix: Seq<u8>,
    key: Seq<char>,
    value: Seq<u8>,
) -> bool
    decreases entries,
{
    entries.len() > 0 && (found_in(root, entries.last(), prefix, key, value) || found_at(
        root,
        entries.drop_last(),
        prefix,
        key,
        value,
    ))
}

/// The walk and the building of devices agree on what a device is: a
/// directory of the tree is a device of its own for the walk exactly where
/// it is a device.
pub proof fn lemma_nested_device_is_device(root: Node, dir: Seq<Seq<u8>>, entries: Vec<Entry>)
    requires
        lookup(root, dir) == Some(Node::Directory(entries)),
    ensures
        nested_device(root, entries@) == is_device(root, dir),
{
    lemma_lookup_below(root, dir, metadata_name());
}

/// The walk adds nothing at a link.
pub proof fn lemma_link_gives_no_attribute(
    root: Node,
    entry: Entry,
    prefix: Seq<u8>,
    known: Map<Seq<char>, Seq<u8>>,
)
    requires
        is_link(entry),
    ensures
        visit(root, entry, prefix, known) == known,
        forall|key: Seq<char>, value: Seq<u8>| !found_in(root, entry, prefix, key, value),
{
}

/// The walk adds nothing at a directory that is a device of its own, and a
/// directory that holds a regular file under the metadata file's name is
/// one.
pub proof fn lemma_nested_device_gives_no_attribute(
    root: Node,
    entry: Entry,
    prefix: Seq<u8>,
    known: Map<Seq<char>, Seq<u8>>,
)
    ensures
        is_nested_device(root, entry) ==> visit(root, entry, prefix, known) == known,
        is_nested_device(root, entry) ==> forall|key: Seq<char>, value: Seq<u8>|
            !found_in(root, entry, prefix, key, value),
        (entry.node matches Node::Directory(below) && child(below@, metadata_name()) matches Some(
            Node::File(_),
        )) ==> is_nested_device(root, entry),
{
}

/// Entries at which the walk adds nothing can be left out.
proof fn lemma_gather_filtered(
    root: Node,
    entries: Seq<Entry>,
    prefix: Seq<u8>,
    known: Map<Seq<char>, Seq<u8>>,
    keep: spec_fn(Entry) -> bool,
)
    requires
        forall|e: Entry| !#[trigger] keep(e) ==> is_link(e) || is_nested_device(root, e),
    ensures
        gather(root, entries, prefix, known) == gather(root, entries.filter(keep), prefix, known),
    decreases entries.len(),
{
    reveal(Seq::filter);
    if entries.len() > 0 {
        let front = entries.drop_last();
        let last = entries.last();
        lemma_gather_filtered(root, front, prefix, known, keep);
        let kept = front.filter(keep);
        if keep(last) {
            assert(entries.filter(keep) == kept.push(last));
            assert(kept.push(last).drop_last() =~= kept);
            assert(kept.push(last).last() == last);
        } else {
            assert(entries.filter(keep) == kept);
            assert(is_link(last) || is_nested_device(root, last));
            assert(visit(root, last, prefix, gather(root, front, prefix, known)) == gather(
                root,
                front,
                prefix,
                known,
            ));
        }
    }
}

/// The attributes found in a directory are those found in it with its links
/// left out: no link is an attribute, whatever it leads to.
pub proof fn lemma_links_give_no_attributes(
    root: Node,
    entries: Seq<Entry>,
    prefix: Seq<u8>,
    known: Map<Seq<char>, Seq<u8>>,
)
    ensures
        gather(root, entries, prefix, known) == gather(
            root,
            entries.filter(no_link()),
            prefix,
            known,
        ),
{
    lemma_gather_filtered(root, entries, prefix, known, no_link());
}

/// The attributes found in a directory are those found in it with the
/// directories left out that are devices of their own: nothing below such a
/// directory is an attribute.
pub proof fn lemma_nested_devices_give_no_attributes(
    root: Node,
    entries: Seq<Entry>,
    prefix: Seq<u8>,
    known: Map<Seq<char>, Seq<u8>>,
)
    ensures
        gather(root, entries, prefix, known) == gather(
            root,
            entries.filter(no_nested_device(root)),
            prefix,
            known,
        ),
{
    lemma_gather_filtered(root, entries, prefix, known, no_nested_device(root));
}

/// An attribute is found at one of some entries where it is found at an
/// entry among them.
pub proof fn lemma_found_at(
    root: Node,
    entries: Seq<Entry>,
    prefix: Seq<u8>,
    key: Seq<char>,
    value: Seq<u8>,
)
    ensures
        found_at(root, entries, prefix, key, value) <==> exists|i: int|
            0 <= i < entries.len() && #[trigger] found_in(root, entries[i], prefix, key, value),
    decreases entries.len(),
{
    if entries.len() > 0 {
        let front = entries.drop_last();
        lemma_found_at(root, front, prefix, key, value);
        if found_at(root, front, prefix, key, value) {
            let i = choose|i: int|
                0 <= i < front.len() && #[trigger] found_in(root, front[i], prefix, key, value);
            assert(found_in(root, entries[i], prefix, key, value));
        }
        if found_in(root, entries.last(), prefix, key, value) {
            assert(found_in(root, entries[entries.len() - 1], prefix, key, value));
        }
        if exists|i: int|
            0 <= i < entries.len() && #[trigger] found_in(root, entries[i], prefix, key, value) {
            let i = choose|i: int|
                0 <= i < entries.len() && #[trigger] found_in(root, entries[i], prefix, key, value);
            if i < front.len() {
                assert(found_in(root, front[i], prefix, key, value));
            }
        }
    }
}

/// What a visit leaves: every attribute after it was there before or is
/// found at the entry; every key that was there before is still there; and
/// every attribute found at the entry has its key there.
pub proof fn lemma_visit_finds(
    root: Node,
    entry: Entry,
    prefix: Seq<u8>,
    known: Map<Seq<char>, Seq<u8>>,
    key: Seq<char>,
    value: Seq<u8>,
)
    ensures
        visit(root, entry, prefix, known).contains_pair(key, value) ==> known.contains_pair(
            key,
            value,
        ) || found_in(root, entry, prefix, key, value),
        known.contains_key(key) ==> visit(root, entry, prefix, known).contains_key(key),
        found_in(root, entry, prefix, key, value) ==> visit(
            root,
            entry,
            prefix,
            known,
        ).contains_key(key),
    decreases entry,
{
    match entry.node {
        Node::Directory(below) => {
            if !passed_over(entry.name@) && !nested_device(root, below@) {
                lemma_gather_finds(
                    root,
                    below@,
                    prefix + entry.name@ + seq![SEPARATOR],
                    known,
                    key,
                    value,
                );
            }
        },
        _ => {},
    }
}

/// What the walk over a directory leaves: every attribute after it was there
/// before or is found at one of the entries; every key that was there
/// before is still there; and every attribute found at one of the entries
/// has its key there.
pub proof fn lemma_gather_finds(
    root: Node,
    entries: Seq<Entry>,
    prefix: Seq<u8>,
    known: Map<Seq<char>, Seq<u8>>,
    key: Seq<char>,
    value: Seq<u8>,
)
    ensures
        gather(root, entries, prefix, known).contains_pair(key, value) ==> known.contains_pair(
            key,
            value,
        ) || found_at(root, entries, prefix, key, value),
        known.contains_key(key) ==> gather(root, entries, prefix, known).contains_key(key),
        found_at(root, entries, prefix, key, value) ==> gather(
            root,
            entries,
            prefix,
            known,
        ).contains_key(key),
    decreases entries,
{
    if entries.len() > 0 {
        let front = entries.drop_last();
        lemma_gather_finds(root, front, prefix, known, key, value);
        let before = gather(root, front, prefix, known);
        lemma_visit_finds(root, entries.last(), prefix, before, key, value);
    }
}

/// The attributes of a device are attributes that the walk finds at the
/// entries of its directory: each is a readable regular file, reached
/// through directories that are no devices of their own, with its path below
/// the device as the key and its bytes, without one newline at their end,
/// as the value. Every attribute that the walk finds has its key among the
/// device's attributes.
pub proof fn lemma_attributes_are_found(
    root: Node,
    node: Option<Node>,
    key: Seq<char>,
    value: Seq<u8>,
)
    ensures
        attributes(root, node).contains_pair(key, value) ==> (node matches Some(
            Node::Directory(entries),
        ) && found_at(root, entries@, Seq::empty(), key, value)),
        (node matches Some(Node::Directory(entries)) && found_at(
            root,
            entries@,
            Seq::empty(),
            key,
            value,
        )) ==> attributes(root, node).contains_key(key),
{
    match node {
        Some(Node::Directory(entries)) => {
            lemma_gather_finds(root, entries@, Seq::empty(), Map::empty(), key, value);
        },
        _ => {},
    }
}

/// Where every attribute that the walk finds under `key` has the value
/// `value`, the device has that attribute exactly where the walk finds it.
/// So in a tree where no path stands for two files, the attributes of a
/// device are exactly those that the walk finds.
pub proof fn lemma_one_file_gives_each_attribute(
    root: Node,
    node: Option<Node>,
    key: Seq<char>,
    value: Seq<u8>,
)
    requires
        node matches Some(Node::Directory(entries)) ==> forall|other: Seq<u8>|
            found_at(root, entries@, Seq::empty(), key, other) ==> other == value,
    ensures
        attributes(root, node).contains_pair(key, value) <==> (node matches Some(
            Node::Directory(entries),
        ) && found_at(root, entries@, Seq::empty(), key, value)),
{
    lemma_attributes_are_found(root, node, key, value);
    if attributes(root, node).contains_key(key) {
        lemma_attributes_are_found(root, node, key, attributes(root, node)[key]);
    }
}

/// The name of the file that holds a device's number.
pub fn number() -> (r: &'static [u8])
    ensures
        r@ == number_name(),
{
    "dev".as_bytes()
}

/// Makes an attribute value of a file's bytes.
pub fn strip(content: &[u8]) -> (r: Vec<u8>)
    ensures
        r@ == stripped(content@),
{
    let n = content.len();
    if n > 0 && content[n - 1] == NEWLINE {
        slice_to_vec(slice_subrange(content, 0, n - 1))
    } else {
        slice_to_vec(content)
    }
}

/// Adds to `attrs` the attributes that the walk finds at `entry`, an entry
/// of the directory whose path below the device is `prefix`.
pub fn visit_entry(fs: &FileSystem, entry: &Entry, prefix: &[u8], attrs: &mut Table)
    ensures
        final(attrs)@ == visit(fs.root, *entry, prefix@, old(attrs)@),
        old(attrs).distinct() ==> final(attrs).distinct(),
    decreases entry,
{
    let name = entry.name.as_slice();
    if bytes_eq(name, metadata()) || bytes_eq(name, number()) {
        return ;
    }
    let mut path: Vec<u8> = Vec::new();
    append_bytes(&mut path, prefix);
    append_bytes(&mut path, name);
    assert(path@ =~= prefix@ + entry.name@);
    match &entry.node {
        Node::Directory(below) => {
            let nested = match fs.follow(find_child(below, metadata())) {
                Some(Node::File(_)) => true,
                _ => false,
            };
            if !nested {
                path.push(SEPARATOR);
                assert(path@ =~= prefix@ + entry.name@ + seq![SEPARATOR]);
                collect(fs, below, path.as_slice(), attrs);
            }
        },
        Node::File(Some(content)) => {
            match to_text(path.as_slice()) {
                Some(key) => {
                    attrs.insert(key, strip(content.as_slice()));
                },
                None => {},
            }
        },
        _ => {},
    }
}

/// Adds to `attrs` the attributes that the walk finds at `entries`, the
/// entries of the directory whose path below the device is `prefix`.
pub fn collect(fs: &FileSystem, entries: &Vec<Entry>, prefix: &[u8], attrs: &mut Table)
    ensures
        final(attrs)@ == gather(fs.root, entries@, prefix@, old(attrs)@),
        old(attrs).distinct() ==> final(attrs).distinct(),
    decreases entries,
{
    let mut i: usize = 0;
    assert(entries@.take(0) =~= Seq::<Entry>::empty());
    while i < entries.len()
        invariant
            i <= entries@.len(),
            old(attrs).distinct() ==> attrs.distinct(),
            attrs@ == gather(fs.root, entries@.take(i as int), prefix@, old(attrs)@),
        decreases entries@.len() - i,
    {
        let ghost next = entries@.take(i + 1);
        assert(next.drop_last() =~= entries@.take(i as int));
        assert(next.last() == entries@[i as int]);
        visit_entry(fs, &entries[i], prefix, attrs);
        i += 1;
    }
    assert(entries@.take(i as int) =~= entries@);
}

/// The attributes of the device whose directory is `node`.
pub fn collect_attributes(fs: &FileSystem, node: Option<&Node>) -> (r: Table)
    ensures
        r@ == attributes(fs.root, held(node)),
        r.distinct(),
{
    let mut attrs = Table::new();
    match node {
        Some(Node::Directory(entries)) => {
            let prefix: Vec<u8> = Vec::new();
            collect(fs, entries, prefix.as_slice(), &mut attrs);
        },
        _ => {},
    }
    attrs
}

} // verus!
