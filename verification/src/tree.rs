//! A snapshot of a directory tree.
//!
//! The snapshot holds what a walk over the tree reads: the names in each
//! directory, the bytes of each file, and for each symbolic link the
//! canonical path that it resolves to. Nothing in it is followed or read
//! again later, so every question about it has one answer.

use crate::path::{
    absolute, all_plain, components, copy_names, lemma_components_are_plain,
    lemma_written_path_splits_back, names, plain, split,
};
use crate::search::{first, lemma_first_unique};
use crate::text::bytes_eq;
use vstd::prelude::*;
use vstd::slice::*;
use vstd::string::*;

verus! {

/// What stands under one name in a directory.
#[derive(Debug)]
pub enum Node {
    /// A directory, with its entries in listing order.
    Directory(Vec<Entry>),
    /// A regular file with its bytes, or `None` where it cannot be read.
    File(Option<Vec<u8>>),
    /// A symbolic link with the written canonical path of what it resolves
    /// to, or `None` where it does not resolve.
    Symlink(Option<Vec<u8>>),
    /// Anything else: it exists, and is neither file, directory nor link.
    Other,
}

/// One entry of a directory.
#[derive(Debug)]
pub struct Entry {
    pub name: Vec<u8>,
    pub node: Node,
}

/// A snapshot of the whole tree, from its root directory down.
#[derive(Debug)]
pub struct FileSystem {
    pub root: Node,
}

/// The name of the metadata file that marks a directory as a device.
pub open spec fn metadata_name() -> Seq<u8> {
    "uevent".spec_bytes()
}

/// The name that stands for the directory itself.
pub open spec fn here_name() -> Seq<u8> {
    ".".spec_bytes()
}

/// The name that stands for the directory above.
pub open spec fn up_name() -> Seq<u8> {
    "..".spec_bytes()
}

/// The condition of having the name `name`.
pub open spec fn named(name: Seq<u8>) -> spec_fn(Entry) -> bool {
    |e: Entry| e.name@ == name
}

/// The node under `name` among `entries`: that of the first entry with this
/// name.
pub open spec fn child(entries: Seq<Entry>, name: Seq<u8>) -> Option<Node> {
    let i = first(entries, named(name));
    if 0 <= i < entries.len() {
        Some(entries[i].node)
    } else {
        None
    }
}

/// The node reached from `node` by going down through the names of `path`.
/// No link is followed: only a directory has anything below it.
pub open spec fn lookup(node: Node, path: Seq<Seq<u8>>) -> Option<Node>
    decreases path.len(),
{
    if path.len() == 0 {
        Some(node)
    } else {
        match node {
            Node::Directory(entries) => match child(entries@, path[0]) {
                Some(below) => lookup(below, path.drop_first()),
                None => None,
            },
            _ => None,
        }
    }
}

/// What `found` stands for once a link is followed: the node at the link's
/// target, nothing for a link that does not resolve, and `found` itself
/// otherwise.
pub open spec fn followed(root: Node, found: Option<Node>) -> Option<Node> {
    match found {
        Some(Node::Symlink(Some(target))) => lookup(root, components(target@)),
        Some(Node::Symlink(None)) => None,
        _ => found,
    }
}

/// The regular file that is the metadata file of the directory `dir`, links
/// followed, if there is one.
pub open spec fn metadata_file(root: Node, dir: Seq<Seq<u8>>) -> Option<Node> {
    match followed(root, lookup(root, dir.push(metadata_name()))) {
        Some(Node::File(content)) => Some(Node::File(content)),
        _ => None,
    }
}

/// Tells whether the directory `dir` is a device: whether it has a metadata
/// file that is a regular file.
pub open spec fn is_device(root: Node, dir: Seq<Seq<u8>>) -> bool {
    metadata_file(root, dir).is_some()
}

/// Where one more name leads from the canonical path `at`. The names for
/// the directory itself and the one above are taken as such; a link leads to
/// its target; a name that is not there, or a link that does not resolve,
/// leads nowhere.
pub open spec fn step(root: Node, at: Seq<Seq<u8>>, name: Seq<u8>) -> Option<Seq<Seq<u8>>> {
    if name == here_name() {
        Some(at)
    } else if name == up_name() {
        Some(
            if at.len() > 0 {
                at.drop_last()
            } else {
                at
            },
        )
    } else {
        match lookup(root, at.push(name)) {
            Some(Node::Symlink(Some(target))) => Some(components(target@)),
            Some(Node::Symlink(None)) => None,
            Some(_) => Some(at.push(name)),
            None => None,
        }
    }
}

/// Where the names `rest` lead from the canonical path `at`.
pub open spec fn resolve(root: Node, at: Seq<Seq<u8>>, rest: Seq<Seq<u8>>) -> Option<
    Seq<Seq<u8>>,
>
    decreases rest.len(),
{
    if rest.len() == 0 {
        Some(at)
    } else {
        match step(root, at, rest[0]) {
            Some(next) => resolve(root, next, rest.drop_first()),
            None => None,
        }
    }
}

/// The canonical form of a written path, read from the root: the names of
/// the place it leads to, with every link on the way resolved.
pub open spec fn canonical(root: Node, path: Seq<u8>) -> Option<Seq<Seq<u8>>> {
    resolve(root, Seq::empty(), components(path))
}

/// The node that a reference points at, if there is one.
pub open spec fn held(r: Option<&Node>) -> Option<Node> {
    match r {
        Some(node) => Some(*node),
        None => None,
    }
}

/// Tells whether `name` names an entry: whether it can stand in a written
/// path and is neither the name for the directory itself nor the name for
/// the one above.
pub open spec fn proper(name: Seq<u8>) -> bool {
    plain(name) && name != here_name() && name != up_name()
}

/// Tells whether every name of `path` names an entry.
pub open spec fn all_proper(path: Seq<Seq<u8>>) -> bool {
    forall|i: int| 0 <= i < path.len() ==> proper(#[trigger] path[i])
}

/// What stands under a name in the directory at `path` is what the path
/// with that name added leads to.
pub proof fn lemma_lookup_below(node: Node, path: Seq<Seq<u8>>, name: Seq<u8>)
    ensures
        lookup(node, path.push(name)) == match lookup(node, path) {
            Some(Node::Directory(entries)) => child(entries@, name),
            _ => None,
        },
    decreases path.len(),
{
    let longer = path.push(name);
    if path.len() == 0 {
        reveal_with_fuel(lookup, 2);
        assert(longer.drop_first() =~= Seq::<Seq<u8>>::empty());
    } else {
        assert(longer[0] == path[0]);
        assert(longer.drop_first() =~= path.drop_first().push(name));
        match node {
            Node::Directory(entries) => match child(entries@, path[0]) {
                Some(below) => {
                    lemma_lookup_below(below, path.drop_first(), name);
                },
                None => {},
            },
            _ => {},
        }
    }
}

/// Above anything that is found there are directories only.
pub proof fn lemma_directories_above(node: Node, path: Seq<Seq<u8>>, k: int)
    requires
        lookup(node, path).is_some(),
        0 <= k < path.len(),
    ensures
        lookup(node, path.take(k)) matches Some(Node::Directory(_)),
    decreases path.len(),
{
    if k > 0 {
        match node {
            Node::Directory(entries) => {
                let below = child(entries@, path[0]).unwrap();
                lemma_directories_above(below, path.drop_first(), k - 1);
                assert(path.take(k).drop_first() =~= path.drop_first().take(k - 1));
            },
            _ => {},
        }
    }
}

/// Names that lead, through directories, to something that is no link lead
/// there when resolved too.
proof fn lemma_resolve_without_links(root: Node, at: Seq<Seq<u8>>, rest: Seq<Seq<u8>>)
    requires
        all_proper(rest),
        lookup(root, at + rest) matches Some(found) && !(found is Symlink),
    ensures
        resolve(root, at, rest) == Some(at + rest),
    decreases rest.len(),
{
    let whole = at + rest;
    if rest.len() == 0 {
        assert(whole =~= at);
    } else {
        let next = at.push(rest[0]);
        assert(proper(rest[0]));
        assert(whole.take(at.len() as int + 1) =~= next);
        if rest.len() > 1 {
            lemma_directories_above(root, whole, at.len() as int + 1);
        } else {
            assert(whole =~= next);
        }
        assert(step(root, at, rest[0]) == Some(next));
        assert(next + rest.drop_first() =~= whole);
        assert(all_proper(rest.drop_first())) by {
            assert forall|i: int| 0 <= i < rest.drop_first().len() implies proper(
                #[trigger] rest.drop_first()[i],
            ) by {
                assert(rest.drop_first()[i] == rest[i + 1]);
            }
        }
        lemma_resolve_without_links(root, next, rest.drop_first());
    }
}

/// Resolving goes from names that can stand in a written path to names
/// that can.
proof fn lemma_resolve_is_plain(root: Node, at: Seq<Seq<u8>>, rest: Seq<Seq<u8>>)
    requires
        all_plain(at),
        all_plain(rest),
    ensures
        resolve(root, at, rest) matches Some(end) ==> all_plain(end),
    decreases rest.len(),
{
    if rest.len() > 0 {
        assert(plain(rest[0]));
        match step(root, at, rest[0]) {
            Some(next) => {
                assert(all_plain(next)) by {
                    match lookup(root, at.push(rest[0])) {
                        Some(Node::Symlink(Some(target))) => {
                            lemma_components_are_plain(target@);
                        },
                        _ => {},
                    }
                    assert forall|i: int| 0 <= i < next.len() implies plain(#[trigger] next[i]) by {
                        if next == at.push(rest[0]) {
                            if i < at.len() {
                                assert(next[i] == at[i]);
                            }
                        } else if at.len() > 0 && next == at.drop_last() {
                            assert(next[i] == at[i]);
                        }
                    }
                }
                assert(all_plain(rest.drop_first())) by {
                    assert forall|i: int| 0 <= i < rest.drop_first().len() implies plain(
                        #[trigger] rest.drop_first()[i],
                    ) by {
                        assert(rest.drop_first()[i] == rest[i + 1]);
                    }
                }
                lemma_resolve_is_plain(root, next, rest.drop_first());
            },
            None => {},
        }
    }
}

/// The names of a canonical path can all stand in a written path, so that
/// the written form of a canonical path splits back into its names.
pub proof fn lemma_canonical_is_plain(root: Node, path: Seq<u8>)
    ensures
        canonical(root, path) matches Some(dir) ==> all_plain(dir) && components(absolute(dir))
            == dir,
{
    lemma_components_are_plain(path);
    lemma_resolve_is_plain(root, Seq::empty(), components(path));
    match canonical(root, path) {
        Some(dir) => {
            lemma_written_path_splits_back(dir);
        },
        None => {},
    }
}

/// The written form of a path to something that is no link, by names that
/// name entries, is canonical: it resolves to that path.
pub proof fn lemma_canonical_of_written(root: Node, path: Seq<Seq<u8>>)
    requires
        all_proper(path),
        lookup(root, path) matches Some(found) && !(found is Symlink),
    ensures
        canonical(root, absolute(path)) == Some(path),
{
    assert(all_plain(path)) by {
        assert forall|i: int| 0 <= i < path.len() implies plain(#[trigger] path[i]) by {
            assert(proper(path[i]));
        }
    }
    lemma_written_path_splits_back(path);
    assert(Seq::<Seq<u8>>::empty() + path =~= path);
    lemma_resolve_without_links(root, Seq::empty(), path);
}

/// The name of the metadata file.
pub fn metadata() -> (r: &'static [u8])
    ensures
        r@ == metadata_name(),
{
    "uevent".as_bytes()
}

/// Finds the node under `name` among `entries`.
pub fn find_child<'a>(entries: &'a Vec<Entry>, name: &[u8]) -> (r: Option<&'a Node>)
    ensures
        held(r) == child(entries@, name@),
{
    let mut i: usize = 0;
    while i < entries.len() && !bytes_eq(entries[i].name.as_slice(), name)
        invariant
            i <= entries@.len(),
            forall|j: int| 0 <= j < i ==> !named(name@)(#[trigger] entries@[j]),
        decreases entries@.len() - i,
    {
        i += 1;
    }
    proof {
        lemma_first_unique(entries@, named(name@), i as int);
    }
    if i < entries.len() {
        Some(&entries[i].node)
    } else {
        None
    }
}

impl FileSystem {
    /// A snapshot with the given root.
    pub fn new(root: Node) -> (r: FileSystem)
        ensures
            r.root == root,
    {
        FileSystem { root }
    }

    /// Goes down from the root through the names of `path`, following no
    /// link.
    pub fn lookup<'a>(&'a self, path: &Vec<Vec<u8>>) -> (r: Option<&'a Node>)
        ensures
            held(r) == lookup(self.root, names(path@)),
    {
        let mut at: &Node = &self.root;
        let mut i: usize = 0;
        assert(names(path@).skip(0) =~= names(path@));
        while i < path.len()
            invariant
                i <= path@.len(),
                lookup(self.root, names(path@)) == lookup(*at, names(path@).skip(i as int)),
            decreases path@.len() - i,
        {
            let ghost rest = names(path@).skip(i as int);
            assert(rest[0] == path@[i as int]@);
            assert(rest.drop_first() =~= names(path@).skip(i + 1));
            match at {
                Node::Directory(entries) => {
                    match find_child(entries, path[i].as_slice()) {
                        Some(below) => {
                            at = below;
                        },
                        None => {
                            return None;
                        },
                    }
                },
                _ => {
                    return None;
                },
            }
            i += 1;
        }
        Some(at)
    }

    /// Follows `found` if it is a link.
    pub fn follow<'a>(&'a self, found: Option<&'a Node>) -> (r: Option<&'a Node>)
        ensures
            held(r) == followed(self.root, held(found)),
    {
        match found {
            Some(Node::Symlink(Some(target))) => {
                let path = split(target.as_slice());
                self.lookup(&path)
            },
            Some(Node::Symlink(None)) => None,
            _ => found,
        }
    }

    /// The bytes of the metadata file of the directory `dir`: `None` where
    /// the directory has no such file and so is no device, `Some(None)`
    /// where the file cannot be read.
    pub fn metadata_of<'a>(&'a self, dir: &Vec<Vec<u8>>) -> (r: Option<Option<&'a Vec<u8>>>)
        ensures
            match r {
                Some(Some(bytes)) => metadata_file(self.root, names(dir@)) == Some(
                    Node::File(Some(*bytes)),
                ),
                Some(None) => metadata_file(self.root, names(dir@)) == Some(Node::File(None)),
                None => !is_device(self.root, names(dir@)),
            },
    {
        let mut path = copy_names(dir);
        path.push(slice_to_vec(metadata()));
        assert(names(path@) =~= names(dir@).push(metadata_name()));
        match self.follow(self.lookup(&path)) {
            Some(Node::File(Some(bytes))) => Some(Some(bytes)),
            Some(Node::File(None)) => Some(None),
            _ => None,
        }
    }

    /// Goes one name further from the canonical path `at`. Returns `false`
    /// where the name leads nowhere; `at` is then of no use.
    pub fn advance(&self, at: &mut Vec<Vec<u8>>, name: &[u8]) -> (r: bool)
        ensures
            r ==> step(self.root, names(old(at)@), name@) == Some(names(final(at)@)),
            !r ==> step(self.root, names(old(at)@), name@).is_none(),
    {
        let ghost before = names(at@);
        if bytes_eq(name, ".".as_bytes()) {
            return true;
        }
        if bytes_eq(name, "..".as_bytes()) {
            if at.len() > 0 {
                at.pop();
                assert(names(at@) =~= before.drop_last());
            }
            return true;
        }
        at.push(slice_to_vec(name));
        assert(names(at@) =~= before.push(name@));
        match self.lookup(at) {
            Some(Node::Symlink(Some(target))) => {
                *at = split(target.as_slice());
                true
            },
            Some(Node::Symlink(None)) => false,
            Some(_) => true,
            None => false,
        }
    }

    /// Resolves a written path, read from the root, to its canonical form.
    pub fn canonicalize(&self, path: &[u8]) -> (r: Option<Vec<Vec<u8>>>)
        ensures
            match r {
                Some(at) => canonical(self.root, path@) == Some(names(at@)),
                None => canonical(self.root, path@).is_none(),
            },
    {
        let parts = split(path);
        let mut at: Vec<Vec<u8>> = Vec::new();
        let mut i: usize = 0;
        assert(names(parts@).skip(0) =~= names(parts@));
        assert(names(at@) =~= Seq::<Seq<u8>>::empty());
        while i < parts.len()
            invariant
                i <= parts@.len(),
                canonical(self.root, path@) == resolve(
                    self.root,
                    names(at@),
                    names(parts@).skip(i as int),
                ),
            decreases parts@.len() - i,
        {
            let ghost rest = names(parts@).skip(i as int);
            assert(rest[0] == parts@[i as int]@);
            assert(rest.drop_first() =~= names(parts@).skip(i + 1));
            if !self.advance(&mut at, parts[i].as_slice()) {
                return None;
            }
            i += 1;
        }
        Some(at)
    }
}

} // verus!
