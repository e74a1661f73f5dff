//! Paths, as byte strings and as lists of names.
//!
//! A path is written as a byte string with `/` between its names. The tree is
//! walked by lists of names: the empty list is the root.

use crate::search::{lemma_first, lemma_first_unique};
use crate::text::{find, find_byte, is_byte};
use vstd::prelude::*;
use vstd::slice::*;

verus! {

/// The byte that separates the names of a path.
pub const SEPARATOR: u8 = 47;

/// The names held by a list of byte strings.
pub open spec fn names(path: Seq<Vec<u8>>) -> Seq<Seq<u8>> {
    Seq::new(path.len(), |i: int| path[i]@)
}

/// The names of a written path, in order: the pieces between separators that
/// are not empty.
pub open spec fn components(path: Seq<u8>) -> Seq<Seq<u8>>
    decreases path.len(),
{
    let n = find(path, SEPARATOR);
    let head = path.take(n);
    let tail = if 0 <= n < path.len() {
        components(path.skip(n + 1))
    } else {
        Seq::empty()
    };
    if head.len() == 0 {
        tail
    } else {
        seq![head] + tail
    }
}

/// The names of `path`, each with a separator before it.
pub open spec fn slashed(path: Seq<Seq<u8>>) -> Seq<u8>
    decreases path.len(),
{
    if path.len() == 0 {
        Seq::empty()
    } else {
        slashed(path.drop_last()) + seq![SEPARATOR] + path.last()
    }
}

/// The written form of the absolute path with the names `path`. The root is
/// written as one separator.
pub open spec fn absolute(path: Seq<Seq<u8>>) -> Seq<u8> {
    if path.len() == 0 {
        seq![SEPARATOR]
    } else {
        slashed(path)
    }
}

/// `base` with `rel` appended as a path. A `rel` that starts with a
/// separator is absolute and replaces `base`; otherwise a separator is put
/// between the two unless `base` is empty or ends with one.
pub open spec fn joined(base: Seq<u8>, rel: Seq<u8>) -> Seq<u8> {
    if rel.len() > 0 && rel[0] == SEPARATOR {
        rel
    } else if base.len() > 0 && base.last() != SEPARATOR {
        base + seq![SEPARATOR] + rel
    } else {
        base + rel
    }
}

/// Tells whether `name` can stand as one name in a written path: whether it
/// is not empty and holds no separator.
pub open spec fn plain(name: Seq<u8>) -> bool {
    name.len() > 0 && forall|i: int| 0 <= i < name.len() ==> name[i] != SEPARATOR
}

/// Tells whether every name of `path` can stand in a written path.
pub open spec fn all_plain(path: Seq<Seq<u8>>) -> bool {
    forall|i: int| 0 <= i < path.len() ==> plain(#[trigger] path[i])
}

/// The names of a written path can all stand in a written path.
pub proof fn lemma_components_are_plain(path: Seq<u8>)
    ensures
        all_plain(components(path)),
    decreases path.len(),
{
    let n = find(path, SEPARATOR);
    lemma_first(path, is_byte(SEPARATOR));
    if 0 <= n < path.len() {
        lemma_components_are_plain(path.skip(n + 1));
    }
}

/// A written path that starts with a separator and a name starts, as a list
/// of names, with that name.
proof fn lemma_components_after_name(name: Seq<u8>, rest: Seq<u8>)
    requires
        plain(name),
        rest.len() > 0 ==> rest[0] == SEPARATOR,
    ensures
        components(seq![SEPARATOR] + name + rest) == seq![name] + components(rest),
{
    let whole = seq![SEPARATOR] + name + rest;
    let tail = name + rest;
    lemma_first_unique(whole, is_byte(SEPARATOR), 0);
    assert(whole.skip(1) =~= tail);
    assert(whole.take(0).len() == 0);
    assert(components(whole) == components(tail));
    lemma_first_unique(tail, is_byte(SEPARATOR), name.len() as int);
    assert(tail.take(name.len() as int) =~= name);
    if rest.len() > 0 {
        lemma_first_unique(rest, is_byte(SEPARATOR), 0);
        assert(rest.take(0).len() == 0);
        assert(tail.skip(name.len() as int + 1) =~= rest.skip(1));
        assert(components(rest) == components(rest.skip(1)));
    } else {
        lemma_first_unique(rest, is_byte(SEPARATOR), 0);
        assert(components(rest) =~= Seq::<Seq<u8>>::empty());
    }
}

/// The names of `path`, each with a separator before it: the first name,
/// then the others.
proof fn lemma_slashed_front(path: Seq<Seq<u8>>)
    requires
        path.len() > 0,
    ensures
        slashed(path) == seq![SEPARATOR] + path[0] + slashed(path.drop_first()),
        slashed(path).len() > 0 && slashed(path)[0] == SEPARATOR,
    decreases path.len(),
{
    if path.len() == 1 {
        assert(path.drop_last() =~= Seq::<Seq<u8>>::empty());
        assert(path.drop_first() =~= Seq::<Seq<u8>>::empty());
        assert(slashed(path) =~= seq![SEPARATOR] + path[0] + slashed(path.drop_first()));
    } else {
        let front = path.drop_last();
        lemma_slashed_front(front);
        assert(front.drop_first() =~= path.drop_first().drop_last());
        assert(slashed(path) =~= seq![SEPARATOR] + path[0] + slashed(path.drop_first()));
    }
}

/// Writing a list of names and splitting what was written gives the list
/// again, where each name can stand in a written path.
pub proof fn lemma_written_path_splits_back(path: Seq<Seq<u8>>)
    requires
        all_plain(path),
    ensures
        components(absolute(path)) == path,
    decreases path.len(),
{
    if path.len() == 0 {
        let root = seq![SEPARATOR];
        lemma_first_unique(root, is_byte(SEPARATOR), 0);
        assert(root.take(0).len() == 0);
        let rest = root.skip(1);
        lemma_first_unique(rest, is_byte(SEPARATOR), 0);
        assert(components(rest) =~= Seq::<Seq<u8>>::empty());
        assert(components(root) =~= path);
    } else {
        let rest = path.drop_first();
        lemma_slashed_front(path);
        assert(all_plain(rest)) by {
            assert forall|i: int| 0 <= i < rest.len() implies plain(#[trigger] rest[i]) by {
                assert(rest[i] == path[i + 1]);
            }
        }
        if rest.len() > 0 {
            lemma_slashed_front(rest);
            lemma_written_path_splits_back(rest);
        } else {
            lemma_first_unique(slashed(rest), is_byte(SEPARATOR), 0);
            assert(components(slashed(rest)) =~= rest);
        }
        lemma_components_after_name(path[0], slashed(rest));
        assert(seq![path[0]] + rest =~= path);
    }
}

/// Appends `bytes` to `out`.
pub fn append_bytes(out: &mut Vec<u8>, bytes: &[u8])
    ensures
        final(out)@ == old(out)@ + bytes@,
{
    let mut i: usize = 0;
    while i < bytes.len()
        invariant
            i <= bytes@.len(),
            out@ == old(out)@ + bytes@.take(i as int),
        decreases bytes@.len() - i,
    {
        out.push(bytes[i]);
        assert(bytes@.take(i + 1) =~= bytes@.take(i as int).push(bytes@[i as int]));
        i += 1;
    }
    assert(bytes@.take(i as int) =~= bytes@);
}

/// Copies a list of names.
pub fn copy_names(path: &Vec<Vec<u8>>) -> (r: Vec<Vec<u8>>)
    ensures
        names(r@) == names(path@),
{
    let mut r: Vec<Vec<u8>> = Vec::new();
    let mut i: usize = 0;
    while i < path.len()
        invariant
            i <= path@.len(),
            r@.len() == i,
            forall|j: int| 0 <= j < i ==> r@[j]@ == path@[j]@,
        decreases path@.len() - i,
    {
        r.push(slice_to_vec(path[i].as_slice()));
        i += 1;
    }
    assert(names(r@) =~= names(path@));
    r
}

/// Splits a written path into its names.
pub fn split(path: &[u8]) -> (r: Vec<Vec<u8>>)
    ensures
        names(r@) == components(path@),
{
    let mut r: Vec<Vec<u8>> = Vec::new();
    let mut pos: usize = 0;
    let mut done = false;
    assert(path@.skip(0) =~= path@);
    assert(names(r@) + components(path@) =~= components(path@));
    while !done
        invariant
            pos <= path@.len(),
            !done ==> components(path@) == names(r@) + components(path@.skip(pos as int)),
            done ==> components(path@) == names(r@),
        decreases path@.len() - pos + (if done { 0int } else { 1int }),
    {
        let n = find_byte(path, pos, SEPARATOR);
        let ghost rest = path@.skip(pos as int);
        let ghost before = names(r@);
        assert(rest.take(n - pos) =~= path@.subrange(pos as int, n as int));
        if n > pos {
            r.push(slice_to_vec(slice_subrange(path, pos, n)));
            assert(names(r@) =~= before + seq![rest.take(n - pos)]);
        }
        if n < path.len() {
            assert(rest.skip(n - pos + 1) =~= path@.skip(n + 1));
            assert(components(path@) =~= names(r@) + components(path@.skip(n + 1)));
            pos = n + 1;
        } else {
            assert(components(path@) =~= names(r@));
            done = true;
        }
    }
    r
}

/// Writes the absolute path with the names `path`.
pub fn render(path: &Vec<Vec<u8>>) -> (r: Vec<u8>)
    ensures
        r@ == absolute(names(path@)),
{
    let mut r: Vec<u8> = Vec::new();
    if path.len() == 0 {
        r.push(SEPARATOR);
        assert(r@ =~= seq![SEPARATOR]);
        return r;
    }
    let mut i: usize = 0;
    while i < path.len()
        invariant
            i <= path@.len(),
            r@ == slashed(names(path@).take(i as int)),
        decreases path@.len() - i,
    {
        let ghost before = names(path@).take(i as int);
        let ghost after = names(path@).take(i + 1);
        r.push(SEPARATOR);
        append_bytes(&mut r, path[i].as_slice());
        assert(after.drop_last() =~= before);
        assert(after.last() == path@[i as int]@);
        i += 1;
    }
    assert(names(path@).take(i as int) =~= names(path@));
    r
}

/// Appends `rel` to `base` as a path.
pub fn join(base: &[u8], rel: &[u8]) -> (r: Vec<u8>)
    ensures
        r@ == joined(base@, rel@),
{
    let mut r: Vec<u8> = Vec::new();
    if rel.len() > 0 && rel[0] == SEPARATOR {
        append_bytes(&mut r, rel);
        assert(r@ =~= rel@);
        return r;
    }
    append_bytes(&mut r, base);
    if base.len() > 0 && base[base.len() - 1] != SEPARATOR {
        r.push(SEPARATOR);
    }
    append_bytes(&mut r, rel);
    assert(r@ =~= joined(base@, rel@));
    r
}

} // verus!
