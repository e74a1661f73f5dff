//! The properties of a device, as its metadata file states them.
//!
//! The file is read line by line, and a line ends at a newline or at the end
//! of the file. A line `KEY=VALUE` sets the property `KEY`: the key ends at
//! the first `=`, and the value is every byte after it, as it stands. The
//! key is text; the value need not be. A line without `=`, or with a key
//! that is not text, says nothing, and the lines after it are read all the
//! same.

use crate::search::lemma_first;
use crate::table::Table;
use crate::text::{find, find_byte, is_byte, text_of, to_text};
use vstd::prelude::*;
use vstd::slice::*;

verus! {

/// The byte that ends a line.
pub const NEWLINE: u8 = 10;

/// The byte between a key and its value.
pub const EQUALS: u8 = 61;

/// The properties `known` with what the line `line` states added.
pub open spec fn with_line(known: Map<Seq<char>, Seq<u8>>, line: Seq<u8>) -> Map<
    Seq<char>,
    Seq<u8>,
> {
    let i = find(line, EQUALS);
    if 0 <= i < line.len() {
        match text_of(line.take(i)) {
            Some(key) => known.insert(key, line.skip(i + 1)),
            None => known,
        }
    } else {
        known
    }
}

/// The properties `known` with what the lines of `content` state added,
/// one line after the other to the end of `content`.
pub open spec fn with_lines(known: Map<Seq<char>, Seq<u8>>, content: Seq<u8>) -> Map<
    Seq<char>,
    Seq<u8>,
>
    decreases content.len(),
{
    if content.len() == 0 {
        known
    } else {
        let n = find(content, NEWLINE);
        let line = content.take(n);
        if 0 <= n < content.len() {
            with_lines(with_line(known, line), content.skip(n + 1))
        } else {
            with_line(known, line)
        }
    }
}

/// The properties that a metadata file with the bytes `content` states.
pub open spec fn properties(content: Seq<u8>) -> Map<Seq<char>, Seq<u8>> {
    with_lines(Map::empty(), content)
}

/// Tells whether the line `line` sets the property `key` to `value`:
/// whether `key` is the text that stands before its first `=` and `value`
/// the bytes that stand after it.
pub open spec fn sets(line: Seq<u8>, key: Seq<char>, value: Seq<u8>) -> bool {
    let i = find(line, EQUALS);
    0 <= i < line.len() && text_of(line.take(i)) == Some(key) && line.skip(i + 1) == value
}

/// Tells whether a line of `content` sets the property `key` to `value`.
pub open spec fn states(content: Seq<u8>, key: Seq<char>, value: Seq<u8>) -> bool
    decreases content.len(),
{
    let n = find(content, NEWLINE);
    let line = content.take(n);
    content.len() > 0 && (sets(line, key, value) || (0 <= n < content.len() && states(
        content.skip(n + 1),
        key,
        value,
    )))
}

/// What reading leaves: every property after it was there before or is set
/// by a line; every key that was there before is still there; and every
/// property that a line sets has its key there.
pub proof fn lemma_with_lines_states(
    known: Map<Seq<char>, Seq<u8>>,
    content: Seq<u8>,
    key: Seq<char>,
    value: Seq<u8>,
)
    ensures
        with_lines(known, content).contains_pair(key, value) ==> known.contains_pair(key, value)
            || states(content, key, value),
        known.contains_key(key) ==> with_lines(known, content).contains_key(key),
        states(content, key, value) ==> with_lines(known, content).contains_key(key),
    decreases content.len(),
{
    if content.len() > 0 {
        let n = find(content, NEWLINE);
        let line = content.take(n);
        if 0 <= n < content.len() {
            lemma_with_lines_states(with_line(known, line), content.skip(n + 1), key, value);
        }
    }
}

/// The properties of a metadata file are what its lines set: each property
/// is set by a line, and every key that a line sets is a property.
pub proof fn lemma_properties_are_stated(content: Seq<u8>, key: Seq<char>, value: Seq<u8>)
    ensures
        properties(content).contains_pair(key, value) ==> states(content, key, value),
        states(content, key, value) ==> properties(content).contains_key(key),
{
    lemma_with_lines_states(Map::empty(), content, key, value);
}

/// Where every line that sets `key` sets it to `value`, the file has that
/// property exactly where a line sets it. So a file whose lines all have
/// different keys has exactly the properties that its lines set.
pub proof fn lemma_one_line_sets_each_property(content: Seq<u8>, key: Seq<char>, value: Seq<u8>)
    requires
        forall|other: Seq<u8>| states(content, key, other) ==> other == value,
    ensures
        properties(content).contains_pair(key, value) <==> states(content, key, value),
{
    lemma_properties_are_stated(content, key, value);
    if states(content, key, value) {
        let held = properties(content)[key];
        lemma_properties_are_stated(content, key, held);
    }
}

/// Tells whether no value of `known` holds a newline.
pub open spec fn one_line_values(known: Map<Seq<char>, Seq<u8>>) -> bool {
    forall|key: Seq<char>| #[trigger]
        known.contains_key(key) ==> forall|i: int|
            0 <= i < known[key].len() ==> known[key][i] != NEWLINE
}

proof fn lemma_with_lines_one_line_values(known: Map<Seq<char>, Seq<u8>>, content: Seq<u8>)
    requires
        one_line_values(known),
    ensures
        one_line_values(with_lines(known, content)),
    decreases content.len(),
{
    if content.len() > 0 {
        let n = find(content, NEWLINE);
        let line = content.take(n);
        lemma_first(content, is_byte(NEWLINE));
        let next = with_line(known, line);
        assert(one_line_values(next)) by {
            let i = find(line, EQUALS);
            lemma_first(line, is_byte(EQUALS));
            assert forall|key: Seq<char>| #[trigger] next.contains_key(key) implies forall|j: int|
                0 <= j < next[key].len() ==> next[key][j] != NEWLINE by {
                if 0 <= i < line.len() && text_of(line.take(i)) == Some(key) {
                    assert forall|j: int| 0 <= j < next[key].len() implies next[key][j]
                        != NEWLINE by {
                        assert(next[key][j] == content[i + 1 + j]);
                        assert(!is_byte(NEWLINE)(content[i + 1 + j]));
                    }
                } else {
                    assert(known.contains_key(key));
                }
            }
        }
        if 0 <= n < content.len() {
            lemma_with_lines_one_line_values(next, content.skip(n + 1));
        }
    }
}

/// No value of a property holds a newline: a value ends where its line
/// ends.
pub proof fn lemma_values_hold_no_newline(content: Seq<u8>)
    ensures
        one_line_values(properties(content)),
{
    lemma_with_lines_one_line_values(Map::empty(), content);
}

/// Adds to `table` what one line states.
fn add_line(table: &mut Table, line: &[u8])
    ensures
        final(table)@ == with_line(old(table)@, line@),
        old(table).distinct() ==> final(table).distinct(),
{
    let i = find_byte(line, 0, EQUALS);
    assert(line@.skip(0) =~= line@);
    if i < line.len() {
        match to_text(slice_subrange(line, 0, i)) {
            Some(key) => {
                table.insert(key, slice_to_vec(slice_subrange(line, i + 1, line.len())));
            },
            None => {},
        }
    }
}

/// Reads the properties that a metadata file states.
pub fn parse(content: &[u8]) -> (r: Table)
    ensures
        r@ == properties(content@),
        r.distinct(),
{
    let mut table = Table::new();
    let mut pos: usize = 0;
    assert(content@.skip(0) =~= content@);
    while pos < content.len()
        invariant
            pos <= content@.len(),
            table.distinct(),
            properties(content@) == with_lines(table@, content@.skip(pos as int)),
        decreases content@.len() - pos,
    {
        let n = find_byte(content, pos, NEWLINE);
        let line = slice_subrange(content, pos, n);
        let ghost rest = content@.skip(pos as int);
        assert(rest.take(n - pos) =~= line@);
        add_line(&mut table, line);
        if n < content.len() {
            assert(rest.skip(n - pos + 1) =~= content@.skip(n + 1));
            pos = n + 1;
        } else {
            assert(content@.skip(n as int).len() == 0);
            pos = n;
        }
    }
    table
}

} // verus!
