//! Records of the scanned dataset and the names they carry.

use crate::text::{lowercase, same_text, to_lowercase};
use vstd::prelude::*;

verus! {

/// The kind of a record.
#[derive(Clone, Copy, Debug, PartialEq, Eq, Structural)]
pub enum RecordKind {
    /// A single point.
    Node,
    /// A point that came in a dense batch.
    DenseNode,
    /// A way.
    Way,
    /// A relation.
    Relation,
}

/// A tag of a record.
#[derive(Debug)]
pub struct Tag {
    pub key: String,
    pub value: String,
}

/// A record: its kind and its tags, in the order in which the record lists
/// them.
#[derive(Debug)]
pub struct Record {
    pub kind: RecordKind,
    pub tags: Vec<Tag>,
}

/// The key of the tag that holds a record's name.
pub open spec fn name_key() -> Seq<char> {
    "name"@
}

/// The value of the first tag of `tags` whose key is exactly `name`.
pub open spec fn first_name(tags: Seq<Tag>) -> Option<Seq<char>>
    decreases tags.len(),
{
    if tags.len() == 0 {
        None
    } else if tags[0].key@ == name_key() {
        Some(tags[0].value@)
    } else {
        first_name(tags.drop_first())
    }
}

/// The name that a record with the tags `tags` contributes: the value of its
/// first name tag, in lowercase.
pub open spec fn tagged_name(tags: Seq<Tag>) -> Option<Seq<char>> {
    match first_name(tags) {
        Some(value) => Some(lowercase(value)),
        None => None,
    }
}

/// `name` holds the characters `expected`, or both are absent.
pub open spec fn is_name(name: Option<String>, expected: Option<Seq<char>>) -> bool {
    match name {
        Some(s) => expected == Some(s@),
        None => expected is None,
    }
}

/// The lowercase value of the first name tag among `tags`.
fn name_among(tags: &Vec<Tag>) -> (name: Option<String>)
    ensures
        is_name(name, tagged_name(tags@)),
{
    let mut i: usize = 0;
    assert(tags@.skip(0) =~= tags@);
    while i < tags.len()
        invariant
            i <= tags.len(),
            first_name(tags@) == first_name(tags@.skip(i as int)),
        decreases tags.len() - i,
    {
        let ghost rest = tags@.skip(i as int);
        assert(rest[0] == tags@[i as int]);
        if same_text(tags[i].key.as_str(), "name") {
            return Some(to_lowercase(tags[i].value.as_str()));
        }
        assert(rest.drop_first() =~= tags@.skip(i + 1));
        i = i + 1;
    }
    None
}

/// The name of a point or a way; nothing for the other kinds.
pub fn process_nodes_and_ways(element: &Record) -> (name: Option<String>)
    ensures
        is_name(
            name,
            if element.kind is Node || element.kind is Way {
                tagged_name(element.tags@)
            } else {
                None
            },
        ),
{
    match element.kind {
        RecordKind::Node => name_among(&element.tags),
        RecordKind::DenseNode => None,
        RecordKind::Way => name_among(&element.tags),
        RecordKind::Relation => None,
    }
}

/// The name of a point of a dense batch; nothing for the other kinds.
pub fn process_dense_nodes(element: &Record) -> (name: Option<String>)
    ensures
        is_name(
            name,
            if element.kind is DenseNode {
                tagged_name(element.tags@)
            } else {
                None
            },
        ),
{
    match element.kind {
        RecordKind::Node => None,
        RecordKind::DenseNode => name_among(&element.tags),
        RecordKind::Way => None,
        RecordKind::Relation => None,
    }
}

/// The name of a relation; nothing for the other kinds.
pub fn process_relations(element: &Record) -> (name: Option<String>)
    ensures
        is_name(
            name,
            if element.kind is Relation {
                tagged_name(element.tags@)
            } else {
                None
            },
        ),
{
    match element.kind {
        RecordKind::Node => None,
        RecordKind::DenseNode => None,
        RecordKind::Way => None,
        RecordKind::Relation => name_among(&element.tags),
    }
}

/// The name that a record contributes, whatever its kind. Each record meets
/// exactly one of the three extractors.
pub fn record_name(element: &Record) -> (name: Option<String>)
    ensures
        is_name(name, tagged_name(element.tags@)),
{
    name_among(&element.tags)
}

} // verus!
