use vstd::prelude::*;
use crate::tree::{Directory, DirectoryContent, Node};

verus! {

/// A declarative description of a tree: file contents, or an ordered list of
/// named descriptions that becomes a directory.
#[derive(Debug)]
pub enum Shape {
    File(String),
    Dir(Vec<(String, Shape)>),
}

/// The entry that a description builds.
pub open spec fn shape_node(s: Shape) -> Node
    decreases s,
{
    match s {
        Shape::File(c) => Node::File(c@),
        Shape::Dir(v) => Node::Dir(shape_map(v@)),
    }
}

/// The directory that a list of named descriptions builds: the pairs are
/// inserted in order, so a later pair replaces an earlier one of the same name.
pub open spec fn shape_map(pairs: Seq<(String, Shape)>) -> Map<Seq<char>, Node>
    decreases pairs,
{
    if pairs.len() == 0 {
        Map::empty()
    } else {
        shape_map(pairs.drop_last()).insert(pairs.last().0@, shape_node(pairs.last().1))
    }
}

/// Builds the root directory that `pairs` describe.
pub fn fixture(pairs: &Vec<(String, Shape)>) -> (d: Directory)
    ensures
        d@ == shape_map(pairs@),
    decreases pairs,
{
    let mut d = Directory::new();
    let mut i: usize = 0;
    while i < pairs.len()
        invariant
            i <= pairs@.len(),
            d@ == shape_map(pairs@.take(i as int)),
        decreases pairs@.len() - i,
    {
        let entry = match &pairs[i].1 {
            Shape::File(c) => DirectoryContent::File(c.clone()),
            Shape::Dir(inner) => DirectoryContent::Directory(fixture(inner)),
        };
        proof {
            assert(entry@ == shape_node(pairs@[i as int].1));
            assert(pairs@.take(i + 1).drop_last() =~= pairs@.take(i as int));
        }
        d.insert(pairs[i].0.clone(), entry);
        i += 1;
    }
    proof {
        assert(pairs@.take(pairs@.len() as int) =~= pairs@);
    }
    d
}

/// Builds a directory entry from the named descriptions in `pairs`.
pub fn directory(pairs: &Vec<(String, Shape)>) -> (r: DirectoryContent)
    ensures
        r@ == Node::Dir(shape_map(pairs@)),
{
    DirectoryContent::Directory(fixture(pairs))
}

} // verus!
