use vstd::prelude::*;
use crate::builder::{shape_map, shape_node, Shape};
use crate::tree::{Directory, DirectoryContent, Node};

verus! {

/// No two pairs of `s` carry the same name.
pub open spec fn shape_names_unique(s: Seq<(String, Shape)>) -> bool {
    forall|i: int, j: int|
        0 <= i < j < s.len() ==> (#[trigger] s[i]).0@ != (#[trigger] s[j]).0@
}

/// The built directory holds exactly the names of `s`, and each name is bound
/// to what one of the pairs carrying it describes.
proof fn lemma_shape_map_names(s: Seq<(String, Shape)>)
    ensures
        forall|k: Seq<char>|
            shape_map(s).dom().contains(k) <==> exists|i: int|
                0 <= i < s.len() && (#[trigger] s[i]).0@ == k,
        forall|k: Seq<char>|
            #[trigger] shape_map(s).dom().contains(k) ==> exists|i: int|
                0 <= i < s.len() && (#[trigger] s[i]).0@ == k && shape_map(s)[k] == shape_node(
                    s[i].1,
                ),
    decreases s.len(),
{
    if s.len() > 0 {
        let t = s.drop_last();
        let n = s.len() - 1;
        lemma_shape_map_names(t);
        assert forall|k: Seq<char>|
            shape_map(s).dom().contains(k) <==> exists|i: int|
                0 <= i < s.len() && (#[trigger] s[i]).0@ == k by {
            if shape_map(t).dom().contains(k) {
                let i = choose|i: int| 0 <= i < t.len() && (#[trigger] t[i]).0@ == k;
                assert(s[i] == t[i]);
            }
            if exists|i: int| 0 <= i < s.len() && (#[trigger] s[i]).0@ == k {
                let i = choose|i: int| 0 <= i < s.len() && (#[trigger] s[i]).0@ == k;
                if i < n {
                    assert(t[i] == s[i]);
                }
            }
        }
        assert forall|k: Seq<char>| #[trigger] shape_map(s).dom().contains(k) implies exists|i: int|
            0 <= i < s.len() && (#[trigger] s[i]).0@ == k && shape_map(s)[k] == shape_node(s[i].1) by {
            if k == s[n].0@ {
                assert(s[n].0@ == k && shape_map(s)[k] == shape_node(s[n].1));
            } else {
                let i = choose|i: int|
                    0 <= i < t.len() && (#[trigger] t[i]).0@ == k && shape_map(t)[k] == shape_node(
                        t[i].1,
                    );
                assert(s[i] == t[i]);
            }
        }
    }
}

/// The order of siblings does not matter: building any permutation of a list
/// of uniquely named pairs gives the same directory.
pub proof fn lemma_sibling_order(s1: Seq<(String, Shape)>, s2: Seq<(String, Shape)>)
    requires
        shape_names_unique(s1),
        s1.to_multiset() == s2.to_multiset(),
    ensures
        shape_map(s1) == shape_map(s2),
{
    broadcast use vstd::seq_lib::group_to_multiset_ensures;

    lemma_shape_map_names(s1);
    lemma_shape_map_names(s2);
    assert forall|p: (String, Shape)| s1.contains(p) <==> s2.contains(p) by {
        assert(s1.contains(p) <==> s1.to_multiset().count(p) > 0);
        assert(s2.contains(p) <==> s2.to_multiset().count(p) > 0);
    }
    assert forall|k: Seq<char>|
        shape_map(s1).dom().contains(k) <==> #[trigger] shape_map(s2).dom().contains(k) by {
        if exists|i: int| 0 <= i < s1.len() && (#[trigger] s1[i]).0@ == k {
            let i = choose|i: int| 0 <= i < s1.len() && (#[trigger] s1[i]).0@ == k;
            assert(s1.contains(s1[i]));
            let j = choose|j: int| 0 <= j < s2.len() && s2[j] == s1[i];
            assert(s2[j].0@ == k);
        }
        if exists|j: int| 0 <= j < s2.len() && (#[trigger] s2[j]).0@ == k {
            let j = choose|j: int| 0 <= j < s2.len() && (#[trigger] s2[j]).0@ == k;
            assert(s2.contains(s2[j]));
            let i = choose|i: int| 0 <= i < s1.len() && s1[i] == s2[j];
            assert(s1[i].0@ == k);
        }
    }
    assert forall|k: Seq<char>| #[trigger] shape_map(s1).dom().contains(k) implies shape_map(s1)[k]
        == shape_map(s2)[k] by {
        let i = choose|i: int|
            0 <= i < s1.len() && (#[trigger] s1[i]).0@ == k && shape_map(s1)[k] == shape_node(s1[i].1);
        assert(shape_map(s2).dom().contains(k));
        let j = choose|j: int|
            0 <= j < s2.len() && (#[trigger] s2[j]).0@ == k && shape_map(s2)[k] == shape_node(s2[j].1);
        assert(s2.contains(s2[j]));
        let a = choose|a: int| 0 <= a < s1.len() && s1[a] == s2[j];
        if a < i {
            assert(s1[a].0@ != s1[i].0@);
        } else if i < a {
            assert(s1[i].0@ != s1[a].0@);
        }
    }
    assert(shape_map(s1) =~= shape_map(s2));
}

/// An empty nested list builds a directory entry with no children: present,
/// and not a file.
pub proof fn lemma_empty_directory(s: Seq<(String, Shape)>, name: String, v: Vec<(String, Shape)>)
    requires
        v@.len() == 0,
    ensures
        ({
            let m = shape_map(s.push((name, Shape::Dir(v))));
            &&& m.contains_key(name@)
            &&& m[name@] == Node::Dir(Map::empty())
            &&& forall|t: Map<Seq<char>, Node>| !t.contains_key(name@) ==> t != m
            &&& forall|t: Map<Seq<char>, Node>, c: Seq<char>|
                t.contains_key(name@) && t[name@] == Node::File(c) ==> t != m
        }),
{
    let u = s.push((name, Shape::Dir(v)));
    assert(u.drop_last() =~= s);
    assert(u.last() == (name, Shape::Dir(v)));
    assert(shape_map(v@) == Map::<Seq<char>, Node>::empty());
    assert(shape_node(Shape::Dir(v)) == Node::Dir(Map::empty()));
    assert(shape_map(u) == shape_map(s).insert(name@, Node::Dir(Map::empty())));
}

/// A file never equals a directory, whatever either holds.
pub proof fn lemma_file_never_equals_directory(c: String, d: Directory)
    ensures
        DirectoryContent::File(c)@ != DirectoryContent::Directory(d)@,
{
}

/// When two pairs at one level share a name, the later one wins: the earlier
/// pair leaves no trace in the result.
pub proof fn lemma_last_write_wins(s: Seq<(String, Shape)>, k: String, a: Shape, b: Shape)
    ensures
        shape_map(s.push((k, a)).push((k, b))) == shape_map(s.push((k, b))),
        shape_map(s.push((k, b)))[k@] == shape_node(b),
{
    let u = s.push((k, a));
    let w = u.push((k, b));
    let r = s.push((k, b));
    assert(w.drop_last() =~= u);
    assert(u.drop_last() =~= s);
    assert(r.drop_last() =~= s);
    assert(w.last() == (k, b));
    assert(u.last() == (k, a));
    assert(r.last() == (k, b));
    assert(shape_map(w) == shape_map(u).insert(k@, shape_node(b)));
    assert(shape_map(u) == shape_map(s).insert(k@, shape_node(a)));
    assert(shape_map(r) == shape_map(s).insert(k@, shape_node(b)));
    assert(shape_map(u.push((k, b))) =~= shape_map(s.push((k, b))));
}

} // verus!
