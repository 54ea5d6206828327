use vstd::prelude::*;

verus! {

/// The mathematical value of an entry: a file's text, or a directory as a map
/// from names to entries.
pub enum Node {
    File(Seq<char>),
    Dir(Map<Seq<char>, Node>),
}

/// A directory: a collection of uniquely named entries.
#[derive(Debug)]
pub struct Directory {
    entries: Vec<(String, DirectoryContent)>,
}

/// One named slot of a directory: file contents or a nested directory.
#[derive(Debug)]
pub enum DirectoryContent {
    File(String),
    Directory(Directory),
}

/// No two positions of `s` carry the same name.
pub open spec fn names_unique(s: Seq<(String, DirectoryContent)>) -> bool {
    forall|i: int, j: int|
        0 <= i < j < s.len() ==> (#[trigger] s[i]).0@ != (#[trigger] s[j]).0@
}

/// The map that inserting the entries of `s` one after the other produces.
pub open spec fn entries_map(s: Seq<(String, DirectoryContent)>) -> Map<Seq<char>, Node>
    decreases s,
{
    if s.len() == 0 {
        Map::empty()
    } else {
        let last = s.last();
        entries_map(s.drop_last()).insert(last.0@, last.1.node())
    }
}

impl DirectoryContent {
    /// The mathematical value of this entry.
    pub open spec fn node(self) -> Node
        decreases self,
    {
        match self {
            DirectoryContent::File(c) => Node::File(c@),
            DirectoryContent::Directory(d) => Node::Dir(d.model()),
        }
    }
}

impl DirectoryContent {
    /// Structural equality: two files with the same contents, or two equal
    /// directories; a file never equals a directory.
    pub fn equals(&self, other: &DirectoryContent) -> (r: bool)
        ensures
            r == (self@ == other@),
        decreases self,
    {
        match (self, other) {
            (DirectoryContent::File(a), DirectoryContent::File(b)) => *a == *b,
            (DirectoryContent::Directory(a), DirectoryContent::Directory(b)) => a.equals(b),
            _ => false,
        }
    }
}

impl PartialEq for DirectoryContent {
    fn eq(&self, other: &DirectoryContent) -> (r: bool) {
        self.equals(other)
    }
}

impl vstd::std_specs::cmp::PartialEqSpecImpl for DirectoryContent {
    open spec fn obeys_eq_spec() -> bool {
        true
    }

    open spec fn eq_spec(&self, other: &DirectoryContent) -> bool {
        self@ == other@
    }
}

impl PartialEq for Directory {
    fn eq(&self, other: &Directory) -> (r: bool) {
        self.equals(other)
    }
}

impl vstd::std_specs::cmp::PartialEqSpecImpl for Directory {
    open spec fn obeys_eq_spec() -> bool {
        true
    }

    open spec fn eq_spec(&self, other: &Directory) -> bool {
        self@ == other@
    }
}

impl View for DirectoryContent {
    type V = Node;

    open spec fn view(&self) -> Node {
        self.node()
    }
}

impl View for Directory {
    type V = Map<Seq<char>, Node>;

    open spec fn view(&self) -> Map<Seq<char>, Node> {
        self.model()
    }
}

/// With unique names, the map has one key for each entry.
proof fn lemma_entries_map_len(s: Seq<(String, DirectoryContent)>)
    requires
        names_unique(s),
    ensures
        entries_map(s).dom().finite(),
        entries_map(s).dom().len() == s.len(),
    decreases s.len(),
{
    if s.len() > 0 {
        let t = s.drop_last();
        lemma_entries_map_len(t);
        lemma_entries_map_unique(t);
        assert(!entries_map(t).dom().contains(s.last().0@)) by {
            if entries_map(t).dom().contains(s.last().0@) {
                let i = choose|i: int| 0 <= i < t.len() && (#[trigger] t[i]).0@ == s.last().0@;
                assert(s[i] == t[i]);
            }
        }
    } else {
        assert(entries_map(s).dom() =~= Set::empty());
    }
}

/// With unique names, the map holds exactly the names of `s`, each bound to
/// the entry that carries it.
proof fn lemma_entries_map_unique(s: Seq<(String, DirectoryContent)>)
    requires
        names_unique(s),
    ensures
        forall|k: Seq<char>|
            entries_map(s).dom().contains(k) <==> exists|i: int|
                0 <= i < s.len() && (#[trigger] s[i]).0@ == k,
        forall|i: int| 0 <= i < s.len() ==> entries_map(s)[(#[trigger] s[i]).0@] == s[i].1@,
    decreases s.len(),
{
    if s.len() > 0 {
        let t = s.drop_last();
        lemma_entries_map_unique(t);
        assert forall|k: Seq<char>|
            entries_map(s).dom().contains(k) <==> exists|i: int|
                0 <= i < s.len() && (#[trigger] s[i]).0@ == k by {
            if entries_map(t).dom().contains(k) {
                let i = choose|i: int| 0 <= i < t.len() && (#[trigger] t[i]).0@ == k;
                assert(s[i] == t[i]);
            }
            if exists|i: int| 0 <= i < s.len() && (#[trigger] s[i]).0@ == k {
                let i = choose|i: int| 0 <= i < s.len() && (#[trigger] s[i]).0@ == k;
                if i < s.len() - 1 {
                    assert(t[i] == s[i]);
                }
            }
        }
        assert forall|i: int| 0 <= i < s.len() implies entries_map(s)[(#[trigger] s[i]).0@]
            == s[i].1@ by {
            if i < s.len() - 1 {
                assert(t[i] == s[i]);
                assert(s[i].0@ != s[s.len() - 1].0@);
            }
        }
    }
}

impl Directory {
    #[verifier::type_invariant]
    spec fn inv(self) -> bool {
        names_unique(self.entries@)
    }

    /// The directory as a map from names to entries.
    pub closed spec fn model(self) -> Map<Seq<char>, Node>
        decreases self,
    {
        entries_map(self.entries@)
    }

    /// An empty directory.
    pub fn new() -> (d: Directory)
        ensures
            d@ == Map::<Seq<char>, Node>::empty(),
    {
        Directory { entries: Vec::new() }
    }

    /// Position of the entry named `name`, if there is one.
    fn position(&self, name: &String) -> (r: Option<usize>)
        ensures
            match r {
                Some(i) => i < self.entries@.len() && self.entries@[i as int].0@ == name@,
                None => forall|j: int|
                    0 <= j < self.entries@.len() ==> (#[trigger] self.entries@[j]).0@ != name@,
            },
    {
        let mut i: usize = 0;
        while i < self.entries.len()
            invariant
                i <= self.entries@.len(),
                forall|j: int| 0 <= j < i ==> (#[trigger] self.entries@[j]).0@ != name@,
            decreases self.entries@.len() - i,
        {
            if self.entries[i].0 == *name {
                return Some(i);
            }
            i += 1;
        }
        None
    }

    /// Binds `name` to `content`, replacing the entry that held that name
    /// before, if any.
    pub fn insert(&mut self, name: String, content: DirectoryContent)
        ensures
            final(self)@ == old(self)@.insert(name@, content@),
    {
        proof {
            use_type_invariant(&*self);
        }
        let pos = self.position(&name);
        let mut entries: Vec<(String, DirectoryContent)> = Vec::new();
        std::mem::swap(&mut entries, &mut self.entries);
        let ghost s = entries@;
        let ghost key = name@;
        let ghost value = content@;
        match pos {
            Some(i) => {
                entries.set(i, (name, content));
                proof {
                    let t = entries@;
                    assert(t == s.update(i as int, t[i as int]));
                    assert(names_unique(t)) by {
                        assert forall|a: int, b: int| 0 <= a < b < t.len() implies (#[trigger] t[a]).0@
                            != (#[trigger] t[b]).0@ by {
                            assert(s[a].0@ != s[b].0@);
                        }
                    }
                    lemma_entries_map_unique(s);
                    lemma_entries_map_unique(t);
                    assert forall|k: Seq<char>|
                        entries_map(t).dom().contains(k) <==> entries_map(s).insert(key, value).dom().contains(k) by {
                        if exists|j: int| 0 <= j < t.len() && (#[trigger] t[j]).0@ == k {
                            let j = choose|j: int| 0 <= j < t.len() && (#[trigger] t[j]).0@ == k;
                            if j != i {
                                assert(s[j] == t[j]);
                            }
                        }
                        if exists|j: int| 0 <= j < s.len() && (#[trigger] s[j]).0@ == k {
                            let j = choose|j: int| 0 <= j < s.len() && (#[trigger] s[j]).0@ == k;
                            if j != i {
                                assert(s[j] == t[j]);
                            }
                        }
                    }
                    assert forall|k: Seq<char>| #[trigger] entries_map(t).dom().contains(k) implies entries_map(t)[k]
                        == entries_map(s).insert(key, value)[k] by {
                        let j = choose|j: int| 0 <= j < t.len() && (#[trigger] t[j]).0@ == k;
                        if j != i {
                            assert(s[j] == t[j]);
                        }
                    }
                    assert(entries_map(t) =~= entries_map(s).insert(key, value));
                }
            },
            None => {
                entries.push((name, content));
                proof {
                    let t = entries@;
                    assert(t.drop_last() =~= s);
                    assert(names_unique(t)) by {
                        assert forall|a: int, b: int| 0 <= a < b < t.len() implies (#[trigger] t[a]).0@
                            != (#[trigger] t[b]).0@ by {
                            if b < s.len() {
                                assert(s[a].0@ != s[b].0@);
                            } else {
                                assert(s[a].0@ != key);
                            }
                        }
                    }
                }
            },
        }
        self.entries = entries;
    }

    /// A directory holding `entries`, inserted in order: where a name occurs
    /// more than once, the last entry with that name is kept.
    pub fn from_entries(entries: Vec<(String, DirectoryContent)>) -> (d: Directory)
        ensures
            d@ == entries_map(entries@),
    {
        let ghost all = entries@;
        let n = entries.len();
        let mut rest = entries;
        let mut d = Directory::new();
        let mut k: usize = 0;
        while rest.len() > 0
            invariant
                k + rest@.len() == all.len(),
                all.len() == n,
                rest@ == all.skip(k as int),
                d@ == entries_map(all.take(k as int)),
            decreases rest@.len(),
        {
            let (name, content) = rest.remove(0);
            proof {
                assert(all.take(k + 1).drop_last() =~= all.take(k as int));
                assert(all[k as int] == all.skip(k as int)[0]);
            }
            d.insert(name, content);
            k += 1;
            proof {
                assert(rest@ =~= all.skip(k as int));
            }
        }
        proof {
            assert(all.take(k as int) =~= all);
        }
        d
    }

    /// The number of entries.
    pub fn len(&self) -> (n: usize)
        ensures
            n == self@.dom().len(),
    {
        proof {
            use_type_invariant(self);
            lemma_entries_map_len(self.entries@);
        }
        self.entries.len()
    }

    /// The entry bound to `name`, if any.
    pub fn get(&self, name: &String) -> (r: Option<&DirectoryContent>)
        ensures
            match r {
                Some(c) => self@.contains_key(name@) && self@[name@] == c@,
                None => !self@.contains_key(name@),
            },
    {
        proof {
            use_type_invariant(self);
            lemma_entries_map_unique(self.entries@);
        }
        match self.position(name) {
            Some(i) => Some(&self.entries[i].1),
            None => None,
        }
    }

    /// Structural equality: the same names, each bound to equal entries.
    pub fn equals(&self, other: &Directory) -> (r: bool)
        ensures
            r == (self@ == other@),
        decreases self,
    {
        proof {
            use_type_invariant(self);
            use_type_invariant(other);
            lemma_entries_map_unique(self.entries@);
            lemma_entries_map_unique(other.entries@);
        }
        let mut i: usize = 0;
        while i < self.entries.len()
            invariant
                i <= self.entries@.len(),
                names_unique(self.entries@),
                names_unique(other.entries@),
                forall|j: int|
                    0 <= j < i ==> other@.contains_key((#[trigger] self.entries@[j]).0@)
                        && other@[self.entries@[j].0@] == self.entries@[j].1@,
            decreases self.entries@.len() - i,
        {
            proof {
                lemma_entries_map_unique(self.entries@);
                lemma_entries_map_unique(other.entries@);
                assert(self@.contains_key(self.entries@[i as int].0@));
            }
            match other.position(&self.entries[i].0) {
                None => {
                    return false;
                },
                Some(k) => {
                    if !self.entries[i].1.equals(&other.entries[k].1) {
                        return false;
                    }
                },
            }
            i += 1;
        }
        let mut k: usize = 0;
        while k < other.entries.len()
            invariant
                k <= other.entries@.len(),
                names_unique(self.entries@),
                names_unique(other.entries@),
                forall|j: int|
                    0 <= j < k ==> self@.contains_key((#[trigger] other.entries@[j]).0@),
            decreases other.entries@.len() - k,
        {
            proof {
                lemma_entries_map_unique(self.entries@);
                lemma_entries_map_unique(other.entries@);
                assert(other@.contains_key(other.entries@[k as int].0@));
            }
            if self.position(&other.entries[k].0).is_none() {
                return false;
            }
            k += 1;
        }
        proof {
            lemma_entries_map_unique(self.entries@);
            lemma_entries_map_unique(other.entries@);
            assert forall|key: Seq<char>| #[trigger] self@.contains_key(key) implies other@.contains_key(key)
                && other@[key] == self@[key] by {
                let j = choose|j: int| 0 <= j < self.entries@.len() && (#[trigger] self.entries@[j]).0@ == key;
            }
            assert forall|key: Seq<char>| #[trigger] other@.contains_key(key) implies self@.contains_key(key) by {
                let j = choose|j: int| 0 <= j < other.entries@.len() && (#[trigger] other.entries@[j]).0@ == key;
            }
            assert(self@ =~= other@);
        }
        true
    }
}

} // verus!
