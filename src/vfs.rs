//! The file system interface that the machine uses, and an in-memory file system.
use vstd::prelude::*;
use crate::text::{chars_of, split_chars, split_spec, string_of, strings_view, views_of};

verus! {

/// Why a file system operation failed.
#[derive(Clone, Copy, Debug, PartialEq, Eq, Structural)]
pub enum IoError {
    NotFound,
    InvalidInput,
    PermissionDenied,
    Other,
}

/// A call made to a file system that changes it or its streams, with what it
/// gave back: whether it succeeded, and for a read the bytes read.
pub enum FsCall {
    Create(Seq<char>, bool),
    Open(Seq<char>, bool),
    Remove(Seq<char>, bool),
    Read(usize, Option<Seq<u8>>),
    Write(Seq<u8>, bool),
}

/// What a read gave back: the bytes, or `None` on an error.
pub open spec fn read_record(r: Result<Vec<u8>, IoError>) -> Option<Seq<u8>> {
    match r {
        Ok(v) => Some(v@),
        Err(_) => None,
    }
}

/// What the machine needs of a file system. Paths are relative to the file
/// system's own root and use `/` between their parts.
pub trait FileSystem {
    /// An open stream on one file, for reading or for writing.
    type Stream;

    /// The calls made so far to the methods that take `&mut self`, in order.
    /// A file system that keeps no record has none.
    closed spec fn calls(&self) -> Seq<FsCall> {
        Seq::empty()
    }

    /// The names of the children of the directory at `path`.
    fn ls(&self, path: &str) -> Result<Vec<String>, IoError>;

    /// Creates the file at `path`, or empties it if it exists, and opens it for writing.
    fn create_file_stream(&mut self, path: &str) -> (r: Result<Self::Stream, IoError>)
        ensures
            final(self).calls() == old(self).calls().push(FsCall::Create(path@, r is Ok)),
    ;

    /// Opens the file at `path` for reading from its start.
    fn open_file_stream(&mut self, path: &str) -> (r: Result<Self::Stream, IoError>)
        ensures
            final(self).calls() == old(self).calls().push(FsCall::Open(path@, r is Ok)),
    ;

    /// Removes the file at `path`.
    fn remove_file(&mut self, path: &str) -> (r: Result<(), IoError>)
        ensures
            final(self).calls() == old(self).calls().push(FsCall::Remove(path@, r is Ok)),
    ;

    /// Reads at most `max` bytes; none at the end of the file.
    fn read(&mut self, stream: &mut Self::Stream, max: usize) -> (r: Result<Vec<u8>, IoError>)
        ensures
            final(self).calls() == old(self).calls().push(FsCall::Read(max, read_record(r))),
    ;

    /// Writes `bytes` at the end of the stream and tells how many were written.
    fn write(&mut self, stream: &mut Self::Stream, bytes: &[u8]) -> (r: Result<usize, IoError>)
        ensures
            final(self).calls() == old(self).calls().push(FsCall::Write(bytes@, r is Ok)),
    ;
}

/// The parts of a path: the pieces between `/` that are not empty.
pub open spec fn nonempty_parts(parts: Seq<Seq<char>>) -> Seq<Seq<char>>
    decreases parts.len(),
{
    if parts.len() == 0 {
        parts
    } else if parts.last().len() > 0 {
        nonempty_parts(parts.drop_last()).push(parts.last())
    } else {
        nonempty_parts(parts.drop_last())
    }
}

pub open spec fn path_segments(path: Seq<char>) -> Seq<Seq<char>> {
    nonempty_parts(split_spec(path, '/'))
}

/// Splits a path into its parts at each `/`, leaving out empty parts.
pub fn split_path_str(path: &str) -> (r: Vec<String>)
    ensures
        strings_view(r@) == path_segments(path@),
{
    let chars = chars_of(path);
    let parts = split_chars(&chars, '/');
    let ghost ps = split_spec(path@, '/');
    let mut v: Vec<String> = Vec::new();
    let mut i: usize = 0;
    assert(ps.take(0) =~= Seq::<Seq<char>>::empty());
    while i < parts.len()
        invariant
            views_of(parts@) == ps,
            ps == split_spec(path@, '/'),
            0 <= i <= parts@.len(),
            strings_view(v@) == nonempty_parts(ps.take(i as int)),
        decreases parts@.len() - i,
    {
        assert(ps.take(i as int + 1).drop_last() =~= ps.take(i as int));
        assert(parts@[i as int]@ == ps[i as int]);
        if parts[i].len() > 0 {
            let ghost before = strings_view(v@);
            v.push(string_of(&parts[i]));
            assert(strings_view(v@) =~= before.push(ps[i as int]));
        }
        i = i + 1;
    }
    assert(ps.take(parts@.len() as int) =~= ps);
    v
}

/// A node of the file tree.
pub struct NodeView {
    pub name: Seq<char>,
    pub is_file: bool,
    pub parent: Option<usize>,
    pub children: Seq<usize>,
    pub data: Seq<u8>,
}

/// A directory or a file. Nodes refer to each other by their index in the
/// file system's table.
struct Node {
    name: String,
    is_file: bool,
    parent: Option<usize>,
    children: Vec<usize>,
    data: Vec<u8>,
}

impl View for Node {
    type V = NodeView;

    closed spec fn view(&self) -> NodeView {
        NodeView {
            name: self.name@,
            is_file: self.is_file,
            parent: self.parent,
            children: self.children@,
            data: self.data@,
        }
    }
}

/// The shape of a file tree held in a table: node 0 is the root directory;
/// each child of a node is another node of the table whose parent is that
/// node; files have no children; no two children of a node share a name.
pub open spec fn tree_wf(v: Seq<NodeView>) -> bool {
    &&& v.len() >= 1
    &&& !v[0].is_file
    &&& v[0].parent is None
    &&& forall|i: int, k: int|
        #![trigger v[i].children[k]]
        0 <= i < v.len() && 0 <= k < v[i].children.len() ==> {
            let c = v[i].children[k] as int;
            &&& 0 < c < v.len()
            &&& v[c].parent == Some(i as usize)
        }
    &&& forall|i: int| 0 <= i < v.len() && #[trigger] v[i].is_file ==> v[i].children.len() == 0
    &&& forall|i: int, k1: int, k2: int|
        0 <= i < v.len() && 0 <= k1 < k2 < v[i].children.len() ==> v[#[trigger] v[i].children[k1] as int].name
            != v[#[trigger] v[i].children[k2] as int].name
}

/// The first child of `d` named `name`, looking from the `k`th child on.
pub open spec fn child_from(v: Seq<NodeView>, d: int, name: Seq<char>, k: int) -> Option<usize>
    decreases v[d].children.len() - k,
{
    if k < 0 || k >= v[d].children.len() {
        None
    } else if v[v[d].children[k] as int].name == name {
        Some(v[d].children[k])
    } else {
        child_from(v, d, name, k + 1)
    }
}

/// The child of `d` named `name`.
pub open spec fn child_named(v: Seq<NodeView>, d: int, name: Seq<char>) -> Option<usize> {
    child_from(v, d, name, 0)
}

/// The node that `segs` leads to from `head`, if any.
pub open spec fn lookup(v: Seq<NodeView>, head: int, segs: Seq<Seq<char>>) -> Option<usize>
    decreases segs.len(),
{
    if segs.len() == 0 {
        Some(head as usize)
    } else if v[head].is_file {
        None
    } else {
        match child_named(v, head, segs[0]) {
            None => None,
            Some(c) => lookup(v, c as int, segs.drop_first()),
        }
    }
}

/// Whether a file can be made at `segs` below `head`: no part but the last
/// names a file, and the last names no directory.
pub open spec fn can_create(v: Seq<NodeView>, head: int, segs: Seq<Seq<char>>) -> bool
    decreases segs.len(),
{
    if segs.len() == 0 || v[head].is_file {
        false
    } else {
        match child_named(v, head, segs[0]) {
            None => true,
            Some(c) => if segs.len() == 1 {
                v[c as int].is_file
            } else {
                can_create(v, c as int, segs.drop_first())
            },
        }
    }
}

/// A table of nodes.
struct Tree {
    nodes: Vec<Node>,
}

impl View for Tree {
    type V = Seq<NodeView>;

    closed spec fn view(&self) -> Seq<NodeView> {
        self.nodes@.map_values(|n: Node| n@)
    }
}

impl Tree {
    /// A root directory alone.
    fn new() -> (r: Tree)
        ensures
            tree_wf(r@),
            r@.len() == 1,
            r@[0].children.len() == 0,
    {
        let root = Node {
            name: string_of(&vec!['r', 'o', 'o', 't']),
            is_file: false,
            parent: None,
            children: Vec::new(),
            data: Vec::new(),
        };
        let mut nodes: Vec<Node> = Vec::new();
        nodes.push(root);
        let r = Tree { nodes };
        assert(r@[0] == r.nodes@[0]@);
        r
    }

    /// The position among the children of `d` of the first one named `name`.
    fn find_child(&self, d: usize, name: &String) -> (r: Option<usize>)
        requires
            tree_wf(self@),
            d < self@.len(),
        ensures
            r is None <==> child_named(self@, d as int, name@) is None,
            r matches Some(k) ==> k < self@[d as int].children.len()
                && child_named(self@, d as int, name@) == Some(self@[d as int].children[k as int]),
            r is None ==> forall|k: int| 0 <= k < self@[d as int].children.len()
                ==> self@[#[trigger] self@[d as int].children[k] as int].name != name@,
    {
        let ghost v = self@;
        let n = self.nodes[d].children.len();
        assert(self.nodes@[d as int]@ == v[d as int]);
        let mut k: usize = 0;
        while k < n
            invariant
                v == self@,
                tree_wf(v),
                d < v.len(),
                n == v[d as int].children.len(),
                0 <= k <= n,
                child_named(v, d as int, name@) == child_from(v, d as int, name@, k as int),
                forall|j: int| 0 <= j < k ==> v[#[trigger] v[d as int].children[j] as int].name != name@,
            decreases n - k,
        {
            let c = self.nodes[d].children[k];
            assert(c == v[d as int].children[k as int]);
            assert(self.nodes@[c as int]@ == v[c as int]);
            if self.nodes[c].name.eq(name) {
                return Some(k);
            }
            k = k + 1;
        }
        None
    }

    /// The node that `path` leads to from `search_head`.
    fn get_from_head_path_segments(&self, search_head: usize, path: &Vec<String>) -> (r: Option<usize>)
        requires
            tree_wf(self@),
            search_head < self@.len(),
        ensures
            r == lookup(self@, search_head as int, strings_view(path@)),
            r matches Some(i) ==> i < self@.len(),
    {
        let ghost v = self@;
        let ghost segs = strings_view(path@);
        let mut head = search_head;
        let mut i: usize = 0;
        assert(segs.skip(0) =~= segs);
        while i < path.len()
            invariant
                v == self@,
                tree_wf(v),
                segs == strings_view(path@),
                head < v.len(),
                0 <= i <= segs.len(),
                lookup(v, search_head as int, segs) == lookup(v, head as int, segs.skip(i as int)),
            decreases segs.len() - i,
        {
            assert(segs.skip(i as int).drop_first() =~= segs.skip(i as int + 1));
            assert(segs.skip(i as int)[0] == path@[i as int]@);
            assert(self.nodes@[head as int]@ == v[head as int]);
            if self.nodes[head].is_file {
                return None;
            }
            match self.find_child(head, &path[i]) {
                None => {
                    return None;
                },
                Some(k) => {
                    head = self.nodes[head].children[k];
                },
            }
            i = i + 1;
        }
        assert(segs.skip(i as int) =~= Seq::<Seq<char>>::empty());
        Some(head)
    }

    /// The node at `path` from the root.
    fn get(&self, path: &str) -> (r: Option<usize>)
        requires
            tree_wf(self@),
        ensures
            r == lookup(self@, 0, path_segments(path@)),
            r matches Some(i) ==> i < self@.len(),
    {
        let segs = split_path_str(path);
        self.get_from_head_path_segments(0, &segs)
    }
}


impl Tree {
    /// Adds an empty node named `name` as the last child of directory `parent`.
    fn add_node(&mut self, parent: usize, name: String, is_file: bool) -> (r: usize)
        requires
            tree_wf(old(self)@),
            parent < old(self)@.len(),
            !old(self)@[parent as int].is_file,
            forall|k: int| 0 <= k < old(self)@[parent as int].children.len()
                ==> old(self)@[#[trigger] old(self)@[parent as int].children[k] as int].name != name@,
        ensures
            tree_wf(final(self)@),
            r == old(self)@.len(),
            final(self)@ == grown(old(self)@, parent as int, NodeView {
                name: name@,
                is_file: is_file,
                parent: Some(parent),
                children: Seq::<usize>::empty(),
                data: Seq::<u8>::empty(),
            }),
    {
        let ghost v = self@;
        let idx = self.nodes.len();
        let node = Node { name, is_file, parent: Some(parent), children: Vec::new(), data: Vec::new() };
        self.nodes.push(node);
        let mut p = Node { name: String::new(), is_file: false, parent: None, children: Vec::new(), data: Vec::new() };
        self.nodes.set_and_swap(parent, &mut p);
        p.children.push(idx);
        self.nodes.set_and_swap(parent, &mut p);
        let ghost w = v.update(parent as int, NodeView {
            children: v[parent as int].children.push(idx),
            ..v[parent as int]
        }).push(NodeView {
            name: name@,
            is_file: is_file,
            parent: Some(parent),
            children: Seq::<usize>::empty(),
            data: Seq::<u8>::empty(),
        });
        assert(self@ =~= w);
        assert forall|i: int, k: int|
            #![trigger w[i].children[k]]
            0 <= i < w.len() && 0 <= k < w[i].children.len() implies {
                let c = w[i].children[k] as int;
                &&& 0 < c < w.len()
                &&& w[c].parent == Some(i as usize)
            } by {
            if i < v.len() && !(i == parent && k == v[i].children.len()) {
                assert(w[i].children[k] == v[i].children[k]);
            }
        }
        assert forall|i: int, k1: int, k2: int|
            0 <= i < w.len() && 0 <= k1 < k2 < w[i].children.len() implies w[#[trigger] w[i].children[k1] as int].name
                != w[#[trigger] w[i].children[k2] as int].name by {
            if i < v.len() {
                assert(w[i].children[k1] == v[i].children[k1]);
                if k2 < v[i].children.len() {
                    assert(w[i].children[k2] == v[i].children[k2]);
                }
            }
        }
        idx
    }
}


impl Tree {
    /// Replaces the data of file `i`.
    fn set_data(&mut self, i: usize, data: Vec<u8>)
        requires
            tree_wf(old(self)@),
            i < old(self)@.len(),
        ensures
            tree_wf(final(self)@),
            final(self)@ == old(self)@.update(i as int, NodeView { data: data@, ..old(self)@[i as int] }),
    {
        let ghost v = self@;
        let mut n = Node { name: String::new(), is_file: false, parent: None, children: Vec::new(), data: Vec::new() };
        self.nodes.set_and_swap(i, &mut n);
        n.data = data;
        self.nodes.set_and_swap(i, &mut n);
        let ghost w = v.update(i as int, NodeView { data: data@, ..v[i as int] });
        assert(self@ =~= w);
        assert forall|j: int, k: int|
            #![trigger w[j].children[k]]
            0 <= j < w.len() && 0 <= k < w[j].children.len() implies {
                let c = w[j].children[k] as int;
                &&& 0 < c < w.len()
                &&& w[c].parent == Some(j as usize)
            } by {
            assert(w[j].children[k] == v[j].children[k]);
        }
        assert forall|j: int, k1: int, k2: int|
            0 <= j < w.len() && 0 <= k1 < k2 < w[j].children.len() implies w[#[trigger] w[j].children[k1] as int].name
                != w[#[trigger] w[j].children[k2] as int].name by {
            assert(w[j].children[k1] == v[j].children[k1]);
            assert(w[j].children[k2] == v[j].children[k2]);
        }
    }

    /// Takes the `k`th child out of the children of `d`.
    fn unlink(&mut self, d: usize, k: usize)
        requires
            tree_wf(old(self)@),
            d < old(self)@.len(),
            k < old(self)@[d as int].children.len(),
        ensures
            tree_wf(final(self)@),
            final(self)@ == old(self)@.update(d as int, NodeView {
                children: old(self)@[d as int].children.remove(k as int),
                ..old(self)@[d as int]
            }),
    {
        let ghost v = self@;
        let mut n = Node { name: String::new(), is_file: false, parent: None, children: Vec::new(), data: Vec::new() };
        self.nodes.set_and_swap(d, &mut n);
        n.children.remove(k);
        self.nodes.set_and_swap(d, &mut n);
        let ghost w = v.update(d as int, NodeView { children: v[d as int].children.remove(k as int), ..v[d as int] });
        assert(self@ =~= w);
        assert forall|j: int, q: int|
            #![trigger w[j].children[q]]
            0 <= j < w.len() && 0 <= q < w[j].children.len() implies {
                let c = w[j].children[q] as int;
                &&& 0 < c < w.len()
                &&& w[c].parent == Some(j as usize)
            } by {
            if j == d && q >= k {
                assert(w[j].children[q] == v[j].children[q + 1]);
            } else {
                assert(w[j].children[q] == v[j].children[q]);
            }
        }
        assert forall|j: int, k1: int, k2: int|
            0 <= j < w.len() && 0 <= k1 < k2 < w[j].children.len() implies w[#[trigger] w[j].children[k1] as int].name
                != w[#[trigger] w[j].children[k2] as int].name by {
            let a1 = if j == d && k1 >= k { k1 + 1 } else { k1 };
            let a2 = if j == d && k2 >= k { k2 + 1 } else { k2 };
            assert(w[j].children[k1] == v[j].children[a1]);
            assert(w[j].children[k2] == v[j].children[a2]);
        }
    }

    /// Creates a file at `path`, with the directories that lead to it, or empties
    /// the file that is there.
    fn create_file(&mut self, path: &str) -> (r: Result<usize, IoError>)
        requires
            tree_wf(old(self)@),
        ensures
            tree_wf(final(self)@),
            r is Ok <==> can_create(old(self)@, 0, path_segments(path@)),
            r matches Err(e) ==> e == IoError::InvalidInput,
            r matches Ok(i) ==> i < final(self)@.len() && final(self)@[i as int].is_file
                && final(self)@[i as int].data.len() == 0
                && final(self)@[i as int].name == path_segments(path@).last()
                && lookup(final(self)@, 0, path_segments(path@)) == Some(i),
            r matches Ok(i) ==> (final(self)@, i as int) == create_spec(old(self)@, 0, path_segments(path@)),
            r is Err ==> final(self)@ == old(self)@,
    {
        let segs = split_path_str(path);
        let ghost sv = strings_view(segs@);
        let ghost v0 = self@;
        let n = segs.len();
        if n == 0 {
            return Err(IoError::InvalidInput);
        }
        let mut head: usize = 0;
        let mut i: usize = 0;
        assert(sv.skip(0) =~= sv);
        assert(sv.take(0) =~= Seq::<Seq<char>>::empty());
        while i + 1 < n
            invariant
                tree_wf(self@),
                sv == strings_view(segs@),
                sv == path_segments(path@),
                v0 == old(self)@,
                n == sv.len(),
                head < self@.len(),
                0 <= i < n,
                can_create(v0, 0, sv) == can_create(self@, head as int, sv.skip(i as int)),
                lookup(self@, 0, sv.take(i as int)) == Some(head),
                create_spec(v0, 0, sv) == create_spec(self@, head as int, sv.skip(i as int)),
                self@ != v0 ==> can_create(v0, 0, sv),
            decreases n - i,
        {
            let ghost v = self@;
            assert(sv.take(i as int + 1).drop_last() =~= sv.take(i as int));
            assert(sv.take(i as int + 1).last() == segs@[i as int]@);
            proof {
                lemma_lookup_last(v, 0, sv.take(i as int + 1));
            }
            assert(sv.skip(i as int).drop_first() =~= sv.skip(i as int + 1));
            assert(sv.skip(i as int)[0] == segs@[i as int]@);
            assert(self.nodes@[head as int]@ == v[head as int]);
            if self.nodes[head].is_file {
                assert(!can_create(v, head as int, sv.skip(i as int)));
                return Err(IoError::InvalidInput);
            }
            match self.find_child(head, &segs[i]) {
                Some(k) => {
                    head = self.nodes[head].children[k];
                },
                None => {
                    let name = segs[i].clone();
                    let ghost node = NodeView {
                        name: name@,
                        is_file: false,
                        parent: Some(head),
                        children: Seq::<usize>::empty(),
                        data: Seq::<u8>::empty(),
                    };
                    let count = self.nodes.len();
                    assert(v.len() == count);
                    proof {
                        lemma_lookup_grown(v, head as int, node, 0, sv.take(i as int));
                        lemma_child_from_new(v, head as int, node, 0);
                        lemma_lookup_last(grown(v, head as int, node), 0, sv.take(i as int + 1));
                    }
                    let d = self.add_node(head, name, false);
                    assert(self@[d as int].children.len() == 0);
                    head = d;
                },
            }
            i = i + 1;
        }
        let ghost v = self@;
        assert(sv.take(n as int) =~= sv);
        assert(sv.take(n as int).drop_last() =~= sv.take(i as int));
        proof {
            lemma_lookup_last(v, 0, sv);
        }
        assert(sv.skip(i as int)[0] == segs@[i as int]@);
        assert(sv.skip(i as int).len() == 1);
        assert(sv.last() == segs@[i as int]@);
        assert(self.nodes@[head as int]@ == v[head as int]);
        if self.nodes[head].is_file {
            return Err(IoError::InvalidInput);
        }
        match self.find_child(head, &segs[i]) {
            Some(k) => {
                let c = self.nodes[head].children[k];
                proof {
                    lemma_child_from_in(v, head as int, sv.last(), 0);
                }
                assert(self.nodes@[c as int]@ == v[c as int]);
                if self.nodes[c].is_file {
                    self.set_data(c, Vec::new());
                    proof {
                        assert(same_shape(v, self@));
                        lemma_lookup_same_shape(v, self@, 0, sv);
                    }
                    Ok(c)
                } else {
                    Err(IoError::InvalidInput)
                }
            },
            None => {
                let name = segs[i].clone();
                let ghost node = NodeView {
                    name: name@,
                    is_file: true,
                    parent: Some(head),
                    children: Seq::<usize>::empty(),
                    data: Seq::<u8>::empty(),
                };
                let count = self.nodes.len();
                assert(v.len() == count);
                proof {
                    lemma_lookup_grown(v, head as int, node, 0, sv.take(i as int));
                    lemma_child_from_new(v, head as int, node, 0);
                    lemma_lookup_last(grown(v, head as int, node), 0, sv);
                }
                let f = self.add_node(head, name, true);
                Ok(f)
            },
        }
    }

    /// The names of the children of node `d`.
    fn names_of(&self, d: usize) -> (r: Vec<String>)
        requires
            tree_wf(self@),
            d < self@.len(),
        ensures
            strings_view(r@) == children_names(self@, d as int),
    {
        let ghost v = self@;
        assert(self.nodes@[d as int]@ == v[d as int]);
        let n = self.nodes[d].children.len();
        let mut out: Vec<String> = Vec::new();
        let mut k: usize = 0;
        while k < n
            invariant
                v == self@,
                tree_wf(v),
                d < v.len(),
                n == v[d as int].children.len(),
                0 <= k <= n,
                strings_view(out@) == children_names(v, d as int).take(k as int),
            decreases n - k,
        {
            let c = self.nodes[d].children[k];
            assert(c == v[d as int].children[k as int]);
            assert(self.nodes@[c as int]@ == v[c as int]);
            let ghost before = strings_view(out@);
            let name = self.nodes[c].name.clone();
            assert(name@ == v[c as int].name);
            out.push(name);
            assert(strings_view(out@) =~= before.push(v[c as int].name));
            assert(strings_view(out@) =~= children_names(v, d as int).take(k as int + 1));
            k = k + 1;
        }
        assert(children_names(v, d as int).take(n as int) =~= children_names(v, d as int));
        out
    }
}

/// The names of the children of node `d`, in order.
pub open spec fn children_names(v: Seq<NodeView>, d: int) -> Seq<Seq<char>> {
    v[d].children.map_values(|c: usize| v[c as int].name)
}

/// A child found by name is a child of that node.
proof fn lemma_child_from_in(v: Seq<NodeView>, d: int, name: Seq<char>, k: int)
    requires
        tree_wf(v),
        0 <= d < v.len(),
    ensures
        child_from(v, d, name, k) matches Some(c) ==> 0 < c < v.len() && v[c as int].name == name
            && v[d].children.contains(c),
    decreases v[d].children.len() - k,
{
    if 0 <= k < v[d].children.len() {
        assert(v[d].children[k] == v[d].children[k]);
        lemma_child_from_in(v, d, name, k + 1);
    }
}

/// Two tables whose nodes have the same names, kinds and children.
pub open spec fn same_shape(v: Seq<NodeView>, w: Seq<NodeView>) -> bool {
    &&& v.len() == w.len()
    &&& forall|i: int|
        #![trigger v[i]]
        0 <= i < v.len() ==> v[i].name == w[i].name && v[i].is_file == w[i].is_file && v[i].children
            == w[i].children
}

proof fn lemma_child_from_same_shape(v: Seq<NodeView>, w: Seq<NodeView>, d: int, name: Seq<char>, k: int)
    requires
        tree_wf(v),
        same_shape(v, w),
        0 <= d < v.len(),
    ensures
        child_from(v, d, name, k) == child_from(w, d, name, k),
    decreases v[d].children.len() - k,
{
    assert(v[d].children == w[d].children);
    if 0 <= k < v[d].children.len() {
        let c = v[d].children[k] as int;
        assert(v[c].name == w[c].name);
        lemma_child_from_same_shape(v, w, d, name, k + 1);
    }
}

/// Lookups see only names, kinds and children.
proof fn lemma_lookup_same_shape(v: Seq<NodeView>, w: Seq<NodeView>, h: int, segs: Seq<Seq<char>>)
    requires
        tree_wf(v),
        same_shape(v, w),
        0 <= h < v.len(),
    ensures
        lookup(v, h, segs) == lookup(w, h, segs),
    decreases segs.len(),
{
    if segs.len() > 0 {
        assert(v[h].is_file == w[h].is_file);
        lemma_child_from_same_shape(v, w, h, segs[0], 0);
        lemma_child_from_in(v, h, segs[0], 0);
        match child_named(v, h, segs[0]) {
            Some(c) => lemma_lookup_same_shape(v, w, c as int, segs.drop_first()),
            None => {},
        }
    }
}

/// The table after `add_node` put node `n` under `p`.
pub open spec fn grown(v: Seq<NodeView>, p: int, node: NodeView) -> Seq<NodeView> {
    v.update(p, NodeView { children: v[p].children.push(v.len() as usize), ..v[p] }).push(node)
}

proof fn lemma_child_from_grown(v: Seq<NodeView>, p: int, node: NodeView, d: int, name: Seq<char>, k: int)
    requires
        tree_wf(v),
        0 <= p < v.len(),
        0 <= d < v.len(),
        child_from(v, d, name, k) is Some,
    ensures
        child_from(grown(v, p, node), d, name, k) == child_from(v, d, name, k),
    decreases v[d].children.len() - k,
{
    let w = grown(v, p, node);
    if 0 <= k < v[d].children.len() {
        assert(w[d].children[k] == v[d].children[k]);
        let c = v[d].children[k] as int;
        assert(w[c].name == v[c].name);
        if v[c].name != name {
            lemma_child_from_grown(v, p, node, d, name, k + 1);
        }
    }
}

/// Lookups that succeed keep their result when a node is added.
proof fn lemma_lookup_grown(v: Seq<NodeView>, p: int, node: NodeView, h: int, segs: Seq<Seq<char>>)
    requires
        tree_wf(v),
        0 <= p < v.len(),
        0 <= h < v.len(),
        lookup(v, h, segs) is Some,
    ensures
        lookup(grown(v, p, node), h, segs) == lookup(v, h, segs),
    decreases segs.len(),
{
    let w = grown(v, p, node);
    if segs.len() > 0 {
        assert(w[h].is_file == v[h].is_file);
        lemma_child_from_grown(v, p, node, h, segs[0], 0);
        lemma_child_from_in(v, h, segs[0], 0);
        let c = child_named(v, h, segs[0])->Some_0;
        lemma_lookup_grown(v, p, node, c as int, segs.drop_first());
    }
}

/// The added node is found by its name under its parent when no other child
/// there has that name.
proof fn lemma_child_from_new(v: Seq<NodeView>, p: int, node: NodeView, k: int)
    requires
        v.len() <= usize::MAX,
        0 <= p < v.len(),
        0 <= k <= v[p].children.len(),
        forall|j: int| 0 <= j < v[p].children.len() ==> v[#[trigger] v[p].children[j] as int].name != node.name,
        forall|j: int| 0 <= j < v[p].children.len() ==> 0 <= #[trigger] v[p].children[j] < v.len(),
    ensures
        child_from(grown(v, p, node), p, node.name, k) == Some(v.len() as usize),
    decreases v[p].children.len() - k,
{
    let w = grown(v, p, node);
    if k < v[p].children.len() {
        assert(w[p].children[k] == v[p].children[k]);
        let c = v[p].children[k] as int;
        assert(w[c].name == v[c].name);
        lemma_child_from_new(v, p, node, k + 1);
    } else {
        assert(w[p].children[k] == v.len() as usize);
        assert(w[v.len() as int] == node);
    }
}

/// Looking a path up is looking up all of it but its last part, then that part.
proof fn lemma_lookup_last(v: Seq<NodeView>, h: int, segs: Seq<Seq<char>>)
    requires
        segs.len() > 0,
        0 <= h <= usize::MAX,
    ensures
        lookup(v, h, segs) == match lookup(v, h, segs.drop_last()) {
            None => None,
            Some(p) => if v[p as int].is_file {
                None
            } else {
                child_named(v, p as int, segs.last())
            },
        },
    decreases segs.len(),
{
    if segs.len() == 1 {
        assert(segs.drop_last() =~= Seq::<Seq<char>>::empty());
        assert(segs.drop_first() =~= Seq::<Seq<char>>::empty());
        assert(segs.last() == segs[0]);
    } else {
        assert(segs.drop_first().last() == segs.last());
        assert(segs.drop_last()[0] == segs[0]);
        if !v[h].is_file {
            match child_named(v, h, segs[0]) {
                Some(c) => {
                    lemma_lookup_last(v, c as int, segs.drop_first());
                    assert(segs.drop_first().drop_last() =~= segs.drop_last().drop_first());
                },
                None => {},
            }
        }
    }
}

impl Tree {
    fn is_file(&self, i: usize) -> (r: bool)
        requires
            i < self@.len(),
        ensures
            r == self@[i as int].is_file,
    {
        assert(self.nodes@[i as int]@ == self@[i as int]);
        self.nodes[i].is_file
    }

    fn data_len(&self, i: usize) -> (r: usize)
        requires
            i < self@.len(),
        ensures
            r == self@[i as int].data.len(),
    {
        assert(self.nodes@[i as int]@ == self@[i as int]);
        self.nodes[i].data.len()
    }

    /// The bytes of node `i` from `pos` on, at most `max` of them.
    fn read_data(&self, i: usize, pos: usize, max: usize) -> (r: Vec<u8>)
        requires
            i < self@.len(),
        ensures
            r@ == read_spec(self@[i as int].data, pos as int, max as int),
    {
        assert(self.nodes@[i as int]@ == self@[i as int]);
        let data = &self.nodes[i].data;
        let mut out: Vec<u8> = Vec::new();
        let mut p = pos;
        while p < data.len() && out.len() < max
            invariant
                pos <= p,
                p <= data@.len() || p == pos,
                out@ == data@.subrange(pos as int, p as int) || (p == pos && out@.len() == 0),
                out@.len() == p - pos,
                out@.len() <= max,
            decreases data@.len() - p,
        {
            out.push(data[p]);
            assert(out@ =~= data@.subrange(pos as int, p as int + 1));
            p = p + 1;
        }
        proof {
            if pos < data@.len() {
                assert(out@ =~= read_spec(data@, pos as int, max as int));
            } else {
                assert(out@ =~= read_spec(data@, pos as int, max as int));
            }
        }
        out
    }

    /// Node `i`'s data with `bytes` after it.
    fn appended_data(&self, i: usize, bytes: &[u8]) -> (r: Vec<u8>)
        requires
            i < self@.len(),
        ensures
            r@ == self@[i as int].data + bytes@,
    {
        assert(self.nodes@[i as int]@ == self@[i as int]);
        let mut out = self.nodes[i].data.clone();
        let mut k: usize = 0;
        while k < bytes.len()
            invariant
                0 <= k <= bytes@.len(),
                out@ == self@[i as int].data + bytes@.take(k as int),
            decreases bytes@.len() - k,
        {
            out.push(bytes[k]);
            assert(out@ =~= self@[i as int].data + bytes@.take(k as int + 1));
            k = k + 1;
        }
        assert(bytes@.take(k as int) =~= bytes@);
        out
    }
}

/// What a read of at most `max` bytes from `pos` gives.
pub open spec fn read_spec(data: Seq<u8>, pos: int, max: int) -> Seq<u8> {
    if pos >= data.len() {
        Seq::<u8>::empty()
    } else if pos + max <= data.len() {
        data.subrange(pos, pos + max)
    } else {
        data.subrange(pos, data.len() as int)
    }
}

/// Whether a stream reads or writes.
#[derive(Clone, Copy, Debug, PartialEq, Eq, Structural)]
pub enum FileStreamMode {
    WriteOnly,
    ReadOnly,
}

/// A stream on a file of a `VirtualFileSystem`: the file's node, the mode and
/// the position of the next read.
pub struct VirtualFileStream {
    pub file: usize,
    pub mode: FileStreamMode,
    pub pointer_pos: usize,
}

/// The table after a file is made at `segs` below `head`, and the file's index:
/// each part that names no child of the directory reached so far becomes a
/// new node added as its last child (a directory, or the file for the last
/// part); a file already at the path keeps its place and loses its data.
pub open spec fn create_spec(v: Seq<NodeView>, head: int, segs: Seq<Seq<char>>) -> (Seq<NodeView>, int)
    decreases segs.len(),
{
    if segs.len() == 0 {
        (v, -1)
    } else {
        match child_named(v, head, segs[0]) {
            Some(c) => if segs.len() == 1 {
                (v.update(c as int, NodeView { data: Seq::<u8>::empty(), ..v[c as int] }), c as int)
            } else {
                create_spec(v, c as int, segs.drop_first())
            },
            None => {
                let node = NodeView {
                    name: segs[0],
                    is_file: segs.len() == 1,
                    parent: Some(head as usize),
                    children: Seq::<usize>::empty(),
                    data: Seq::<u8>::empty(),
                };
                if segs.len() == 1 {
                    (grown(v, head, node), v.len() as int)
                } else {
                    create_spec(grown(v, head, node), v.len() as int, segs.drop_first())
                }
            },
        }
    }
}

/// An in-memory file system: a tree of directories and files held in a table.
pub struct VirtualFileSystem {
    tree: Tree,
    log: Ghost<Seq<FsCall>>,
}

impl View for VirtualFileSystem {
    type V = Seq<NodeView>;

    closed spec fn view(&self) -> Seq<NodeView> {
        self.tree@
    }
}

impl VirtualFileSystem {
    #[verifier::type_invariant]
    spec fn well_formed(&self) -> bool {
        tree_wf(self.tree@)
    }

    /// An empty file system: a root directory alone.
    pub fn new() -> (r: VirtualFileSystem)
        ensures
            tree_wf(r@),
            r@.len() == 1,
            r@[0].children.len() == 0,
    {
        VirtualFileSystem { tree: Tree::new(), log: Ghost(Seq::empty()) }
    }

    /// The node at `path` from the root.
    fn get(&self, path: &str) -> (r: Option<usize>)
        ensures
            r == lookup(self@, 0, path_segments(path@)),
            r matches Some(i) ==> i < self@.len(),
    {
        proof {
            use_type_invariant(self);
        }
        self.tree.get(path)
    }

    /// The node at `path` from node `search_head`.
    fn get_from_head(&self, search_head: usize, path: &str) -> (r: Option<usize>)
        requires
            search_head < self@.len(),
        ensures
            r == lookup(self@, search_head as int, path_segments(path@)),
    {
        proof {
            use_type_invariant(self);
        }
        let segs = split_path_str(path);
        self.tree.get_from_head_path_segments(search_head, &segs)
    }

    /// Creates a file at `path`, with the directories that lead to it, or empties
    /// the file that is there.
    fn create_file(&mut self, path: &str) -> (r: Result<usize, IoError>)
        ensures
            r is Ok <==> can_create(old(self)@, 0, path_segments(path@)),
            r matches Err(e) ==> e == IoError::InvalidInput,
            r matches Ok(i) ==> i < final(self)@.len() && final(self)@[i as int].is_file
                && final(self)@[i as int].data.len() == 0
                && final(self)@[i as int].name == path_segments(path@).last()
                && lookup(final(self)@, 0, path_segments(path@)) == Some(i),
            final(self).log@ == old(self).log@,
            tree_wf(final(self)@),
            r matches Ok(i) ==> (final(self)@, i as int) == create_spec(old(self)@, 0, path_segments(path@)),
            r is Err ==> final(self)@ == old(self)@,
    {
        proof {
            use_type_invariant(&*self);
        }
        let mut tree = Tree::new();
        core::mem::swap(&mut self.tree, &mut tree);
        let r = tree.create_file(path);
        core::mem::swap(&mut self.tree, &mut tree);
        r
    }
}

impl VirtualFileSystem {
    fn create_file_stream_inner(&mut self, path: &str) -> (r: Result<VirtualFileStream, IoError>)
        ensures
            final(self).log@ == old(self).log@,
            tree_wf(final(self)@),
            r is Ok <==> can_create(old(self)@, 0, path_segments(path@)),
            r matches Err(e) ==> e == IoError::InvalidInput,
            r matches Ok(s) ==> s.file < final(self)@.len() && final(self)@[s.file as int].is_file
                && final(self)@[s.file as int].data.len() == 0 && s.mode == FileStreamMode::WriteOnly
                && s.pointer_pos == 0 && lookup(final(self)@, 0, path_segments(path@)) == Some(s.file),
            r matches Ok(s) ==> (final(self)@, s.file as int) == create_spec(old(self)@, 0, path_segments(path@)),
            r is Err ==> final(self)@ == old(self)@,
    {
        proof {
            use_type_invariant(&*self);
        }
        match self.create_file(path) {
            Ok(i) => Ok(VirtualFileStream { file: i, mode: FileStreamMode::WriteOnly, pointer_pos: 0 }),
            Err(e) => Err(e),
        }
    }

    fn open_file_stream_inner(&mut self, path: &str) -> (r: Result<VirtualFileStream, IoError>)
        ensures
            final(self).log@ == old(self).log@,
            tree_wf(final(self)@),
            final(self)@ == old(self)@,
            match lookup(old(self)@, 0, path_segments(path@)) {
                None => r matches Err(e) && e == IoError::NotFound,
                Some(i) => if old(self)@[i as int].is_file {
                    r matches Ok(s) && s.file == i && s.mode == FileStreamMode::ReadOnly && s.pointer_pos == 0
                } else {
                    r matches Err(e) && e == IoError::InvalidInput
                },
            },
    {
        proof {
            use_type_invariant(&*self);
        }
        match self.get(path) {
            None => Err(IoError::NotFound),
            Some(i) => if self.tree.is_file(i) {
                Ok(VirtualFileStream { file: i, mode: FileStreamMode::ReadOnly, pointer_pos: 0 })
            } else {
                Err(IoError::InvalidInput)
            },
        }
    }

    fn remove_file_inner(&mut self, path: &str) -> (r: Result<(), IoError>)
        ensures
            final(self).log@ == old(self).log@,
            tree_wf(final(self)@),
            r is Ok <==> path_segments(path@).len() > 0 && lookup(old(self)@, 0, path_segments(path@)) is Some,
            r is Err ==> final(self)@ == old(self)@,
            path_segments(path@).len() == 0 ==> (r matches Err(e) && e == IoError::InvalidInput),
            path_segments(path@).len() > 0 && r is Err ==> (r matches Err(e) && e == IoError::NotFound),
            r is Ok ==> exists|d: int, k: int|
                0 <= d < old(self)@.len() && 0 <= k < old(self)@[d].children.len()
                && old(self)@[d].children[k] == lookup(old(self)@, 0, path_segments(path@))->Some_0
                && final(self)@ == old(self)@.update(d, NodeView {
                    children: old(self)@[d].children.remove(k),
                    ..old(self)@[d]
                }),
    {
        proof {
            use_type_invariant(&*self);
        }
        let ghost v = self@;
        let mut segs = split_path_str(path);
        let ghost sv = strings_view(segs@);
        if segs.len() == 0 {
            return Err(IoError::InvalidInput);
        }
        let last = segs.pop().unwrap();
        proof {
            assert(strings_view(segs@) =~= sv.drop_last());
            lemma_lookup_last(v, 0, sv);
        }
        let parent = match self.tree.get_from_head_path_segments(0, &segs) {
            None => return Err(IoError::NotFound),
            Some(p) => p,
        };
        if self.tree.is_file(parent) {
            return Err(IoError::NotFound);
        }
        match self.tree.find_child(parent, &last) {
            None => Err(IoError::NotFound),
            Some(k) => {
                let mut tree = Tree::new();
                core::mem::swap(&mut self.tree, &mut tree);
                tree.unlink(parent, k);
                core::mem::swap(&mut self.tree, &mut tree);
                assert(0 <= parent < v.len() && 0 <= k < v[parent as int].children.len());
                Ok(())
            },
        }
    }

    fn read_inner(&mut self, stream: &mut VirtualFileStream, max: usize) -> (r: Result<Vec<u8>, IoError>)
        ensures
            final(self).log@ == old(self).log@,
            tree_wf(final(self)@),
            final(self)@ == old(self)@,
            old(stream).mode != FileStreamMode::ReadOnly ==> (r matches Err(e) && e == IoError::PermissionDenied),
            old(stream).mode == FileStreamMode::ReadOnly && old(stream).file < old(self)@.len()
                && old(self)@[old(stream).file as int].is_file ==> (r matches Ok(v)
                && v@ == read_spec(old(self)@[old(stream).file as int].data, old(stream).pointer_pos as int, max as int)
                && final(stream).pointer_pos == old(stream).pointer_pos + v@.len()
                && final(stream).file == old(stream).file && final(stream).mode == old(stream).mode),
    {
        proof {
            use_type_invariant(&*self);
        }
        if stream.mode != FileStreamMode::ReadOnly {
            return Err(IoError::PermissionDenied);
        }
        if stream.file >= self.tree.nodes.len() || !self.tree.is_file(stream.file) {
            return Err(IoError::Other);
        }
        let out = self.tree.read_data(stream.file, stream.pointer_pos, max);
        let total = self.tree.data_len(stream.file);
        assert(out@.len() == 0 || stream.pointer_pos + out@.len() <= total);
        stream.pointer_pos = stream.pointer_pos + out.len();
        Ok(out)
    }

    fn write_inner(&mut self, stream: &mut VirtualFileStream, bytes: &[u8]) -> (r: Result<usize, IoError>)
        ensures
            final(self).log@ == old(self).log@,
            tree_wf(final(self)@),
            old(stream).mode != FileStreamMode::WriteOnly ==> (r matches Err(e) && e == IoError::PermissionDenied),
            r is Err ==> final(self)@ == old(self)@,
            old(stream).mode == FileStreamMode::WriteOnly && old(stream).file < old(self)@.len()
                && old(self)@[old(stream).file as int].is_file ==> (r matches Ok(n) && n == bytes@.len()
                && final(self)@ == old(self)@.update(old(stream).file as int, NodeView {
                    data: old(self)@[old(stream).file as int].data + bytes@,
                    ..old(self)@[old(stream).file as int]
                })),
    {
        proof {
            use_type_invariant(&*self);
        }
        if stream.mode != FileStreamMode::WriteOnly {
            return Err(IoError::PermissionDenied);
        }
        if stream.file >= self.tree.nodes.len() || !self.tree.is_file(stream.file) {
            return Err(IoError::Other);
        }
        let data = self.tree.appended_data(stream.file, bytes);
        let n = data.len();
        let mut tree = Tree::new();
        core::mem::swap(&mut self.tree, &mut tree);
        tree.set_data(stream.file, data);
        core::mem::swap(&mut self.tree, &mut tree);
        stream.pointer_pos = n;
        Ok(bytes.len())
    }
}

impl FileSystem for VirtualFileSystem {
    type Stream = VirtualFileStream;

    closed spec fn calls(&self) -> Seq<FsCall> {
        self.log@
    }

    fn ls(&self, path: &str) -> (r: Result<Vec<String>, IoError>)
        ensures
            match lookup(self@, 0, path_segments(path@)) {
                None => r matches Err(e) && e == IoError::NotFound,
                Some(i) => if self@[i as int].is_file {
                    r matches Err(e) && e == IoError::InvalidInput
                } else {
                    r matches Ok(names) && strings_view(names@) == children_names(self@, i as int)
                },
            },
    {
        proof {
            use_type_invariant(self);
        }
        match self.get(path) {
            None => Err(IoError::NotFound),
            Some(i) => if self.tree.is_file(i) {
                Err(IoError::InvalidInput)
            } else {
                Ok(self.tree.names_of(i))
            },
        }
    }

    fn create_file_stream(&mut self, path: &str) -> (r: Result<VirtualFileStream, IoError>)
        ensures
            final(self).calls() == old(self).calls().push(FsCall::Create(path@, r is Ok)),
            tree_wf(final(self)@),
            r is Ok <==> can_create(old(self)@, 0, path_segments(path@)),
            r matches Err(e) ==> e == IoError::InvalidInput,
            r matches Ok(s) ==> s.file < final(self)@.len() && final(self)@[s.file as int].is_file
                && final(self)@[s.file as int].data.len() == 0 && s.mode == FileStreamMode::WriteOnly
                && s.pointer_pos == 0 && lookup(final(self)@, 0, path_segments(path@)) == Some(s.file),
            r matches Ok(s) ==> (final(self)@, s.file as int) == create_spec(old(self)@, 0, path_segments(path@)),
            r is Err ==> final(self)@ == old(self)@,
    {
        let r = self.create_file_stream_inner(path);
        proof {
            use_type_invariant(&*self);
        }
        self.log = Ghost(self.log@.push(FsCall::Create(path@, r is Ok)));
        r
    }

    fn open_file_stream(&mut self, path: &str) -> (r: Result<VirtualFileStream, IoError>)
        ensures
            final(self).calls() == old(self).calls().push(FsCall::Open(path@, r is Ok)),
            tree_wf(final(self)@),
            final(self)@ == old(self)@,
            match lookup(old(self)@, 0, path_segments(path@)) {
                None => r matches Err(e) && e == IoError::NotFound,
                Some(i) => if old(self)@[i as int].is_file {
                    r matches Ok(s) && s.file == i && s.mode == FileStreamMode::ReadOnly && s.pointer_pos == 0
                } else {
                    r matches Err(e) && e == IoError::InvalidInput
                },
            },
    {
        let r = self.open_file_stream_inner(path);
        proof {
            use_type_invariant(&*self);
        }
        self.log = Ghost(self.log@.push(FsCall::Open(path@, r is Ok)));
        r
    }

    /// Removes the entry at `path` from its directory. Streams already open on
    /// a removed file keep working.
    fn remove_file(&mut self, path: &str) -> (r: Result<(), IoError>)
        ensures
            final(self).calls() == old(self).calls().push(FsCall::Remove(path@, r is Ok)),
            tree_wf(final(self)@),
            r is Ok <==> path_segments(path@).len() > 0 && lookup(old(self)@, 0, path_segments(path@)) is Some,
            r is Err ==> final(self)@ == old(self)@,
            path_segments(path@).len() == 0 ==> (r matches Err(e) && e == IoError::InvalidInput),
            path_segments(path@).len() > 0 && r is Err ==> (r matches Err(e) && e == IoError::NotFound),
            r is Ok ==> exists|d: int, k: int|
                0 <= d < old(self)@.len() && 0 <= k < old(self)@[d].children.len()
                && old(self)@[d].children[k] == lookup(old(self)@, 0, path_segments(path@))->Some_0
                && final(self)@ == old(self)@.update(d, NodeView {
                    children: old(self)@[d].children.remove(k),
                    ..old(self)@[d]
                }),
    {
        let r = self.remove_file_inner(path);
        proof {
            use_type_invariant(&*self);
        }
        self.log = Ghost(self.log@.push(FsCall::Remove(path@, r is Ok)));
        r
    }

    fn read(&mut self, stream: &mut VirtualFileStream, max: usize) -> (r: Result<Vec<u8>, IoError>)
        ensures
            final(self).calls() == old(self).calls().push(FsCall::Read(max, read_record(r))),
            tree_wf(final(self)@),
            final(self)@ == old(self)@,
            old(stream).mode != FileStreamMode::ReadOnly ==> (r matches Err(e) && e == IoError::PermissionDenied),
            old(stream).mode == FileStreamMode::ReadOnly && old(stream).file < old(self)@.len()
                && old(self)@[old(stream).file as int].is_file ==> (r matches Ok(v)
                && v@ == read_spec(old(self)@[old(stream).file as int].data, old(stream).pointer_pos as int, max as int)
                && final(stream).pointer_pos == old(stream).pointer_pos + v@.len()
                && final(stream).file == old(stream).file && final(stream).mode == old(stream).mode),
    {
        let r = self.read_inner(stream, max);
        proof {
            use_type_invariant(&*self);
        }
        self.log = Ghost(self.log@.push(FsCall::Read(max, read_record(r))));
        r
    }

    fn write(&mut self, stream: &mut VirtualFileStream, bytes: &[u8]) -> (r: Result<usize, IoError>)
        ensures
            final(self).calls() == old(self).calls().push(FsCall::Write(bytes@, r is Ok)),
            tree_wf(final(self)@),
            old(stream).mode != FileStreamMode::WriteOnly ==> (r matches Err(e) && e == IoError::PermissionDenied),
            r is Err ==> final(self)@ == old(self)@,
            old(stream).mode == FileStreamMode::WriteOnly && old(stream).file < old(self)@.len()
                && old(self)@[old(stream).file as int].is_file ==> (r matches Ok(n) && n == bytes@.len()
                && final(self)@ == old(self)@.update(old(stream).file as int, NodeView {
                    data: old(self)@[old(stream).file as int].data + bytes@,
                    ..old(self)@[old(stream).file as int]
                })),
    {
        let r = self.write_inner(stream, bytes);
        proof {
            use_type_invariant(&*self);
        }
        self.log = Ghost(self.log@.push(FsCall::Write(bytes@, r is Ok)));
        r
    }
}

} // verus!
