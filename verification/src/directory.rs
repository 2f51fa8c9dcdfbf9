//! Private directories: an exhaustively matched tagged union of file and
//! directory nodes, an entry map from unique names to child nodes, and the
//! path operations over it. A directory value owns its subtree; building and
//! linking happen in memory, and nothing is durable until a store step.

use crate::error::FsError;
use crate::file::{Metadata, NodeKind, PrivateFile};
use vstd::prelude::*;

verus! {

pub struct DirEntry {
    pub name: String,
    pub node: PrivateNode,
}

/// A directory node: metadata and an entry map from names, unique within the
/// directory, to child nodes.
pub struct PrivateDirectory {
    pub metadata: Metadata,
    pub entries: Vec<DirEntry>,
}

/// A filesystem node: a file or a directory.
pub enum PrivateNode {
    File(PrivateFile),
    Dir(PrivateDirectory),
}

pub open spec fn node_wf(n: PrivateNode) -> bool
    decreases n,
{
    match n {
        PrivateNode::File(f) => f.wf(),
        PrivateNode::Dir(d) => dir_wf(d),
    }
}

pub open spec fn dir_wf(d: PrivateDirectory) -> bool
    decreases d,
{
    &&& d.metadata.kind == NodeKind::Directory
    &&& forall|i: int, j: int|
        0 <= i < j < d.entries@.len() ==> d.entries@[i].name@ != d.entries@[j].name@
    &&& forall|i: int| 0 <= i < d.entries@.len() ==> node_wf(#[trigger] d.entries@[i].node)
}

/// The metadata a listing reports for a node.
pub open spec fn node_metadata(n: PrivateNode) -> Metadata {
    match n {
        PrivateNode::File(f) => f.metadata,
        PrivateNode::Dir(d) => d.metadata,
    }
}

pub open spec fn has_entry(entries: Seq<DirEntry>, name: Seq<char>) -> bool {
    exists|i: int| 0 <= i < entries.len() && entries[i].name@ == name
}

pub open spec fn entry_index(entries: Seq<DirEntry>, name: Seq<char>) -> int {
    choose|i: int| 0 <= i < entries.len() && entries[i].name@ == name
}

pub open spec fn entry_node(entries: Seq<DirEntry>, name: Seq<char>) -> PrivateNode {
    entries[entry_index(entries, name)].node
}

proof fn lemma_entry_at(entries: Seq<DirEntry>, j: int)
    requires
        forall|p: int, q: int| 0 <= p < q < entries.len() ==> entries[p].name@ != entries[q].name@,
        0 <= j < entries.len(),
    ensures
        has_entry(entries, entries[j].name@),
        entry_index(entries, entries[j].name@) == j,
        entry_node(entries, entries[j].name@) == entries[j].node,
{
    assert(has_entry(entries, entries[j].name@));
    let c = entry_index(entries, entries[j].name@);
    assert(0 <= c < entries.len() && entries[c].name@ == entries[j].name@);
    assert(c == j);
}

/// The node reached from `d` by the path segments from index `i` on: `None`
/// as soon as a segment is missing or an inner segment names a file.
pub open spec fn spec_get_node_from(d: PrivateDirectory, path: Seq<Seq<char>>, i: int) -> Option<
    PrivateNode,
>
    decreases path.len() - i,
{
    if i < 0 || i >= path.len() {
        None
    } else if !has_entry(d.entries@, path[i]) {
        None
    } else {
        let n = entry_node(d.entries@, path[i]);
        if i == path.len() - 1 {
            Some(n)
        } else {
            match n {
                PrivateNode::File(_) => None,
                PrivateNode::Dir(d2) => spec_get_node_from(d2, path, i + 1),
            }
        }
    }
}

/// The directory reached from `d` by the path segments from index `i` on;
/// the empty remainder resolves to `d` itself.
pub open spec fn spec_resolve_from(d: PrivateDirectory, path: Seq<Seq<char>>, i: int) -> Option<
    PrivateDirectory,
>
    decreases path.len() - i,
{
    if i < 0 || i >= path.len() {
        Some(d)
    } else if !has_entry(d.entries@, path[i]) {
        None
    } else {
        match entry_node(d.entries@, path[i]) {
            PrivateNode::File(_) => None,
            PrivateNode::Dir(d2) => spec_resolve_from(d2, path, i + 1),
        }
    }
}

/// Whether writing a file at the path from index `i` on can succeed: every
/// inner segment is missing or an existing directory, and the leaf segment is
/// missing or an existing file.
pub open spec fn spec_can_write(d: PrivateDirectory, path: Seq<Seq<char>>, i: int) -> bool
    decreases path.len() - i,
{
    if i < 0 || i >= path.len() {
        false
    } else if i == path.len() - 1 {
        !has_entry(d.entries@, path[i]) || entry_node(d.entries@, path[i]) is File
    } else if !has_entry(d.entries@, path[i]) {
        true
    } else {
        match entry_node(d.entries@, path[i]) {
            PrivateNode::File(_) => false,
            PrivateNode::Dir(d2) => spec_can_write(d2, path, i + 1),
        }
    }
}

fn find_entry(entries: &Vec<DirEntry>, name: &String) -> (r: Option<usize>)
    ensures
        match r {
            Some(j) => j < entries@.len() && entries@[j as int].name@ == name@,
            None => !has_entry(entries@, name@),
        },
{
    let mut j: usize = 0;
    while j < entries.len()
        invariant
            j <= entries@.len(),
            forall|p: int| 0 <= p < j ==> entries@[p].name@ != name@,
        decreases entries@.len() - j,
    {
        if entries[j].name == *name {
            return Some(j);
        }
        j = j + 1;
    }
    None
}

fn node_meta(n: &PrivateNode) -> (r: Metadata)
    ensures
        r == node_metadata(*n),
{
    match n {
        PrivateNode::File(f) => f.metadata,
        PrivateNode::Dir(d) => d.metadata,
    }
}

fn get_node_rec<'a>(d: &'a PrivateDirectory, path: &Vec<String>, i: usize) -> (r: Option<
    &'a PrivateNode,
>)
    requires
        dir_wf(*d),
        i <= path@.len(),
    ensures
        match r {
            Some(n) => spec_get_node_from(*d, path.deep_view(), i as int) == Some(*n),
            None => spec_get_node_from(*d, path.deep_view(), i as int) is None,
        },
    decreases path@.len() - i,
{
    if i >= path.len() {
        return None;
    }
    proof {
        assert(path.deep_view()[i as int] == path@[i as int]@);
    }
    match find_entry(&d.entries, &path[i]) {
        None => None,
        Some(j) => {
            proof {
                lemma_entry_at(d.entries@, j as int);
            }
            let n = &d.entries[j].node;
            if path.len() - i == 1 {
                Some(n)
            } else {
                match n {
                    PrivateNode::File(_) => None,
                    PrivateNode::Dir(d2) => get_node_rec(d2, path, i + 1),
                }
            }
        },
    }
}

fn resolve_rec<'a>(d: &'a PrivateDirectory, path: &Vec<String>, i: usize) -> (r: Option<
    &'a PrivateDirectory,
>)
    requires
        dir_wf(*d),
        i <= path@.len(),
    ensures
        match r {
            Some(d2) => spec_resolve_from(*d, path.deep_view(), i as int) == Some(*d2) && dir_wf(
                *d2,
            ),
            None => spec_resolve_from(*d, path.deep_view(), i as int) is None,
        },
    decreases path@.len() - i,
{
    if i >= path.len() {
        return Some(d);
    }
    proof {
        assert(path.deep_view()[i as int] == path@[i as int]@);
    }
    match find_entry(&d.entries, &path[i]) {
        None => None,
        Some(j) => {
            proof {
                lemma_entry_at(d.entries@, j as int);
            }
            match &d.entries[j].node {
                PrivateNode::File(_) => None,
                PrivateNode::Dir(d2) => resolve_rec(d2, path, i + 1),
            }
        },
    }
}

impl PrivateDirectory {
    /// A fresh, empty directory.
    pub fn new(time: i64) -> (r: Self)
        ensures
            dir_wf(r),
            r.entries@.len() == 0,
            r.metadata == (Metadata {
                kind: NodeKind::Directory,
                created: time,
                modified: time,
                size: 0,
            }),
    {
        PrivateDirectory {
            metadata: Metadata {
                kind: NodeKind::Directory,
                created: time,
                modified: time,
                size: 0,
            },
            entries: Vec::new(),
        }
    }

    pub open spec fn spec_get_node(self, path: Seq<Seq<char>>) -> Option<PrivateNode> {
        spec_get_node_from(self, path, 0)
    }

    /// Non-creating traversal: the node at `path`, or `None` on any missing
    /// segment, an inner segment naming a file, or an empty path.
    pub fn get_node<'a>(&'a self, path: &Vec<String>) -> (r: Option<&'a PrivateNode>)
        requires
            dir_wf(*self),
        ensures
            match r {
                Some(n) => self.spec_get_node(path.deep_view()) == Some(*n),
                None => self.spec_get_node(path.deep_view()) is None,
            },
    {
        get_node_rec(self, path, 0)
    }

    /// List the directory at `path`: one pair per entry, in entry order,
    /// with the name and the child's metadata.
    pub fn ls(&self, path: &Vec<String>) -> (r: Result<Vec<(String, Metadata)>, FsError>)
        requires
            dir_wf(*self),
        ensures
            match r {
                Ok(list) => {
                    &&& spec_resolve_from(*self, path.deep_view(), 0) matches Some(d)
                        && list@.len() == d.entries@.len() && (forall|i: int|
                        0 <= i < list@.len() ==> (#[trigger] list@[i].0)@ == d.entries@[i].name@
                            && list@[i].1 == node_metadata(d.entries@[i].node))
                },
                Err(e) => e == FsError::NotFound && spec_resolve_from(
                    *self,
                    path.deep_view(),
                    0,
                ) is None,
            },
    {
        match resolve_rec(self, path, 0) {
            None => Err(FsError::NotFound),
            Some(d) => {
                let mut list: Vec<(String, Metadata)> = Vec::new();
                let mut j: usize = 0;
                while j < d.entries.len()
                    invariant
                        j <= d.entries@.len(),
                        list@.len() == j,
                        forall|p: int|
                            0 <= p < j ==> (#[trigger] list@[p].0)@ == d.entries@[p].name@
                                && list@[p].1 == node_metadata(d.entries@[p].node),
                    decreases d.entries@.len() - j,
                {
                    let name = d.entries[j].name.clone();
                    let meta = node_meta(&d.entries[j].node);
                    list.push((name, meta));
                    j = j + 1;
                }
                Ok(list)
            },
        }
    }

    /// Link a file node at `path`, synthesizing missing intermediate
    /// directories, entirely in memory; nothing is persisted by this call.
    /// Fails, leaving the tree untouched, when the path is empty, an inner
    /// segment names a file, or the leaf segment names a directory.
    pub fn write_file(&mut self, path: &Vec<String>, file: PrivateFile, time: i64) -> (r: Result<
        (),
        FsError,
    >)
        requires
            dir_wf(*old(self)),
            file.wf(),
        ensures
            dir_wf(*final(self)),
            match r {
                Ok(()) => {
                    &&& spec_can_write(*old(self), path.deep_view(), 0)
                    &&& final(self).spec_get_node(path.deep_view()) == Some(
                        PrivateNode::File(file),
                    )
                    &&& final(self).metadata == old(self).metadata
                    &&& forall|nm: Seq<char>|
                        nm != path.deep_view()[0] ==> ((has_entry(final(self).entries@, nm)
                            <==> has_entry(old(self).entries@, nm)) && (has_entry(
                            old(self).entries@,
                            nm,
                        ) ==> entry_node(final(self).entries@, nm) == entry_node(
                            old(self).entries@,
                            nm,
                        )))
                    &&& final(self).entries@.len() == old(self).entries@.len() + (
                    if has_entry(old(self).entries@, path.deep_view()[0]) {
                        0int
                    } else {
                        1int
                    })
                },
                Err(e) => {
                    &&& e == FsError::Conflict
                    &&& !spec_can_write(*old(self), path.deep_view(), 0)
                    &&& *final(self) == *old(self)
                },
            },
    {
        if path.len() == 0 {
            return Err(FsError::Conflict);
        }
        if !can_write_rec(self, path, 0) {
            return Err(FsError::Conflict);
        }
        let mut taken = PrivateDirectory::new(0);
        core::mem::swap(self, &mut taken);
        let written = write_rec(taken, path, 0, file, time);
        *self = written;
        Ok(())
    }
}

fn can_write_rec(d: &PrivateDirectory, path: &Vec<String>, i: usize) -> (r: bool)
    requires
        dir_wf(*d),
        i <= path@.len(),
    ensures
        r == spec_can_write(*d, path.deep_view(), i as int),
    decreases path@.len() - i,
{
    if i >= path.len() {
        return false;
    }
    proof {
        assert(path.deep_view()[i as int] == path@[i as int]@);
    }
    match find_entry(&d.entries, &path[i]) {
        None => true,
        Some(j) => {
            proof {
                lemma_entry_at(d.entries@, j as int);
            }
            if path.len() - i == 1 {
                match &d.entries[j].node {
                    PrivateNode::File(_) => true,
                    PrivateNode::Dir(_) => false,
                }
            } else {
                match &d.entries[j].node {
                    PrivateNode::File(_) => false,
                    PrivateNode::Dir(d2) => can_write_rec(d2, path, i + 1),
                }
            }
        },
    }
}

fn write_rec(d: PrivateDirectory, path: &Vec<String>, i: usize, file: PrivateFile, time: i64) -> (r:
    PrivateDirectory)
    requires
        dir_wf(d),
        file.wf(),
        i < path@.len(),
        spec_can_write(d, path.deep_view(), i as int),
    ensures
        dir_wf(r),
        spec_get_node_from(r, path.deep_view(), i as int) == Some(PrivateNode::File(file)),
        r.metadata == d.metadata,
        forall|nm: Seq<char>|
            nm != path.deep_view()[i as int] ==> ((has_entry(r.entries@, nm) <==> has_entry(
                d.entries@,
                nm,
            )) && (has_entry(d.entries@, nm) ==> entry_node(r.entries@, nm) == entry_node(
                d.entries@,
                nm,
            ))),
        r.entries@.len() == d.entries@.len() + (
        if has_entry(d.entries@, path.deep_view()[i as int]) {
            0int
        } else {
            1int
        }),
    decreases path@.len() - i,
{
    let mut d = d;
    let ghost pre = d;
    let ghost pv = path.deep_view();
    proof {
        assert(pv[i as int] == path@[i as int]@);
    }
    let found = find_entry(&d.entries, &path[i]);
    if path.len() - i == 1 {
        match found {
            Some(j) => {
                proof {
                    lemma_entry_at(pre.entries@, j as int);
                }
                let entry = DirEntry { name: path[i].clone(), node: PrivateNode::File(file) };
                d.entries[j] = entry;
                proof {
                    assert(d.entries@ =~= pre.entries@.update(j as int, d.entries@[j as int]));
                    lemma_upsert(pre.entries@, d.entries@, j as int, pv[i as int]);
                    lemma_entry_at(d.entries@, j as int);
                }
            },
            None => {
                let entry = DirEntry { name: path[i].clone(), node: PrivateNode::File(file) };
                d.entries.push(entry);
                proof {
                    let n = pre.entries@.len() as int;
                    assert(d.entries@ =~= pre.entries@.push(d.entries@[n]));
                    lemma_append(pre.entries@, d.entries@, pv[i as int]);
                    lemma_entry_at(d.entries@, n);
                }
            },
        }
        d
    } else {
        match found {
            Some(j) => {
                proof {
                    lemma_entry_at(pre.entries@, j as int);
                }
                let entry = d.entries.remove(j);
                let name = entry.name;
                match entry.node {
                    PrivateNode::Dir(child) => {
                        let child2 = write_rec(child, path, i + 1, file, time);
                        d.entries.insert(
                            j,
                            DirEntry { name, node: PrivateNode::Dir(child2) },
                        );
                        proof {
                            assert(d.entries@ =~= pre.entries@.update(
                                j as int,
                                d.entries@[j as int],
                            ));
                            lemma_upsert(pre.entries@, d.entries@, j as int, pv[i as int]);
                            lemma_entry_at(d.entries@, j as int);
                        }
                    },
                    PrivateNode::File(f0) => {
                        proof {
                            assert(false);
                        }
                        d.entries.insert(j, DirEntry { name, node: PrivateNode::File(f0) });
                    },
                }
                d
            },
            None => {
                let child = PrivateDirectory::new(time);
                let child2 = write_rec(child, path, i + 1, file, time);
                let entry = DirEntry { name: path[i].clone(), node: PrivateNode::Dir(child2) };
                d.entries.push(entry);
                proof {
                    let n = pre.entries@.len() as int;
                    assert(d.entries@ =~= pre.entries@.push(d.entries@[n]));
                    lemma_append(pre.entries@, d.entries@, pv[i as int]);
                    lemma_entry_at(d.entries@, n);
                }
                d
            },
        }
    }
}

/// After updating the entry at `j`, whose name stays `nm`, every other name
/// resolves as before, and the names are still unique.
proof fn lemma_upsert(pre: Seq<DirEntry>, post: Seq<DirEntry>, j: int, nm: Seq<char>)
    requires
        forall|p: int, q: int| 0 <= p < q < pre.len() ==> pre[p].name@ != pre[q].name@,
        0 <= j < pre.len(),
        pre[j].name@ == nm,
        post.len() == pre.len(),
        post[j].name@ == nm,
        forall|p: int| 0 <= p < pre.len() && p != j ==> post[p] == pre[p],
    ensures
        forall|p: int, q: int| 0 <= p < q < post.len() ==> post[p].name@ != post[q].name@,
        forall|nm2: Seq<char>|
            nm2 != nm ==> ((has_entry(post, nm2) <==> has_entry(pre, nm2)) && (has_entry(pre, nm2)
                ==> entry_node(post, nm2) == entry_node(pre, nm2))),
        has_entry(post, nm),
{
    assert forall|p: int, q: int| 0 <= p < q < post.len() implies post[p].name@
        != post[q].name@ by {
        assert(pre[p].name@ != pre[q].name@);
    }
    assert forall|nm2: Seq<char>| nm2 != nm implies ((has_entry(post, nm2) <==> has_entry(pre, nm2))
        && (has_entry(pre, nm2) ==> entry_node(post, nm2) == entry_node(pre, nm2))) by {
        if has_entry(post, nm2) {
            let p = choose|p: int| 0 <= p < post.len() && post[p].name@ == nm2;
            assert(p != j);
            assert(pre[p].name@ == nm2);
        }
        if has_entry(pre, nm2) {
            let p = choose|p: int| 0 <= p < pre.len() && pre[p].name@ == nm2;
            assert(p != j);
            assert(post[p].name@ == nm2);
            lemma_entry_at(pre, p);
            assert forall|p2: int, q2: int| 0 <= p2 < q2 < post.len() implies post[p2].name@
                != post[q2].name@ by {
                assert(pre[p2].name@ != pre[q2].name@);
            }
            lemma_entry_at(post, p);
        }
    }
    assert(post[j].name@ == nm);
}

/// After appending an entry under a fresh name, every other name resolves as
/// before, and the names are still unique.
proof fn lemma_append(pre: Seq<DirEntry>, post: Seq<DirEntry>, nm: Seq<char>)
    requires
        forall|p: int, q: int| 0 <= p < q < pre.len() ==> pre[p].name@ != pre[q].name@,
        !has_entry(pre, nm),
        post.len() == pre.len() + 1,
        post[pre.len() as int].name@ == nm,
        forall|p: int| 0 <= p < pre.len() ==> post[p] == pre[p],
    ensures
        forall|p: int, q: int| 0 <= p < q < post.len() ==> post[p].name@ != post[q].name@,
        forall|nm2: Seq<char>|
            nm2 != nm ==> ((has_entry(post, nm2) <==> has_entry(pre, nm2)) && (has_entry(pre, nm2)
                ==> entry_node(post, nm2) == entry_node(pre, nm2))),
        has_entry(post, nm),
{
    let n = pre.len() as int;
    assert forall|p: int, q: int| 0 <= p < q < post.len() implies post[p].name@
        != post[q].name@ by {
        if q < n {
            assert(pre[p].name@ != pre[q].name@);
        } else {
            assert(q == n);
            assert(post[q].name@ == nm);
            if post[p].name@ == nm {
                assert(pre[p].name@ == nm);
                assert(has_entry(pre, nm));
            }
        }
    }
    assert forall|nm2: Seq<char>| nm2 != nm implies ((has_entry(post, nm2) <==> has_entry(pre, nm2))
        && (has_entry(pre, nm2) ==> entry_node(post, nm2) == entry_node(pre, nm2))) by {
        if has_entry(post, nm2) {
            let p = choose|p: int| 0 <= p < post.len() && post[p].name@ == nm2;
            assert(p != n);
            assert(pre[p].name@ == nm2);
        }
        if has_entry(pre, nm2) {
            let p = choose|p: int| 0 <= p < pre.len() && pre[p].name@ == nm2;
            assert(post[p].name@ == nm2);
            lemma_entry_at(pre, p);
            assert forall|p2: int, q2: int| 0 <= p2 < q2 < post.len() implies post[p2].name@
                != post[q2].name@ by {
                if q2 < n {
                    assert(pre[p2].name@ != pre[q2].name@);
                } else {
                    assert(q2 == n);
                    if post[p2].name@ == nm {
                        assert(has_entry(pre, nm));
                    }
                }
            }
            lemma_entry_at(post, p);
        }
    }
    assert(post[n].name@ == nm);
}

} // verus!
