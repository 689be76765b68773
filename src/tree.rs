//! A mathematical model of the filesystem below a path, used to state what
//! a walk collects.

use vstd::prelude::*;
use vstd::multiset::Multiset;
use crate::walk::{EntryKind, of_kind};

verus! {

broadcast use vstd::seq_lib::group_to_multiset_ensures;

/// What stands at a path: a regular file, a directory with its entries
/// (each with its full path), or something else.
pub enum Node {
    File,
    Dir(Seq<(Seq<char>, Node)>),
    Other,
}

pub open spec fn kind_of(n: Node) -> EntryKind {
    match n {
        Node::File => EntryKind::File,
        Node::Dir(_) => EntryKind::Dir,
        Node::Other => EntryKind::Other,
    }
}

/// The regular files at or below `path`, where `n` stands, in listing order
/// with each directory's files where the directory is listed.
pub open spec fn node_files(path: Seq<char>, n: Node) -> Seq<Seq<char>>
    decreases n,
{
    match n {
        Node::File => seq![path],
        Node::Dir(cs) => entries_files(cs),
        Node::Other => Seq::empty(),
    }
}

/// The regular files at or below each of the entries, one after the other.
pub open spec fn entries_files(cs: Seq<(Seq<char>, Node)>) -> Seq<Seq<char>>
    decreases cs,
{
    if cs.len() == 0 {
        Seq::empty()
    } else {
        entries_files(cs.subrange(0, cs.len() - 1)) + node_files(
            cs[cs.len() - 1].0,
            cs[cs.len() - 1].1,
        )
    }
}

/// The number of directories at or below where `n` stands.
pub open spec fn node_dirs(n: Node) -> nat
    decreases n,
{
    match n {
        Node::Dir(cs) => 1 + entries_dirs(cs),
        _ => 0,
    }
}

/// The number of directories at or below the entries.
pub open spec fn entries_dirs(cs: Seq<(Seq<char>, Node)>) -> nat
    decreases cs,
{
    if cs.len() == 0 {
        0
    } else {
        entries_dirs(cs.subrange(0, cs.len() - 1)) + node_dirs(cs[cs.len() - 1].1)
    }
}

/// The listing of a directory with these entries.
pub open spec fn listing_of(cs: Seq<(Seq<char>, Node)>) -> Seq<(Seq<char>, EntryKind)> {
    cs.map_values(|c: (Seq<char>, Node)| (c.0, kind_of(c.1)))
}

/// A filesystem, as what stands at each path.
pub type Fs = spec_fn(Seq<char>) -> Node;

/// Whether `fs` agrees with the tree `n` at every path below it.
pub open spec fn agrees_below(fs: Fs, n: Node) -> bool
    decreases n,
{
    match n {
        Node::Dir(cs) => forall|i: int|
            0 <= i < cs.len() ==> fs(#[trigger] cs[i].0) == cs[i].1 && agrees_below(fs, cs[i].1),
        _ => true,
    }
}

/// The regular files at or below each of the paths, one after the other.
pub open spec fn paths_files(fs: Fs, ps: Seq<Seq<char>>) -> Seq<Seq<char>>
    decreases ps.len(),
{
    if ps.len() == 0 {
        Seq::empty()
    } else {
        paths_files(fs, ps.drop_last()) + node_files(ps.last(), fs(ps.last()))
    }
}

/// The number of directories at or below each of the paths, together.
pub open spec fn paths_dirs(fs: Fs, ps: Seq<Seq<char>>) -> nat
    decreases ps.len(),
{
    if ps.len() == 0 {
        0
    } else {
        paths_dirs(fs, ps.drop_last()) + node_dirs(fs(ps.last()))
    }
}

/// Directories below a concatenation of paths add up.
pub proof fn lemma_paths_dirs_append(fs: Fs, a: Seq<Seq<char>>, b: Seq<Seq<char>>)
    ensures
        paths_dirs(fs, a + b) == paths_dirs(fs, a) + paths_dirs(fs, b),
    decreases b.len(),
{
    if b.len() == 0 {
        assert(a + b =~= a);
    } else {
        assert((a + b).drop_last() =~= a + b.drop_last());
        lemma_paths_dirs_append(fs, a, b.drop_last());
    }
}

/// The files below a concatenation of paths are those below each part.
pub proof fn lemma_paths_files_append(fs: Fs, a: Seq<Seq<char>>, b: Seq<Seq<char>>)
    ensures
        paths_files(fs, a + b) == paths_files(fs, a) + paths_files(fs, b),
    decreases b.len(),
{
    if b.len() == 0 {
        assert(a + b =~= a);
        assert(paths_files(fs, a) + paths_files(fs, b) =~= paths_files(fs, a));
    } else {
        assert((a + b).drop_last() =~= a + b.drop_last());
        lemma_paths_files_append(fs, a, b.drop_last());
        assert(paths_files(fs, a + b) =~= paths_files(fs, a) + paths_files(fs, b));
    }
}

/// Listed in a directory where `fs` agrees, the files of the entries are the
/// listed files and those below the listed directories; each listed
/// directory is one where `fs` agrees again.
pub proof fn lemma_entries_split(fs: Fs, cs: Seq<(Seq<char>, Node)>)
    requires
        forall|i: int| 0 <= i < cs.len() ==> fs(#[trigger] cs[i].0) == cs[i].1 && agrees_below(fs, cs[i].1),
    ensures
        entries_files(cs).to_multiset() == of_kind(listing_of(cs), EntryKind::File).to_multiset().add(
            paths_files(fs, of_kind(listing_of(cs), EntryKind::Dir)).to_multiset(),
        ),
        forall|j: int| 0 <= j < of_kind(listing_of(cs), EntryKind::Dir).len() ==>
            (#[trigger] fs(of_kind(listing_of(cs), EntryKind::Dir)[j])) is Dir
            && agrees_below(fs, fs(of_kind(listing_of(cs), EntryKind::Dir)[j])),
        entries_dirs(cs) == paths_dirs(fs, of_kind(listing_of(cs), EntryKind::Dir)),
    decreases cs.len(),
{
    let l = listing_of(cs);
    if cs.len() == 0 {
        assert(of_kind(l, EntryKind::File) =~= Seq::<Seq<char>>::empty());
        assert(of_kind(l, EntryKind::Dir) =~= Seq::<Seq<char>>::empty());
        assert(entries_files(cs).to_multiset() =~= Multiset::empty());
    } else {
        let front = cs.subrange(0, cs.len() - 1);
        let c = cs[cs.len() - 1];
        assert(l.drop_last() =~= listing_of(front));
        assert(l.last() == (c.0, kind_of(c.1)));
        lemma_entries_split(fs, front);
        let files0 = of_kind(listing_of(front), EntryKind::File);
        let dirs0 = of_kind(listing_of(front), EntryKind::Dir);
        vstd::seq_lib::lemma_multiset_commutative(entries_files(front), node_files(c.0, c.1));
        assert(entries_dirs(cs) == entries_dirs(front) + node_dirs(c.1));
        match c.1 {
            Node::File => {
                assert(node_files(c.0, c.1).to_multiset() =~= Multiset::empty().insert(c.0)) by {
                    assert(node_files(c.0, c.1) =~= Seq::<Seq<char>>::empty().push(c.0));
                }
                assert(of_kind(l, EntryKind::Dir) == dirs0);
                assert(entries_files(cs).to_multiset() =~= of_kind(l, EntryKind::File).to_multiset().add(
                    paths_files(fs, of_kind(l, EntryKind::Dir)).to_multiset()));
            },
            Node::Dir(_) => {
                let dirs = of_kind(l, EntryKind::Dir);
                assert(dirs == dirs0.push(c.0));
                assert(dirs.drop_last() =~= dirs0);
                assert(paths_files(fs, dirs) == paths_files(fs, dirs0) + node_files(c.0, fs(c.0)));
                assert(paths_dirs(fs, dirs) == paths_dirs(fs, dirs0) + node_dirs(fs(c.0)));
                vstd::seq_lib::lemma_multiset_commutative(paths_files(fs, dirs0), node_files(c.0, c.1));
                assert(entries_files(cs).to_multiset() =~= of_kind(l, EntryKind::File).to_multiset().add(
                    paths_files(fs, of_kind(l, EntryKind::Dir)).to_multiset()));
                assert forall|j: int| 0 <= j < dirs.len() implies
                    (#[trigger] fs(dirs[j])) is Dir && agrees_below(fs, fs(dirs[j])) by {
                    if j < dirs0.len() {
                        assert(dirs[j] == dirs0[j]);
                    }
                }
            },
            Node::Other => {
                assert(node_files(c.0, c.1).to_multiset() =~= Multiset::empty());
                assert(of_kind(l, EntryKind::Dir) == dirs0);
                assert(entries_files(cs).to_multiset() =~= of_kind(l, EntryKind::File).to_multiset().add(
                    paths_files(fs, of_kind(l, EntryKind::Dir)).to_multiset()));
            },
        }
    }
}

/// Below a path where `fs` agrees, each file collected is a regular file.
pub proof fn lemma_node_files_are_files(fs: Fs, p: Seq<char>, n: Node)
    requires
        fs(p) == n,
        agrees_below(fs, n),
    ensures
        forall|x: Seq<char>| #[trigger] node_files(p, n).contains(x) ==> fs(x) is File,
    decreases n,
{
    match n {
        Node::File => {
            assert(node_files(p, n) =~= seq![p]);
            assert forall|x: Seq<char>| #[trigger] node_files(p, n).contains(x) implies fs(x) is File by {
                let k = choose|k: int| 0 <= k < node_files(p, n).len() && node_files(p, n)[k] == x;
                assert(k == 0);
            }
        },
        Node::Dir(cs) => {
            assert forall|i: int| 0 <= i < cs.len() implies fs(#[trigger] cs[i].0) == cs[i].1
                && agrees_below(fs, cs[i].1) by {
                assert(fs(cs[i].0) == cs[i].1);
                assert(agrees_below(fs, cs[i].1));
            }
            lemma_entries_files_are_files(fs, cs);
            assert(node_files(p, n) == entries_files(cs));
        },
        Node::Other => {
            assert(node_files(p, n) =~= Seq::<Seq<char>>::empty());
        },
    }
}

/// Below entries where `fs` agrees, each file collected is a regular file.
pub proof fn lemma_entries_files_are_files(fs: Fs, cs: Seq<(Seq<char>, Node)>)
    requires
        forall|i: int| 0 <= i < cs.len() ==> fs(#[trigger] cs[i].0) == cs[i].1 && agrees_below(fs, cs[i].1),
    ensures
        forall|x: Seq<char>| entries_files(cs).contains(x) ==> fs(x) is File,
    decreases cs,
{
    if cs.len() > 0 {
        let front = cs.subrange(0, cs.len() - 1);
        let c = cs[cs.len() - 1];
        assert forall|i: int| 0 <= i < front.len() implies fs(#[trigger] front[i].0) == front[i].1
            && agrees_below(fs, front[i].1) by {
            assert(front[i] == cs[i]);
        }
        lemma_entries_files_are_files(fs, front);
        assert(fs(cs[cs.len() - 1].0) == cs[cs.len() - 1].1);
        lemma_node_files_are_files(fs, c.0, c.1);
        let a = entries_files(front);
        let b = node_files(c.0, c.1);
        assert(entries_files(cs) == a + b);
        assert forall|x: Seq<char>| entries_files(cs).contains(x) implies fs(x) is File by {
            let k = choose|k: int| 0 <= k < (a + b).len() && (a + b)[k] == x;
            if k < a.len() {
                assert(a[k] == x);
                assert(a.contains(x));
            } else {
                assert(b[k - a.len()] == x);
                assert(b.contains(x));
            }
        }
    }
}

} // verus!
