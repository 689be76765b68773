//! What holds of every collection.

use vstd::prelude::*;
use vstd::multiset::Multiset;
use crate::filter::{ext_allowed, extension_of, keeps, passes, select};
use crate::tree::{
    agrees_below, entries_dirs, entries_files, kind_of, lemma_entries_split,
    lemma_node_files_are_files, lemma_paths_dirs_append, lemma_paths_files_append, listing_of,
    node_dirs, node_files, paths_dirs, paths_files, Fs, Node,
};
use crate::walk::{
    of_kind, outcome, record_spec, start_spec, take_spec, CollectError, EntryKind, WalkState,
};

verus! {

broadcast use vstd::seq_lib::group_to_multiset_ensures;

/// The listing that `fs` holds for the directory at `p`.
pub open spec fn listing_at(fs: Fs, p: Seq<char>) -> Seq<(Seq<char>, EntryKind)> {
    match fs(p) {
        Node::Dir(cs) => listing_of(cs),
        _ => Seq::empty(),
    }
}

/// One step of a walk on `fs`: the directory last in line is taken out,
/// listed, and its listing handed in.
pub open spec fn step(fs: Fs, w: WalkState) -> WalkState {
    record_spec(take_spec(w), listing_at(fs, w.pending.last()))
}

/// How a walk stands against `fs` below `root`: each directory waiting is
/// one where `fs` agrees, and the files found together with the files below
/// the waiting directories are the regular files below `root`, each as
/// often as there.
pub open spec fn accounts_for(fs: Fs, root: Seq<char>, w: WalkState) -> bool {
    &&& forall|i: int|
        0 <= i < w.pending.len() ==> (#[trigger] fs(w.pending[i])) is Dir && agrees_below(
            fs,
            fs(w.pending[i]),
        )
    &&& w.files.to_multiset().add(paths_files(fs, w.pending).to_multiset()) == node_files(
        root,
        fs(root),
    ).to_multiset()
}

/// A walk started at a regular file or a directory of a filesystem accounts
/// for everything below it.
pub proof fn lemma_start_accounts(fs: Fs, root: Seq<char>)
    requires
        agrees_below(fs, fs(root)),
        !(fs(root) is Other),
    ensures
        start_spec(root, kind_of(fs(root))) is Ok,
        accounts_for(fs, root, start_spec(root, kind_of(fs(root)))->Ok_0),
{
    let w = start_spec(root, kind_of(fs(root)))->Ok_0;
    match fs(root) {
        Node::File => {
            assert(paths_files(fs, w.pending) =~= Seq::<Seq<char>>::empty());
            assert(w.files =~= Seq::<Seq<char>>::empty().push(root));
            assert(node_files(root, fs(root)) =~= Seq::<Seq<char>>::empty().push(root));
            assert(w.files.to_multiset().add(paths_files(fs, w.pending).to_multiset())
                =~= node_files(root, fs(root)).to_multiset());
        },
        _ => {
            assert(w.pending.drop_last() =~= Seq::<Seq<char>>::empty());
            assert(w.pending.last() == root);
            assert(paths_files(fs, w.pending.drop_last()) =~= Seq::<Seq<char>>::empty());
            assert(paths_files(fs, w.pending.drop_last()) + node_files(root, fs(root))
                =~= node_files(root, fs(root)));
            assert(paths_files(fs, w.pending) =~= node_files(root, fs(root)));
            assert(w.files.to_multiset() =~= Multiset::empty());
            assert(w.files.to_multiset().add(paths_files(fs, w.pending).to_multiset())
                =~= node_files(root, fs(root)).to_multiset());
        },
    }
}

/// Each step of a walk keeps it accounting for everything below its root,
/// and leaves one directory fewer at or below those waiting: a walk ends
/// after as many steps as there are directories below its root.
pub proof fn lemma_step_accounts(fs: Fs, root: Seq<char>, w: WalkState)
    requires
        accounts_for(fs, root, w),
        w.pending.len() > 0,
    ensures
        accounts_for(fs, root, step(fs, w)),
        paths_dirs(fs, step(fs, w).pending) + 1 == paths_dirs(fs, w.pending),
{
    let p = w.pending.last();
    let rest = w.pending.drop_last();
    assert(fs(w.pending[w.pending.len() - 1]) is Dir);
    let cs = fs(p)->Dir_0;
    assert(fs(p) == Node::Dir(cs));
    assert(agrees_below(fs, Node::Dir(cs)));
    let l = listing_of(cs);
    let found = of_kind(l, EntryKind::File);
    let dirs = of_kind(l, EntryKind::Dir);
    assert forall|i: int| 0 <= i < cs.len() implies fs(#[trigger] cs[i].0) == cs[i].1
        && agrees_below(fs, cs[i].1) by {
        assert(agrees_below(fs, Node::Dir(cs)));
        assert(0 <= i < cs.len());
        assert(fs(cs[i].0) == cs[i].1);
        assert(agrees_below(fs, cs[i].1));
    }
    lemma_entries_split(fs, cs);
    let next = step(fs, w);
    assert(next.pending == rest + dirs);
    assert(next.files == w.files + found);
    lemma_paths_files_append(fs, rest, dirs);
    lemma_paths_dirs_append(fs, rest, dirs);
    assert(node_dirs(fs(p)) == 1 + entries_dirs(cs));
    vstd::seq_lib::lemma_multiset_commutative(rest + Seq::empty(), dirs);
    vstd::seq_lib::lemma_multiset_commutative(paths_files(fs, rest), paths_files(fs, dirs));
    vstd::seq_lib::lemma_multiset_commutative(w.files, found);
    vstd::seq_lib::lemma_multiset_commutative(paths_files(fs, rest), node_files(p, fs(p)));
    assert(node_files(p, fs(p)) == entries_files(cs));
    assert(next.files.to_multiset().add(paths_files(fs, next.pending).to_multiset())
        =~= w.files.to_multiset().add(paths_files(fs, w.pending).to_multiset()));
    assert forall|i: int| 0 <= i < next.pending.len() implies (#[trigger] fs(next.pending[i])) is Dir
        && agrees_below(fs, fs(next.pending[i])) by {
        if i < rest.len() {
            assert(next.pending[i] == w.pending[i]);
        } else {
            assert(next.pending[i] == dirs[i - rest.len()]);
        }
    }
}

/// A walk with no directory left to list has found exactly the regular
/// files below its root, each as often as there, so each once where paths
/// are distinct, and nothing but regular files.
pub proof fn lemma_done_collects(fs: Fs, root: Seq<char>, w: WalkState)
    requires
        agrees_below(fs, fs(root)),
        accounts_for(fs, root, w),
        w.pending.len() == 0,
    ensures
        w.files.to_multiset() == node_files(root, fs(root)).to_multiset(),
        node_files(root, fs(root)).no_duplicates() ==> w.files.no_duplicates(),
        forall|x: Seq<char>| w.files.contains(x) ==> fs(x) is File,
{
    let all = node_files(root, fs(root));
    assert(paths_files(fs, w.pending) =~= Seq::<Seq<char>>::empty());
    assert(w.files.to_multiset() =~= all.to_multiset());
    if all.no_duplicates() {
        all.lemma_multiset_has_no_duplicates();
        w.files.lemma_multiset_has_no_duplicates_conv();
    }
    lemma_node_files_are_files(fs, root, fs(root));
    assert forall|x: Seq<char>| w.files.contains(x) implies fs(x) is File by {
        assert(w.files.to_multiset().count(x) > 0);
        assert(all.to_multiset().count(x) > 0);
    }
}

/// With no filter every path is kept, in its place.
pub proof fn lemma_select_none(files: Seq<Seq<char>>)
    ensures
        select(files, None) == files,
    decreases files.len(),
{
    reveal(Seq::filter);
    if files.len() > 0 {
        lemma_select_none(files.drop_last());
        assert(files.drop_last().push(files.last()) =~= files);
    }
}

/// A filter keeps each path that passes it as often as it was found, and
/// no other.
pub proof fn lemma_select_count(files: Seq<Seq<char>>, filter: Option<Seq<Seq<char>>>, x: Seq<char>)
    ensures
        select(files, filter).to_multiset().count(x) == if passes(x, filter) {
            files.to_multiset().count(x)
        } else {
            0
        },
    decreases files.len(),
{
    reveal(Seq::filter);
    if files.len() > 0 {
        let front = files.drop_last();
        lemma_select_count(front, filter, x);
        assert(front.push(files.last()) =~= files);
        assert(keeps(filter)(files.last()) == passes(files.last(), filter));
    }
}

/// A successful collection is never empty, and each path it returns passes
/// the filter: with one, its extension is among the allowed ones.
pub proof fn lemma_result_passes(files: Seq<Seq<char>>, filter: Option<Seq<Seq<char>>>)
    ensures
        outcome(files, filter) is Ok ==> outcome(files, filter)->Ok_0.len() > 0,
        outcome(files, filter) is Ok ==> forall|i: int|
            0 <= i < outcome(files, filter)->Ok_0.len() ==> passes(
                #[trigger] outcome(files, filter)->Ok_0[i],
                filter,
            ),
{
    let kept = select(files, filter);
    assert forall|i: int| 0 <= i < kept.len() implies passes(#[trigger] kept[i], filter) by {
        files.lemma_filter_pred(keeps(filter), i);
    }
}

/// A regular file, collected with no filter, gives exactly itself: the walk
/// has no directory to list and ends with that one path.
pub proof fn lemma_file_collects_itself(f: Seq<char>)
    ensures
        start_spec(f, EntryKind::File) == Ok::<WalkState, CollectError>(
            WalkState { pending: Seq::empty(), files: seq![f] },
        ),
        outcome(seq![f], None) == Ok::<Seq<Seq<char>>, CollectError>(seq![f]),
{
    lemma_select_none(seq![f]);
}

/// A root that is neither a regular file nor a directory fails with
/// `NotFound`, before any filter is looked at.
pub proof fn lemma_missing_root_not_found(p: Seq<char>)
    ensures
        start_spec(p, EntryKind::Other) == Err::<WalkState, CollectError>(CollectError::NotFound),
{
}

/// When no file found has an extension among the allowed ones, the
/// collection fails with `EmptyResult`.
pub proof fn lemma_no_match_is_empty(files: Seq<Seq<char>>, allowed: Seq<Seq<char>>)
    requires
        forall|i: int| 0 <= i < files.len() ==> !ext_allowed(extension_of(#[trigger] files[i]), allowed),
    ensures
        outcome(files, Some(allowed)) == Err::<Seq<Seq<char>>, CollectError>(CollectError::EmptyResult),
{
    let pred = keeps(Some(allowed));
    assert(files.all(|x: Seq<char>| !pred(x)));
    files.lemma_all_neg_filter_empty(pred);
}

/// A filter only narrows a collection: what a filtered collection returns,
/// the unfiltered one returns too, and it succeeds whenever the filtered one
/// does.
pub proof fn lemma_filter_narrows(files: Seq<Seq<char>>, allowed: Seq<Seq<char>>)
    ensures
        outcome(files, Some(allowed)) is Ok ==> outcome(files, None) is Ok,
        outcome(files, Some(allowed)) is Ok ==> forall|x: Seq<char>|
            #[trigger] outcome(files, Some(allowed))->Ok_0.contains(x) ==> outcome(files, None)->Ok_0.contains(x),
{
    lemma_select_none(files);
    let kept = select(files, Some(allowed));
    files.lemma_filter_len(keeps(Some(allowed)));
    assert forall|x: Seq<char>| kept.contains(x) implies files.contains(x) by {
        files.lemma_filter_contains_rev(keeps(Some(allowed)), x);
    }
}

/// Two walks of one unchanged filesystem from one root, each to its end,
/// find the same files, perhaps in another order, and with the same filter
/// end alike: the same files, or the same error.
pub proof fn lemma_walks_agree(
    fs: Fs,
    root: Seq<char>,
    w1: WalkState,
    w2: WalkState,
    filter: Option<Seq<Seq<char>>>,
)
    requires
        agrees_below(fs, fs(root)),
        accounts_for(fs, root, w1),
        accounts_for(fs, root, w2),
        w1.pending.len() == 0,
        w2.pending.len() == 0,
    ensures
        w1.files.to_multiset() == w2.files.to_multiset(),
        match (outcome(w1.files, filter), outcome(w2.files, filter)) {
            (Ok(a), Ok(b)) => a.to_multiset() == b.to_multiset(),
            (Err(e1), Err(e2)) => e1 == e2,
            _ => false,
        },
{
    lemma_done_collects(fs, root, w1);
    lemma_done_collects(fs, root, w2);
    let a = select(w1.files, filter);
    let b = select(w2.files, filter);
    assert forall|x: Seq<char>| a.to_multiset().count(x) == b.to_multiset().count(x) by {
        lemma_select_count(w1.files, filter, x);
        lemma_select_count(w2.files, filter, x);
    }
    assert(a.to_multiset() =~= b.to_multiset());
    assert(a.to_multiset().len() == b.to_multiset().len());
    assert(a.len() == b.len());
}

} // verus!
