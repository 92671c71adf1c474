//! Trees that differ only in the order of their listings give the same
//! index: the same folders, and the same entries but for their order.

use vstd::multiset::Multiset;
use vstd::prelude::*;

use crate::entry::{contents, folder_name};
use crate::gather::{
    gather, lemma_filter_map_rearranged, lemma_gather_alike, lemma_gather_rearranged,
    lemma_map_rearranged,
};
use crate::index::{is_index_of, Index};
use crate::text::lemma_ascending_unique;
use crate::tree::{
    dirs_below, drop_of, drops_of, entries_of, files_below, has_music, has_own_music,
    lemma_listed_add, lemma_listed_one, lemma_unreadable_add, listed, own_files, root_folders,
    tree_dirs, tree_entries, tree_files, unreadable_among, yield_of, DirView, FileView, Located,
};

verus! {

/// `second` is `first` listed in another order: the same path, the same
/// files, each as often, and the subdirectories of the one are those of the
/// other in some order, each again listed in another order. Where the
/// directory could not be listed, its contents do not count.
pub open spec fn alike(first: DirView, second: DirView) -> bool
    decreases first,
{
    &&& first.path == second.path
    &&& first.readable == second.readable
    &&& first.readable ==> {
        &&& first.files.to_multiset() == second.files.to_multiset()
        &&& exists|order: Seq<DirView>|
            {
                &&& #[trigger] order.to_multiset() == second.dirs.to_multiset()
                &&& order.len() == first.dirs.len()
                &&& forall|i: int|
                    0 <= i < first.dirs.len() ==> alike(first.dirs[i], #[trigger] order[i])
            }
    }
}

/// A tree is itself listed in another order.
pub proof fn lemma_alike_reflexive(dir: DirView)
    ensures
        alike(dir, dir),
    decreases dir,
{
    if dir.readable {
        assert forall|i: int| 0 <= i < dir.dirs.len() implies alike(
            dir.dirs[i],
            #[trigger] dir.dirs[i],
        ) by {
            lemma_alike_reflexive(dir.dirs[i]);
        }
        assert(dir.dirs.to_multiset() == dir.dirs.to_multiset());
    }
}

/// The files that the walk from a directory meets, counted.
pub open spec fn files_met() -> spec_fn(DirView) -> Multiset<Located> {
    |d: DirView| tree_files(d).to_multiset()
}

/// The directories that the walk from a directory meets and that could not
/// be listed, counted by their paths.
pub open spec fn unreadable_met() -> spec_fn(DirView) -> Multiset<Seq<char>> {
    |d: DirView| unreadable_among(tree_dirs(d)).to_multiset()
}

/// The files met below some directories are gathered from the directories.
proof fn lemma_files_below_gathered(dirs: Seq<DirView>, n: nat)
    requires
        n <= dirs.len(),
    ensures
        files_below(dirs, n).to_multiset() == gather(dirs.take(n as int), files_met()),
    decreases n,
{
    if n == 0 {
        files_below(dirs, n).to_multiset_ensures();
        assert(files_below(dirs, n).to_multiset() =~= Multiset::<Located>::empty());
    } else {
        lemma_files_below_gathered(dirs, (n - 1) as nat);
        let head = dirs.take(n as int);
        assert(head.drop_last() =~= dirs.take(n - 1));
        assert(head.last() == dirs[n - 1]);
        vstd::seq_lib::lemma_multiset_commutative(
            files_below(dirs, (n - 1) as nat),
            tree_files(dirs[n - 1]),
        );
    }
}

/// The unreadable directories met below some directories are gathered from
/// the directories.
proof fn lemma_unreadable_below_gathered(dirs: Seq<DirView>, n: nat)
    requires
        n <= dirs.len(),
    ensures
        unreadable_among(dirs_below(dirs, n)).to_multiset() == gather(
            dirs.take(n as int),
            unreadable_met(),
        ),
    decreases n,
{
    if n == 0 {
        assert(unreadable_among(dirs_below(dirs, n)) =~= Seq::<Seq<char>>::empty());
        unreadable_among(dirs_below(dirs, n)).to_multiset_ensures();
        assert(unreadable_among(dirs_below(dirs, n)).to_multiset() =~= Multiset::<
            Seq<char>,
        >::empty());
    } else {
        lemma_unreadable_below_gathered(dirs, (n - 1) as nat);
        let head = dirs.take(n as int);
        assert(head.drop_last() =~= dirs.take(n - 1));
        assert(head.last() == dirs[n - 1]);
        lemma_unreadable_add(dirs_below(dirs, (n - 1) as nat), tree_dirs(dirs[n - 1]));
        vstd::seq_lib::lemma_multiset_commutative(
            unreadable_among(dirs_below(dirs, (n - 1) as nat)),
            unreadable_among(tree_dirs(dirs[n - 1])),
        );
    }
}

/// A folder is listed below some directories exactly when it is listed in
/// the walk from one of them.
proof fn lemma_listed_below(dirs: Seq<DirView>, n: nat, name: Seq<char>)
    requires
        n <= dirs.len(),
    ensures
        listed(dirs_below(dirs, n)).contains(name) <==> exists|i: int|
            0 <= i < n && listed(tree_dirs(#[trigger] dirs[i])).contains(name),
    decreases n,
{
    if n > 0 {
        lemma_listed_below(dirs, (n - 1) as nat, name);
        lemma_listed_add(dirs_below(dirs, (n - 1) as nat), tree_dirs(dirs[n - 1]));
        if listed(dirs_below(dirs, (n - 1) as nat)).contains(name) {
            let i = choose|i: int|
                0 <= i < n - 1 && listed(tree_dirs(#[trigger] dirs[i])).contains(name);
            assert(listed(tree_dirs(dirs[i])).contains(name));
        }
        if exists|i: int| 0 <= i < n && listed(tree_dirs(#[trigger] dirs[i])).contains(name) {
            let i = choose|i: int|
                0 <= i < n && listed(tree_dirs(#[trigger] dirs[i])).contains(name);
            if i < n - 1 {
                assert(listed(tree_dirs(dirs[i])).contains(name));
            }
        }
    }
}

/// Files in another order have the same entries and the same reports, but
/// for the order.
pub proof fn lemma_file_order_does_not_matter(first: Seq<Located>, second: Seq<Located>)
    requires
        first.to_multiset() == second.to_multiset(),
    ensures
        entries_of(first).to_multiset() == entries_of(second).to_multiset(),
        drops_of(first).to_multiset() == drops_of(second).to_multiset(),
        entries_of(first).len() == entries_of(second).len(),
{
    lemma_filter_map_rearranged(first, second, |l: Located| yield_of(l));
    lemma_filter_map_rearranged(first, second, |l: Located| drop_of(l));
    entries_of(first).to_multiset_ensures();
    entries_of(second).to_multiset_ensures();
}

/// What the walks through the subdirectories of two directories meet,
/// where the one is the other listed in another order.
proof fn lemma_alike_below(first: DirView, second: DirView)
    requires
        alike(first, second),
        first.readable,
    ensures
        files_below(first.dirs, first.dirs.len()).to_multiset() == files_below(
            second.dirs,
            second.dirs.len(),
        ).to_multiset(),
        listed(dirs_below(first.dirs, first.dirs.len())) == listed(
            dirs_below(second.dirs, second.dirs.len()),
        ),
        unreadable_among(dirs_below(first.dirs, first.dirs.len())).to_multiset()
            == unreadable_among(dirs_below(second.dirs, second.dirs.len())).to_multiset(),
    decreases first, 0nat,
{
    broadcast use vstd::seq_lib::group_to_multiset_ensures;

    let order = choose|order: Seq<DirView>|
        {
            &&& #[trigger] order.to_multiset() == second.dirs.to_multiset()
            &&& order.len() == first.dirs.len()
            &&& forall|i: int|
                0 <= i < first.dirs.len() ==> alike(first.dirs[i], #[trigger] order[i])
        };
    let n = first.dirs.len();
    assert(second.dirs.len() == n) by {
        order.to_multiset_ensures();
        second.dirs.to_multiset_ensures();
    }
    assert forall|i: int| 0 <= i < n implies files_met()(#[trigger] first.dirs[i]) == files_met()(
        order[i],
    ) && unreadable_met()(first.dirs[i]) == unreadable_met()(order[i]) && listed(
        tree_dirs(first.dirs[i]),
    ) == listed(tree_dirs(order[i])) by {
        assert(alike(first.dirs[i], order[i]));
        lemma_alike_walks(first.dirs[i], order[i]);
    }
    lemma_gather_alike(first.dirs, order, files_met());
    lemma_gather_rearranged(order, second.dirs, files_met());
    lemma_gather_alike(first.dirs, order, unreadable_met());
    lemma_gather_rearranged(order, second.dirs, unreadable_met());
    lemma_files_below_gathered(first.dirs, n);
    lemma_files_below_gathered(second.dirs, n);
    lemma_unreadable_below_gathered(first.dirs, n);
    lemma_unreadable_below_gathered(second.dirs, n);
    assert(first.dirs.take(n as int) =~= first.dirs);
    assert(second.dirs.take(n as int) =~= second.dirs);
    assert forall|name: Seq<char>|
        listed(dirs_below(first.dirs, n)).contains(name) <==> listed(
            dirs_below(second.dirs, n),
        ).contains(name) by {
        lemma_listed_below(first.dirs, n, name);
        lemma_listed_below(second.dirs, n, name);
        if listed(dirs_below(first.dirs, n)).contains(name) {
            let i = choose|i: int|
                0 <= i < n && listed(tree_dirs(#[trigger] first.dirs[i])).contains(name);
            assert(order.contains(order[i]));
            assert(order.to_multiset().count(order[i]) > 0);
            assert(second.dirs.contains(order[i]));
            let j = choose|j: int| 0 <= j < n && second.dirs[j] == order[i];
            assert(listed(tree_dirs(second.dirs[j])).contains(name));
        }
        if listed(dirs_below(second.dirs, n)).contains(name) {
            let j = choose|j: int|
                0 <= j < n && listed(tree_dirs(#[trigger] second.dirs[j])).contains(name);
            assert(second.dirs.contains(second.dirs[j]));
            assert(second.dirs.to_multiset().count(second.dirs[j]) > 0);
            assert(order.contains(second.dirs[j]));
            let i = choose|i: int| 0 <= i < n && order[i] == second.dirs[j];
            assert(listed(tree_dirs(first.dirs[i])) == listed(tree_dirs(order[i])));
            assert(listed(tree_dirs(first.dirs[i])).contains(name));
        }
    }
    assert(listed(dirs_below(first.dirs, n)) =~= listed(dirs_below(second.dirs, n)));
}

/// The files of a directory itself, in another order, are the same files.
proof fn lemma_alike_own(first: DirView, second: DirView)
    requires
        alike(first, second),
        first.readable,
    ensures
        own_files(first).to_multiset() == own_files(second).to_multiset(),
{
    lemma_map_rearranged(
        first.files,
        second.files,
        |f: FileView| Located { folder: folder_name(first.path), file: f },
    );
    assert(own_files(second) =~= second.files.map_values(
        |f: FileView| Located { folder: folder_name(first.path), file: f },
    ));
}

/// The walks from two directories of which the one is the other listed in
/// another order meet the same files, list the same folders and find the
/// same directories unreadable.
pub proof fn lemma_alike_walks(first: DirView, second: DirView)
    requires
        alike(first, second),
    ensures
        tree_files(first).to_multiset() == tree_files(second).to_multiset(),
        listed(tree_dirs(first)) == listed(tree_dirs(second)),
        unreadable_among(tree_dirs(first)).to_multiset() == unreadable_among(
            tree_dirs(second),
        ).to_multiset(),
    decreases first, 1nat,
{
    let one = seq![first];
    let other = seq![second];
    assert(one.drop_last() =~= Seq::<DirView>::empty());
    assert(other.drop_last() =~= Seq::<DirView>::empty());
    assert(unreadable_among(one) =~= unreadable_among(other)) by {
        reveal_with_fuel(Seq::filter_map, 2);
    }
    if first.readable {
        lemma_alike_below(first, second);
        lemma_alike_own(first, second);
        let n = first.dirs.len();
        let m = second.dirs.len();
        vstd::seq_lib::lemma_multiset_commutative(own_files(first), files_below(first.dirs, n));
        vstd::seq_lib::lemma_multiset_commutative(own_files(second), files_below(second.dirs, m));
        lemma_file_order_does_not_matter(tree_files(first), tree_files(second));
        lemma_listed_one(first);
        lemma_listed_one(second);
        lemma_listed_add(one, dirs_below(first.dirs, n));
        lemma_listed_add(other, dirs_below(second.dirs, m));
        lemma_unreadable_add(one, dirs_below(first.dirs, n));
        lemma_unreadable_add(other, dirs_below(second.dirs, m));
        vstd::seq_lib::lemma_multiset_commutative(
            unreadable_among(one),
            unreadable_among(dirs_below(first.dirs, n)),
        );
        vstd::seq_lib::lemma_multiset_commutative(
            unreadable_among(other),
            unreadable_among(dirs_below(second.dirs, m)),
        );
    } else {
        assert(entries_of(Seq::<Located>::empty()) =~= Seq::empty());
        lemma_listed_one(first);
        lemma_listed_one(second);
    }
}

/// The order of the listings does not matter: two trees of which the one
/// is the other listed in another order have the same folders, the same
/// entries and the same reports, each as often.
pub proof fn lemma_listing_order_does_not_matter(first: DirView, second: DirView)
    requires
        alike(first, second),
    ensures
        root_folders(first) == root_folders(second),
        tree_entries(first).to_multiset() == tree_entries(second).to_multiset(),
        drops_of(tree_files(first)).to_multiset() == drops_of(tree_files(second)).to_multiset(),
        first.readable ==> unreadable_among(
            dirs_below(first.dirs, first.dirs.len()),
        ).to_multiset() == unreadable_among(
            dirs_below(second.dirs, second.dirs.len()),
        ).to_multiset(),
{
    lemma_alike_walks(first, second);
    lemma_file_order_does_not_matter(tree_files(first), tree_files(second));
    if first.readable {
        lemma_alike_below(first, second);
        lemma_alike_own(first, second);
        lemma_file_order_does_not_matter(own_files(first), own_files(second));
    }
}

/// Two scans of one tree agree, whatever the order in which the directories
/// were listed and the files recorded: the folders are the same sequence,
/// and the entries are the same but for the identifiers and the order.
pub proof fn lemma_scans_agree(first: DirView, second: DirView, one: Index, other: Index)
    requires
        alike(first, second),
        is_index_of(first, one),
        is_index_of(second, other),
    ensures
        one.folder_names() == other.folder_names(),
        contents(one.entries()).to_multiset() == contents(other.entries()).to_multiset(),
{
    lemma_listing_order_does_not_matter(first, second);
    lemma_ascending_unique(one.folder_names(), other.folder_names());
}

} // verus!
