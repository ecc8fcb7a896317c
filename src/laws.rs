use vstd::prelude::*;

use crate::filter::{direct_entries, filter_entries, PathFilter};
use crate::history::History;
use crate::segment::{entries_view, segments_of, segments_upto, segs_view, Entries, Segment};

verus! {

/// The positions of all segments, concatenated in segment order.
pub open spec fn flatten(segs: Seq<((Seq<u8>, Seq<u8>), Seq<int>)>) -> Seq<int>
    decreases segs.len(),
{
    if segs.len() == 0 {
        Seq::empty()
    } else {
        flatten(segs.drop_last()) + segs.last().1
    }
}

/// The positions `0..n`.
pub open spec fn positions(n: int) -> Seq<int> {
    Seq::new(n as nat, |i: int| i)
}

/// Segmenting the same history twice, with the same tags and filter, gives
/// the same windows with the same boundaries, members and order.
pub proof fn lemma_idempotent(
    head: (Seq<u8>, Seq<u8>),
    ids: Seq<Seq<u8>>,
    tags: Map<Seq<u8>, (Seq<u8>, Seq<u8>)>,
    entries: Option<Entries>,
    first: Seq<Segment>,
    second: Seq<Segment>,
)
    requires
        segs_view(first) == segments_of(head, ids, tags, entries),
        segs_view(second) == segments_of(head, ids, tags, entries),
    ensures
        segs_view(first) == segs_view(second),
{
}

proof fn lemma_partition_upto(
    head: (Seq<u8>, Seq<u8>),
    ids: Seq<Seq<u8>>,
    tags: Map<Seq<u8>, (Seq<u8>, Seq<u8>)>,
    k: int,
)
    requires
        0 <= k <= ids.len(),
    ensures
        flatten(segments_upto(head, ids, tags, None, k)) == positions(k),
    decreases k,
{
    if k == 0 {
        let s = segments_upto(head, ids, tags, None, 0);
        let e = Seq::<((Seq<u8>, Seq<u8>), Seq<int>)>::empty();
        assert(s.drop_last() =~= e);
        assert(flatten(e) == Seq::<int>::empty());
        assert(flatten(s) == flatten(s.drop_last()) + s.last().1);
        assert(flatten(s) =~= positions(0));
    } else {
        lemma_partition_upto(head, ids, tags, k - 1);
        lemma_boundaries_upto(head, ids, tags, None, k - 1);
        let prev = segments_upto(head, ids, tags, None, k - 1);
        let s = segments_upto(head, ids, tags, None, k);
        if tags.contains_key(ids[k - 1]) {
            assert(s.drop_last() =~= prev);
            assert(flatten(s) == flatten(s.drop_last()) + s.last().1);
            assert(flatten(s) =~= flatten(prev).push(k - 1));
        } else {
            assert(crate::segment::relevant_at(None, k - 1));
            let last = prev.last();
            assert(s.drop_last() =~= prev.drop_last());
            assert(flatten(prev) == flatten(prev.drop_last()) + last.1);
            assert(s.last().1 == last.1.push(k - 1));
            assert(flatten(s) == flatten(s.drop_last()) + s.last().1);
            assert(flatten(s) =~= flatten(prev).push(k - 1));
        }
        assert(flatten(s) =~= flatten(prev).push(k - 1));
        assert(flatten(s) =~= positions(k));
    }
}

/// Without a path filter, every commit of the history is kept in exactly one
/// window: the windows' members, in order, are the positions of all commits.
pub proof fn lemma_partition(
    head: (Seq<u8>, Seq<u8>),
    ids: Seq<Seq<u8>>,
    tags: Map<Seq<u8>, (Seq<u8>, Seq<u8>)>,
)
    ensures
        flatten(segments_of(head, ids, tags, None)) == positions(ids.len() as int),
{
    lemma_partition_upto(head, ids, tags, ids.len() as int);
}

/// The first window of `segs` that opens at a tag, from the second window on,
/// starts with a tagged commit whose tag is its boundary.
pub open spec fn opened_by_tag(
    segs: Seq<((Seq<u8>, Seq<u8>), Seq<int>)>,
    ids: Seq<Seq<u8>>,
    tags: Map<Seq<u8>, (Seq<u8>, Seq<u8>)>,
    j: int,
) -> bool {
    &&& segs[j].1.len() > 0
    &&& 0 <= segs[j].1[0] < ids.len()
    &&& tags.contains_key(ids[segs[j].1[0]])
    &&& segs[j].0 == tags[ids[segs[j].1[0]]]
}

proof fn lemma_boundaries_upto(
    head: (Seq<u8>, Seq<u8>),
    ids: Seq<Seq<u8>>,
    tags: Map<Seq<u8>, (Seq<u8>, Seq<u8>)>,
    entries: Option<Entries>,
    k: int,
)
    requires
        0 <= k <= ids.len(),
    ensures
        ({
            let segs = segments_upto(head, ids, tags, entries, k);
            &&& segs.len() > 0
            &&& segs[0].0 == head
            &&& forall|j: int| 1 <= j < segs.len() ==> #[trigger] opened_by_tag(segs, ids, tags, j)
            &&& forall|j: int| 1 <= j < segs.len() ==> #[trigger] segs[j].1[0] < k
            &&& forall|a: int, b: int|
                1 <= a < b < segs.len() ==> #[trigger] segs[a].1[0] < #[trigger] segs[b].1[0]
            &&& forall|i: int|
                0 <= i < k && tags.contains_key(#[trigger] ids[i]) ==> exists|j: int|
                    1 <= j < segs.len() && segs[j].1[0] == i && segs[j].0 == tags[ids[i]]
        }),
    decreases k,
{
    if k > 0 {
        lemma_boundaries_upto(head, ids, tags, entries, k - 1);
        let prev = segments_upto(head, ids, tags, entries, k - 1);
        let segs = segments_upto(head, ids, tags, entries, k);
        if tags.contains_key(ids[k - 1]) {
            assert(segs == prev.push((tags[ids[k - 1]], seq![k - 1])));
            assert(opened_by_tag(segs, ids, tags, segs.len() - 1));
            assert forall|j: int| 1 <= j < segs.len() implies #[trigger] opened_by_tag(segs, ids, tags, j) by {
                if j < prev.len() {
                    assert(opened_by_tag(prev, ids, tags, j));
                }
            }
            assert forall|i: int|
                0 <= i < k && tags.contains_key(#[trigger] ids[i]) implies exists|j: int|
                    1 <= j < segs.len() && segs[j].1[0] == i && segs[j].0 == tags[ids[i]] by {
                if i == k - 1 {
                    assert(segs[segs.len() - 1].1[0] == i);
                } else {
                    let j = choose|j: int|
                        1 <= j < prev.len() && prev[j].1[0] == i && prev[j].0 == tags[ids[i]];
                    assert(segs[j] == prev[j]);
                }
            }
        } else if crate::segment::relevant_at(entries, k - 1) {
            let last = prev.last();
            assert(segs == prev.update(prev.len() - 1, (last.0, last.1.push(k - 1))));
            assert forall|j: int| 1 <= j < segs.len() implies #[trigger] opened_by_tag(segs, ids, tags, j) by {
                assert(opened_by_tag(prev, ids, tags, j));
                assert(segs[j].1[0] == prev[j].1[0]);
            }
            assert forall|j: int| 1 <= j < segs.len() implies #[trigger] segs[j].1[0] < k by {
                assert(opened_by_tag(prev, ids, tags, j));
                assert(segs[j].1[0] == prev[j].1[0]);
            }
            assert forall|a: int, b: int|
                1 <= a < b < segs.len() implies #[trigger] segs[a].1[0] < #[trigger] segs[b].1[0] by {
                assert(opened_by_tag(prev, ids, tags, a));
                assert(opened_by_tag(prev, ids, tags, b));
                assert(segs[a].1[0] == prev[a].1[0]);
                assert(segs[b].1[0] == prev[b].1[0]);
                assert(prev[a].1[0] < prev[b].1[0]);
            }
            assert forall|i: int|
                0 <= i < k && tags.contains_key(#[trigger] ids[i]) implies exists|j: int|
                    1 <= j < segs.len() && segs[j].1[0] == i && segs[j].0 == tags[ids[i]] by {
                let j = choose|j: int|
                    1 <= j < prev.len() && prev[j].1[0] == i && prev[j].0 == tags[ids[i]];
                assert(opened_by_tag(prev, ids, tags, j));
                assert(segs[j].1[0] == prev[j].1[0]);
            }
        }
    }
}

/// The first window is bounded by the head; every later one is bounded by the
/// tag of the commit it starts with, and those commits come in history order.
pub proof fn lemma_tag_order(
    head: (Seq<u8>, Seq<u8>),
    ids: Seq<Seq<u8>>,
    tags: Map<Seq<u8>, (Seq<u8>, Seq<u8>)>,
    entries: Option<Entries>,
)
    ensures
        ({
            let segs = segments_of(head, ids, tags, entries);
            &&& segs.len() > 0
            &&& segs[0].0 == head
            &&& forall|j: int| 1 <= j < segs.len() ==> #[trigger] opened_by_tag(segs, ids, tags, j)
            &&& forall|a: int, b: int|
                1 <= a < b < segs.len() ==> #[trigger] segs[a].1[0] < #[trigger] segs[b].1[0]
        }),
{
    lemma_boundaries_upto(head, ids, tags, entries, ids.len() as int);
}

/// Every commit that a tag resolves to opens the window bounded by that tag and
/// is kept in it, whatever the filter decides about it.
pub proof fn lemma_tagged_commit_kept(
    head: (Seq<u8>, Seq<u8>),
    ids: Seq<Seq<u8>>,
    tags: Map<Seq<u8>, (Seq<u8>, Seq<u8>)>,
    entries: Option<Entries>,
    i: int,
)
    requires
        0 <= i < ids.len(),
        tags.contains_key(ids[i]),
    ensures
        exists|j: int|
            0 <= j < segments_of(head, ids, tags, entries).len()
                && segments_of(head, ids, tags, entries)[j].1[0] == i
                && segments_of(head, ids, tags, entries)[j].0 == tags[ids[i]],
{
    lemma_boundaries_upto(head, ids, tags, entries, ids.len() as int);
    let segs = segments_of(head, ids, tags, entries);
    assert(exists|j: int| 1 <= j < segs.len() && segs[j].1[0] == i && segs[j].0 == tags[ids[i]]);
}

/// For a package one directory below the root, the nested filter with that one
/// component decides as the direct filter does, as long as the nested lookups
/// found the same entries as the direct lookups.
pub proof fn lemma_single_matches_multi(
    history: History,
    name: Vec<u8>,
    components: Vec<Vec<u8>>,
    nested: Seq<Option<Vec<u8>>>,
)
    requires
        components@.len() == 1,
        components@[0]@ == name@,
        entries_view(nested) == direct_entries(history, name@),
    ensures
        filter_entries(history, PathFilter::SingleComponent(name), Seq::empty())
            == filter_entries(history, PathFilter::MultiComponent(components), nested),
{
}

} // verus!

verus! {

/// A strictly increasing list of positions below `k`.
pub open spec fn increasing_below(s: Seq<int>, k: int) -> bool {
    &&& forall|a: int, b: int| 0 <= a < b < s.len() ==> #[trigger] s[a] < #[trigger] s[b]
    &&& forall|a: int| 0 <= a < s.len() ==> 0 <= #[trigger] s[a] < k
}

proof fn lemma_at_most_once_upto(
    head: (Seq<u8>, Seq<u8>),
    ids: Seq<Seq<u8>>,
    tags: Map<Seq<u8>, (Seq<u8>, Seq<u8>)>,
    entries: Option<Entries>,
    k: int,
)
    requires
        0 <= k <= ids.len(),
    ensures
        increasing_below(flatten(segments_upto(head, ids, tags, entries, k)), k),
    decreases k,
{
    let s = segments_upto(head, ids, tags, entries, k);
    if k == 0 {
        let e = Seq::<((Seq<u8>, Seq<u8>), Seq<int>)>::empty();
        assert(s.drop_last() =~= e);
        assert(flatten(e) == Seq::<int>::empty());
        assert(flatten(s) == flatten(s.drop_last()) + s.last().1);
        assert(flatten(s) =~= Seq::<int>::empty());
    } else {
        lemma_at_most_once_upto(head, ids, tags, entries, k - 1);
        lemma_boundaries_upto(head, ids, tags, entries, k - 1);
        let prev = segments_upto(head, ids, tags, entries, k - 1);
        let fp = flatten(prev);
        if tags.contains_key(ids[k - 1]) {
            assert(s.drop_last() =~= prev);
            assert(flatten(s) == flatten(s.drop_last()) + s.last().1);
            assert(flatten(s) =~= fp.push(k - 1));
        } else if crate::segment::relevant_at(entries, k - 1) {
            let last = prev.last();
            assert(s.drop_last() =~= prev.drop_last());
            assert(fp == flatten(prev.drop_last()) + last.1);
            assert(s.last().1 == last.1.push(k - 1));
            assert(flatten(s) == flatten(s.drop_last()) + s.last().1);
            assert(flatten(s) =~= fp.push(k - 1));
        } else {
            assert(s == prev);
        }
    }
}

/// Whatever the filter, the windows' members, concatenated in window order, are
/// strictly increasing positions of the history: no commit is kept twice.
/// For a history that lists each commit once, no commit id is kept twice.
pub proof fn lemma_kept_at_most_once(history: History, tags: Map<Seq<u8>, (Seq<u8>, Seq<u8>)>, entries: Option<Entries>)
    requires
        history.wf(),
    ensures
        increasing_below(
            flatten(segments_of(history.head@, history.ids(), tags, entries)),
            history.items.len() as int,
        ),
        ({
            let f = flatten(segments_of(history.head@, history.ids(), tags, entries));
            forall|a: int, b: int|
                0 <= a < b < f.len() ==> history.ids()[#[trigger] f[a]] != history.ids()[#[trigger] f[b]]
        }),
{
    let ids = history.ids();
    lemma_at_most_once_upto(history.head@, ids, tags, entries, ids.len() as int);
    let f = flatten(segments_of(history.head@, ids, tags, entries));
    assert forall|a: int, b: int| 0 <= a < b < f.len() implies ids[#[trigger] f[a]] != ids[#[trigger] f[b]] by {
        assert(f[a] < f[b]);
        assert(ids[f[a]] == history.items@[f[a]].id@);
        assert(ids[f[b]] == history.items@[f[b]].id@);
    }
}

} // verus!

verus! {

proof fn lemma_unreached_upto(
    head: (Seq<u8>, Seq<u8>),
    ids: Seq<Seq<u8>>,
    tags: Map<Seq<u8>, (Seq<u8>, Seq<u8>)>,
    entries: Option<Entries>,
    t: Seq<u8>,
    k: int,
)
    requires
        0 <= k <= ids.len(),
        !ids.contains(t),
    ensures
        segments_upto(head, ids, tags, entries, k) == segments_upto(head, ids, tags.remove(t), entries, k),
    decreases k,
{
    if k > 0 {
        lemma_unreached_upto(head, ids, tags, entries, t, k - 1);
        if ids[k - 1] == t {
            assert(ids.contains(t));
        }
        assert(tags.contains_key(ids[k - 1]) == tags.remove(t).contains_key(ids[k - 1]));
    }
}

/// A tag whose commit the history does not reach changes nothing: the windows
/// are those of the mapping without it, and no window opened by a tag is
/// bounded by it. Holds of any mapping that files each tag under its target.
pub proof fn lemma_unreached_tag_ignored(
    head: (Seq<u8>, Seq<u8>),
    ids: Seq<Seq<u8>>,
    tags: Map<Seq<u8>, (Seq<u8>, Seq<u8>)>,
    entries: Option<Entries>,
    t: Seq<u8>,
)
    requires
        !ids.contains(t),
        tags.contains_key(t),
        forall|x: Seq<u8>| #[trigger] tags.contains_key(x) ==> tags[x].1 == x,
    ensures
        segments_of(head, ids, tags, entries) == segments_of(head, ids, tags.remove(t), entries),
        forall|j: int|
            1 <= j < segments_of(head, ids, tags, entries).len() ==> #[trigger] segments_of(
                head,
                ids,
                tags,
                entries,
            )[j].0 != tags[t],
{
    lemma_unreached_upto(head, ids, tags, entries, t, ids.len() as int);
    lemma_tag_order(head, ids, tags, entries);
    let segs = segments_of(head, ids, tags, entries);
    assert forall|j: int| 1 <= j < segs.len() implies #[trigger] segs[j].0 != tags[t] by {
        assert(opened_by_tag(segs, ids, tags, j));
        let f = segs[j].1[0];
        if ids[f] == t {
            assert(ids.contains(t));
        }
    }
}

/// Every tag in a mapping built from references is filed under its target.
pub proof fn lemma_tag_map_by_target(refs: Seq<(Seq<u8>, Seq<u8>)>, prefix: Option<Seq<u8>>, x: Seq<u8>)
    ensures
        crate::tags::tag_map(refs, prefix).contains_key(x) ==> crate::tags::tag_map(refs, prefix)[x].1 == x,
    decreases refs.len(),
{
    if refs.len() > 0 {
        lemma_tag_map_by_target(refs.drop_last(), prefix, x);
    }
}

} // verus!

verus! {

/// For a history built from an ancestry, without a path filter the windows
/// together keep, in traversal order, exactly the commits whose message is
/// text: one position for each of them, and the commit at each position is
/// the matching decodable commit.
pub proof fn lemma_history_partition(
    commits: Seq<crate::history::RawCommit>,
    history: History,
    tags: Map<Seq<u8>, (Seq<u8>, Seq<u8>)>,
)
    requires
        crate::history::items_view(history.items@) == crate::history::decodable(commits),
    ensures
        flatten(segments_of(history.head@, history.ids(), tags, None)) == positions(
            crate::history::decodable(commits).len() as int,
        ),
        forall|k: int|
            0 <= k < history.items.len() ==> #[trigger] history.ids()[k]
                == crate::history::decodable(commits)[k].0,
{
    lemma_partition(history.head@, history.ids(), tags);
    assert(crate::history::items_view(history.items@).len() == history.items.len());
    assert forall|k: int| 0 <= k < history.items.len() implies #[trigger] history.ids()[k]
        == crate::history::decodable(commits)[k].0 by {
        assert(crate::history::items_view(history.items@)[k] == history.items@[k]@);
    }
}

} // verus!
