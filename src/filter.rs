use vstd::prelude::*;

use crate::history::{copy_bytes, History, Reference};
use crate::objects::{direct_entry, find_entry};
use crate::segment::{
    as_tag_map, distinct_targets, entries_view, is_tagged, opt_entries, refs_view, segments_of,
    segs_view, split_history, tag_for, unreached_tags, Entries, Segment,
};
use crate::tags::{is_tag_ref, opt_prefix, tag_map, tags_by_commit};

verus! {

/// How the commits relevant to a package are told apart.
pub enum PathFilter {
    /// The package is the repository root: every commit is relevant.
    Unfiltered,
    /// The package is one directory below the root, looked up in the root tree.
    SingleComponent(Vec<u8>),
    /// The package is nested deeper: the path components, outermost first.
    MultiComponent(Vec<Vec<u8>>),
}

/// The view of a list of path components.
pub open spec fn components_view(c: Seq<Vec<u8>>) -> Seq<Seq<u8>> {
    c.map_values(|v: Vec<u8>| v@)
}

/// The filter for a package directory given by its components below the root.
pub open spec fn filter_for(components: Seq<Seq<u8>>) -> (int, Seq<Seq<u8>>) {
    if components.len() == 0 {
        (0, components)
    } else if components.len() == 1 {
        (1, components)
    } else {
        (2, components)
    }
}

/// The kind of a filter (0, 1 or 2 components and more) and its components.
pub open spec fn filter_view(f: PathFilter) -> (int, Seq<Seq<u8>>) {
    match f {
        PathFilter::Unfiltered => (0, Seq::empty()),
        PathFilter::SingleComponent(n) => (1, seq![n@]),
        PathFilter::MultiComponent(c) => (2, components_view(c@)),
    }
}

/// Chooses the filter of a package from its directory's components below the
/// repository root: none for the root, the direct lookup for one component,
/// the nested lookup for more.
pub fn select_path_filter(components: &Vec<Vec<u8>>) -> (r: PathFilter)
    ensures
        filter_view(r) == filter_for(components_view(components@)),
{
    if components.len() == 0 {
        assert(components_view(components@) =~= Seq::<Seq<u8>>::empty());
        PathFilter::Unfiltered
    } else if components.len() == 1 {
        assert(components_view(components@) =~= seq![components@[0]@]);
        PathFilter::SingleComponent(copy_bytes(&components[0]))
    } else {
        let mut out: Vec<Vec<u8>> = Vec::new();
        let mut i: usize = 0;
        while i < components.len()
            invariant
                0 <= i <= components.len(),
                components_view(out@) == components_view(components@).subrange(0, i as int),
            decreases components.len() - i,
        {
            let c = copy_bytes(&components[i]);
            let ghost before = out@;
            out.push(c);
            proof {
                assert(components_view(components@)[i as int] == components@[i as int]@);
                assert(components_view(out@) =~= components_view(before).push(c@));
            }
            i = i + 1;
            assert(components_view(out@) =~= components_view(components@).subrange(0, i as int));
        }
        assert(components_view(components@).subrange(0, i as int) =~= components_view(components@));
        PathFilter::MultiComponent(out)
    }
}

/// The entry named `name` in the root tree of each commit, in traversal order.
pub open spec fn direct_entries(history: History, name: Seq<u8>) -> Entries {
    history.trees().map_values(|t: Seq<u8>| direct_entry(t, name))
}

/// Looks up the entry named `name` in the root tree of every commit.
pub fn single_component_entries(history: &History, name: &Vec<u8>) -> (r: Vec<Option<Vec<u8>>>)
    requires
        history.trees_well_formed(),
    ensures
        r.len() == history.items.len(),
        entries_view(r@) == direct_entries(*history, name@),
{
    let mut out: Vec<Option<Vec<u8>>> = Vec::new();
    let mut i: usize = 0;
    while i < history.items.len()
        invariant
            0 <= i <= history.items.len(),
            history.trees_well_formed(),
            entries_view(out@) == direct_entries(*history, name@).subrange(0, i as int),
        decreases history.items.len() - i,
    {
        let e = find_entry(&history.items[i].tree_data, name);
        let ghost before = out@;
        out.push(e);
        proof {
            assert(history.trees()[i as int] == history.items@[i as int].tree_data@);
            assert(entries_view(out@) =~= entries_view(before).push(crate::segment::opt_bytes(e)));
        }
        i = i + 1;
        assert(entries_view(out@) =~= direct_entries(*history, name@).subrange(0, i as int));
    }
    assert(direct_entries(*history, name@).subrange(0, i as int) =~= direct_entries(*history, name@));
    out
}

/// The package entries a filter compares: none for `Unfiltered`, the direct
/// lookups for one component, and the given `nested` lookups otherwise.
pub open spec fn filter_entries(history: History, filter: PathFilter, nested: Seq<Option<Vec<u8>>>) -> Option<Entries> {
    match filter {
        PathFilter::Unfiltered => None,
        PathFilter::SingleComponent(n) => Some(direct_entries(history, n@)),
        PathFilter::MultiComponent(_) => Some(entries_view(nested)),
    }
}

/// A tag that the mapping holds and whose commit the history does not reach.
pub open spec fn is_ignored_tag(
    tags: Map<Seq<u8>, (Seq<u8>, Seq<u8>)>,
    ids: Seq<Seq<u8>>,
    x: (Seq<u8>, Seq<u8>),
) -> bool {
    tags.contains_key(x.1) && tags[x.1] == x && !ids.contains(x.1)
}

proof fn lemma_unreached_members(tags: Seq<(Seq<u8>, Seq<u8>)>, ids: Seq<Seq<u8>>, x: (Seq<u8>, Seq<u8>))
    ensures
        unreached_tags(tags, ids).contains(x) == (tags.contains(x) && !ids.contains(x.1)),
    decreases tags.len(),
{
    if tags.len() > 0 {
        let rest = tags.drop_last();
        lemma_unreached_members(rest, ids, x);
        assert(tags =~= rest.push(tags.last()));
        if rest.contains(x) {
            let k = choose|k: int| 0 <= k < rest.len() && rest[k] == x;
            assert(tags[k] == x);
        }
        if tags.contains(x) {
            let k = choose|k: int| 0 <= k < tags.len() && tags[k] == x;
            if k < rest.len() {
                assert(rest[k] == x);
            }
        }
        let u = unreached_tags(rest, ids);
        if !ids.contains(tags.last().1) {
            if u.contains(x) {
                let k = choose|k: int| 0 <= k < u.len() && u[k] == x;
                assert(u.push(tags.last())[k] == x);
            }
            if u.push(tags.last()).contains(x) {
                let k = choose|k: int| 0 <= k < u.len() + 1 && u.push(tags.last())[k] == x;
                if k < u.len() {
                    assert(u[k] == x);
                }
            }
            assert(u.push(tags.last())[u.len() as int] == tags.last());
        }
    }
}

proof fn lemma_distinct_members(tags: Seq<(Seq<u8>, Seq<u8>)>, x: (Seq<u8>, Seq<u8>))
    requires
        distinct_targets(tags),
    ensures
        tags.contains(x) == (as_tag_map(tags).contains_key(x.1) && as_tag_map(tags)[x.1] == x),
{
    if tags.contains(x) {
        let k = choose|k: int| 0 <= k < tags.len() && tags[k] == x;
        crate::segment::lemma_tag_for_distinct(tags, k);
    }
    if is_tagged(tags, x.1) && tag_for(tags, x.1) == x {
        let k = choose|k: int| 0 <= k < tags.len() && tags[k].1 == x.1;
        crate::segment::lemma_tag_for_distinct(tags, k);
    }
}

/// Splits the history into the release windows of one package.
///
/// `tag_refs` are the references under `refs/tags/`, and the history lists
/// each commit once, with well-formed trees where the filter reads them; `tag_prefix` is the
/// package's tag prefix, if it has one. For a nested package, `nested` holds
/// the package directory's entry in each commit, as the repository resolved it.
/// Returns the windows, newest first, and the package's tags whose commit is
/// not in the history.
pub fn ref_segments(
    history: &History,
    tag_refs: &Vec<Reference>,
    tag_prefix: Option<&Vec<u8>>,
    filter: &PathFilter,
    nested: &Vec<Option<Vec<u8>>>,
) -> (r: (Vec<Segment>, Vec<Reference>))
    requires
        history.wf(),
        filter is SingleComponent ==> history.trees_well_formed(),
        filter is MultiComponent ==> nested.len() == history.items.len(),
        forall|k: int| 0 <= k < tag_refs.len() ==> #[trigger] is_tag_ref(tag_refs@[k].name@),
    ensures
        segs_view(r.0@) == segments_of(
            history.head@,
            history.ids(),
            tag_map(refs_view(tag_refs@), opt_prefix(tag_prefix)),
            filter_entries(*history, *filter, nested@),
        ),
        forall|x: (Seq<u8>, Seq<u8>)|
            #![trigger refs_view(r.1@).contains(x)]
            refs_view(r.1@).contains(x) == is_ignored_tag(
                tag_map(refs_view(tag_refs@), opt_prefix(tag_prefix)),
                history.ids(),
                x,
            ),
{
    let tags = tags_by_commit(tag_refs, tag_prefix);
    let r = match filter {
        PathFilter::Unfiltered => split_history(history, &tags, None),
        PathFilter::SingleComponent(name) => {
            let entries = single_component_entries(history, name);
            split_history(history, &tags, Some(&entries))
        },
        PathFilter::MultiComponent(_) => split_history(history, &tags, Some(nested)),
    };
    proof {
        let tv = refs_view(tags@);
        assert forall|x: (Seq<u8>, Seq<u8>)| #[trigger] refs_view(r.1@).contains(x) == is_ignored_tag(
            as_tag_map(tv),
            history.ids(),
            x,
        ) by {
            lemma_unreached_members(tv, history.ids(), x);
            lemma_distinct_members(tv, x);
        }
    }
    r
}

} // verus!
