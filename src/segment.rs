use vstd::prelude::*;

use crate::history::{bytes_equal, copy_bytes, History, Reference};

verus! {

/// The package directory entry (a tree or blob id) found in each commit's root tree,
/// in traversal order; `None` where the package directory is absent.
pub type Entries = Seq<Option<Seq<u8>>>;

/// A release window: the reference that opened it and the positions in the
/// history of the commits kept in it.
pub struct Segment {
    pub head: Reference,
    pub history: Vec<usize>,
}

impl View for Segment {
    type V = ((Seq<u8>, Seq<u8>), Seq<int>);

    open spec fn view(&self) -> Self::V {
        (self.head@, self.history@.map_values(|p: usize| p as int))
    }
}

/// A commit changed the package when the package entry exists in its tree and
/// differs from the entry in the next older commit, or that one has none.
pub open spec fn entry_changed(current: Option<Seq<u8>>, parent: Option<Seq<u8>>) -> bool {
    match current {
        Some(c) => match parent {
            Some(p) => c != p,
            None => true,
        },
        None => false,
    }
}

/// Relevance of the commit at position `i`; `entries == None` keeps every commit.
pub open spec fn relevant_at(entries: Option<Entries>, i: int) -> bool {
    match entries {
        None => true,
        Some(e) => entry_changed(e[i], if i + 1 < e.len() { e[i + 1] } else { None }),
    }
}

/// Whether some tag resolves to `id`.
pub open spec fn is_tagged(tags: Seq<(Seq<u8>, Seq<u8>)>, id: Seq<u8>) -> bool {
    exists|j: int| 0 <= j < tags.len() && tags[j].1 == id
}

/// The tag that resolves to `id`: the first one, and with distinct targets the only one.
pub open spec fn tag_for(tags: Seq<(Seq<u8>, Seq<u8>)>, id: Seq<u8>) -> (Seq<u8>, Seq<u8>)
    decreases tags.len(),
{
    if tags.len() == 0 {
        (Seq::empty(), id)
    } else if tags[0].1 == id {
        tags[0]
    } else {
        tag_for(tags.drop_first(), id)
    }
}

/// The segments after the first `k` commits of `ids` were read; the last one is still open.
pub open spec fn segments_upto(
    head: (Seq<u8>, Seq<u8>),
    ids: Seq<Seq<u8>>,
    tags: Map<Seq<u8>, (Seq<u8>, Seq<u8>)>,
    entries: Option<Entries>,
    k: int,
) -> Seq<((Seq<u8>, Seq<u8>), Seq<int>)>
    decreases k,
{
    if k <= 0 {
        seq![(head, Seq::<int>::empty())]
    } else {
        let prev = segments_upto(head, ids, tags, entries, k - 1);
        let i = k - 1;
        if tags.contains_key(ids[i]) {
            prev.push((tags[ids[i]], seq![i]))
        } else if relevant_at(entries, i) {
            let last = prev.last();
            prev.update(prev.len() - 1, (last.0, last.1.push(i)))
        } else {
            prev
        }
    }
}

/// All segments of a history, newest boundary first.
pub open spec fn segments_of(
    head: (Seq<u8>, Seq<u8>),
    ids: Seq<Seq<u8>>,
    tags: Map<Seq<u8>, (Seq<u8>, Seq<u8>)>,
    entries: Option<Entries>,
) -> Seq<((Seq<u8>, Seq<u8>), Seq<int>)> {
    segments_upto(head, ids, tags, entries, ids.len() as int)
}

/// A list of tags read as a mapping from target commit to tag; with distinct
/// targets each tag is the entry of its own target.
pub open spec fn as_tag_map(tags: Seq<(Seq<u8>, Seq<u8>)>) -> Map<Seq<u8>, (Seq<u8>, Seq<u8>)> {
    Map::new(|t: Seq<u8>| is_tagged(tags, t), |t: Seq<u8>| tag_for(tags, t))
}

/// The tags whose commit is not in `ids`, in their order.
pub open spec fn unreached_tags(tags: Seq<(Seq<u8>, Seq<u8>)>, ids: Seq<Seq<u8>>) -> Seq<
    (Seq<u8>, Seq<u8>),
>
    decreases tags.len(),
{
    if tags.len() == 0 {
        Seq::empty()
    } else {
        let rest = unreached_tags(tags.drop_last(), ids);
        if ids.contains(tags.last().1) {
            rest
        } else {
            rest.push(tags.last())
        }
    }
}

} // verus!

verus! {

/// The view of an optional id.
pub open spec fn opt_bytes(o: Option<Vec<u8>>) -> Option<Seq<u8>> {
    match o {
        Some(v) => Some(v@),
        None => None,
    }
}

/// The view of a list of package entries.
pub open spec fn entries_view(e: Seq<Option<Vec<u8>>>) -> Entries {
    e.map_values(|o: Option<Vec<u8>>| opt_bytes(o))
}

/// The views of a list of references.
pub open spec fn refs_view(r: Seq<Reference>) -> Seq<(Seq<u8>, Seq<u8>)> {
    r.map_values(|x: Reference| x@)
}

/// The views of a list of segments.
pub open spec fn segs_view(s: Seq<Segment>) -> Seq<((Seq<u8>, Seq<u8>), Seq<int>)> {
    s.map_values(|x: Segment| x@)
}

/// No two tags resolve to the same commit.
pub open spec fn distinct_targets(tags: Seq<(Seq<u8>, Seq<u8>)>) -> bool {
    forall|i: int, j: int| 0 <= i < j < tags.len() ==> tags[i].1 != tags[j].1
}

/// Copies a reference.
pub fn copy_reference(r: &Reference) -> (c: Reference)
    ensures
        c@ == r@,
{
    Reference { name: copy_bytes(&r.name), target: copy_bytes(&r.target) }
}

/// Decides whether a commit changed the package, given its package entry and
/// the entry of the next older commit.
pub fn entry_changed_exec(current: &Option<Vec<u8>>, parent: &Option<Vec<u8>>) -> (r: bool)
    ensures
        r == entry_changed(opt_bytes(*current), opt_bytes(*parent)),
{
    match current {
        Some(c) => match parent {
            Some(p) => !bytes_equal(c, p),
            None => true,
        },
        None => false,
    }
}

pub proof fn lemma_tag_for_distinct(tags: Seq<(Seq<u8>, Seq<u8>)>, j: int)
    requires
        distinct_targets(tags),
        0 <= j < tags.len(),
    ensures
        tag_for(tags, tags[j].1) == tags[j],
    decreases j,
{
    if j > 0 {
        lemma_tag_for_distinct(tags.drop_first(), j - 1);
    }
}

proof fn lemma_tag_for_first(tags: Seq<(Seq<u8>, Seq<u8>)>, id: Seq<u8>, j: int)
    requires
        0 <= j < tags.len(),
        tags[j].1 == id,
        forall|k: int| 0 <= k < j ==> tags[k].1 != id,
    ensures
        tag_for(tags, id) == tags[j],
    decreases j,
{
    if j > 0 {
        lemma_tag_for_first(tags.drop_first(), id, j - 1);
    }
}

/// Finds the tag that resolves to `id`.
pub fn find_tag(tags: &Vec<Reference>, id: &Vec<u8>) -> (r: Option<usize>)
    ensures
        match r {
            Some(j) => j < tags.len() && tags@[j as int].target@ == id@
                && tag_for(refs_view(tags@), id@) == tags@[j as int]@,
            None => !is_tagged(refs_view(tags@), id@),
        },
{
    let mut j: usize = 0;
    while j < tags.len()
        invariant
            0 <= j <= tags.len(),
            forall|k: int| 0 <= k < j ==> tags@[k].target@ != id@,
        decreases tags.len() - j,
    {
        if bytes_equal(&tags[j].target, id) {
            proof {
                lemma_tag_for_first(refs_view(tags@), id@, j as int);
            }
            return Some(j);
        }
        j = j + 1;
    }
    proof {
        assert forall|k: int| 0 <= k < tags.len() implies refs_view(tags@)[k].1 != id@ by {
            assert(refs_view(tags@)[k] == tags@[k]@);
        }
    }
    None
}

} // verus!

verus! {

/// The view of an optional list of package entries.
pub open spec fn opt_entries(entries: Option<&Vec<Option<Vec<u8>>>>) -> Option<Entries> {
    match entries {
        Some(e) => Some(entries_view(e@)),
        None => None,
    }
}

proof fn lemma_contains_push(s: Seq<Seq<u8>>, x: Seq<u8>, t: Seq<u8>)
    ensures
        s.push(x).contains(t) == (s.contains(t) || x == t),
{
    if s.contains(t) {
        let k = choose|k: int| 0 <= k < s.len() && s[k] == t;
        assert(s.push(x)[k] == t);
    }
    if x == t {
        assert(s.push(x)[s.len() as int] == t);
    }
    if s.push(x).contains(t) {
        let k = choose|k: int| 0 <= k < s.push(x).len() && s.push(x)[k] == t;
        if k < s.len() {
            assert(s[k] == t);
        }
    }
}

/// Decides relevance of the commit at position `i`.
fn relevant_exec(entries: Option<&Vec<Option<Vec<u8>>>>, i: usize, n: usize) -> (r: bool)
    requires
        i < n,
        match entries {
            Some(e) => e.len() == n,
            None => true,
        },
    ensures
        r == relevant_at(opt_entries(entries), i as int),
{
    match entries {
        None => true,
        Some(e) => {
            let none: Option<Vec<u8>> = None;
            let r = if i + 1 < e.len() {
                entry_changed_exec(&e[i], &e[i + 1])
            } else {
                entry_changed_exec(&e[i], &none)
            };
            proof {
                let ev = entries_view(e@);
                assert(ev[i as int] == opt_bytes(e@[i as int]));
                if i + 1 < e.len() {
                    assert(ev[i + 1] == opt_bytes(e@[i + 1]));
                }
            }
            r
        },
    }
}

} // verus!

verus! {

/// Splits `history` into release windows in one pass, newest first. The
/// history lists each commit once, so each tag is met at most once.
///
/// The first window opens at the head; each commit that a tag resolves to closes
/// the current window and opens the next one, which always keeps that commit.
/// Any other commit is kept in the current window when it is relevant: always
/// without `entries`, else when its package entry changed against the next
/// older commit. Also returns the tags whose commit is not in the history.
pub fn split_history(
    history: &History,
    tags: &Vec<Reference>,
    entries: Option<&Vec<Option<Vec<u8>>>>,
) -> (r: (Vec<Segment>, Vec<Reference>))
    requires
        history.wf(),
        distinct_targets(refs_view(tags@)),
        match entries {
            Some(e) => e.len() == history.items.len(),
            None => true,
        },
    ensures
        segs_view(r.0@) == segments_of(
            history.head@,
            history.ids(),
            as_tag_map(refs_view(tags@)),
            opt_entries(entries),
        ),
        refs_view(r.1@) == unreached_tags(refs_view(tags@), history.ids()),
{
    let ghost ids = history.ids();
    let ghost tv = refs_view(tags@);
    let ghost tm = as_tag_map(tv);
    let ghost ev = opt_entries(entries);
    let n = history.items.len();
    let mut closed: Vec<Segment> = Vec::new();
    let mut cur = Segment { head: copy_reference(&history.head), history: Vec::new() };
    let mut used: Vec<bool> = Vec::new();
    let mut j: usize = 0;
    while j < tags.len()
        invariant
            0 <= j <= tags.len(),
            used@.len() == j,
            forall|k: int| 0 <= k < j ==> !used@[k],
        decreases tags.len() - j,
    {
        used.push(false);
        j = j + 1;
    }
    proof {
        assert(cur.history@.map_values(|p: usize| p as int) =~= Seq::<int>::empty());
        assert(segs_view(closed@).push(cur@) =~= segments_upto(history.head@, ids, tm, ev, 0));
    }
    let mut i: usize = 0;
    while i < n
        invariant
            n == history.items.len(),
            ids == history.ids(),
            tv == refs_view(tags@),
            tm == as_tag_map(tv),
            ev == opt_entries(entries),
            distinct_targets(tv),
            match entries {
                Some(e) => e.len() == n,
                None => true,
            },
            0 <= i <= n,
            used@.len() == tags.len(),
            forall|k: int|
                0 <= k < tags.len() ==> (used@[k] == ids.subrange(0, i as int).contains(
                    tags@[k].target@,
                )),
            segs_view(closed@).push(cur@) == segments_upto(history.head@, ids, tm, ev, i as int),
        decreases n - i,
    {
        let ghost prev = segments_upto(history.head@, ids, tm, ev, i as int);
        assert(ids[i as int] == history.items@[i as int].id@);
        proof {
            assert(ids.subrange(0, i + 1) =~= ids.subrange(0, i as int).push(ids[i as int]));
            assert forall|k: int| 0 <= k < tags.len() implies tv[k].1 == tags@[k].target@ by {
                assert(tv[k] == tags@[k]@);
            }
        }
        match find_tag(tags, &history.items[i].id) {
            Some(t) => {
                let opened = Segment { head: copy_reference(&tags[t]), history: vec![i] };
                let mut done = opened;
                std::mem::swap(&mut cur, &mut done);
                proof {
                    assert(segs_view(closed@.push(done)) =~= segs_view(closed@).push(done@));
                    assert(cur.history@.map_values(|p: usize| p as int) =~= seq![i as int]);
                }
                closed.push(done);
                used.set(t, true);
                proof {
                    assert(is_tagged(tv, ids[i as int])) by {
                        assert(tv[t as int].1 == ids[i as int]);
                    }
                    assert forall|k: int| 0 <= k < tags.len() implies (used@[k]
                        == ids.subrange(0, i + 1).contains(tags@[k].target@)) by {
                        lemma_contains_push(ids.subrange(0, i as int), ids[i as int], tags@[k].target@);
                        if k != t {
                            assert(tv[k].1 != tv[t as int].1);
                        }
                    }
                    assert(segs_view(closed@).push(cur@) =~= prev.push((tm[ids[i as int]], seq![i as int])));
                }
            },
            None => {
                proof {
                    assert forall|k: int| 0 <= k < tags.len() implies (used@[k]
                        == ids.subrange(0, i + 1).contains(tags@[k].target@)) by {
                        lemma_contains_push(ids.subrange(0, i as int), ids[i as int], tags@[k].target@);
                        assert(tv[k].1 != ids[i as int]);
                    }
                }
                if relevant_exec(entries, i, n) {
                    let ghost old_cur = cur@;
                    cur.history.push(i);
                    proof {
                        assert(cur.history@.map_values(|p: usize| p as int) =~= old_cur.1.push(i as int));
                        assert(segs_view(closed@).push(cur@) =~= prev.update(prev.len() - 1, (old_cur.0, old_cur.1.push(i as int))));
                    }
                }
            },
        }
        i = i + 1;
    }
    proof {
        assert(ids.subrange(0, n as int) =~= ids);
    }
    closed.push(cur);
    let mut ignored: Vec<Reference> = Vec::new();
    let mut k: usize = 0;
    while k < tags.len()
        invariant
            tv == refs_view(tags@),
            ids == history.ids(),
            0 <= k <= tags.len(),
            used@.len() == tags.len(),
            forall|q: int| 0 <= q < tags.len() ==> (used@[q] == ids.contains(tags@[q].target@)),
            refs_view(ignored@) == unreached_tags(tv.subrange(0, k as int), ids),
        decreases tags.len() - k,
    {
        proof {
            assert(tv.subrange(0, k + 1).drop_last() =~= tv.subrange(0, k as int));
            assert(tv[k as int] == tags@[k as int]@);
        }
        if !used[k] {
            let c = copy_reference(&tags[k]);
            proof {
                assert(refs_view(ignored@.push(c)) =~= refs_view(ignored@).push(c@));
            }
            ignored.push(c);
        }
        k = k + 1;
    }
    proof {
        assert(tv.subrange(0, tags.len() as int) =~= tv);
    }
    (closed, ignored)
}

} // verus!
