use vstd::prelude::*;

verus! {

/// A named reference and the commit id it resolves to (annotated tags peeled).
pub struct Reference {
    pub name: Vec<u8>,
    pub target: Vec<u8>,
}

impl View for Reference {
    type V = (Seq<u8>, Seq<u8>);

    open spec fn view(&self) -> (Seq<u8>, Seq<u8>) {
        (self.name@, self.target@)
    }
}

/// Returns whether two byte strings are equal.
pub fn bytes_equal(a: &Vec<u8>, b: &Vec<u8>) -> (r: bool)
    ensures
        r == (a@ == b@),
{
    if a.len() != b.len() {
        return false;
    }
    let mut i: usize = 0;
    while i < a.len()
        invariant
            a.len() == b.len(),
            0 <= i <= a.len(),
            forall|k: int| 0 <= k < i ==> a@[k] == b@[k],
        decreases a.len() - i,
    {
        if a[i] != b[i] {
            return false;
        }
        i = i + 1;
    }
    assert(a@ =~= b@);
    true
}

/// Copies a byte string.
pub fn copy_bytes(a: &Vec<u8>) -> (r: Vec<u8>)
    ensures
        r@ == a@,
{
    let mut r: Vec<u8> = Vec::new();
    let mut i: usize = 0;
    while i < a.len()
        invariant
            0 <= i <= a.len(),
            r@ == a@.subrange(0, i as int),
        decreases a.len() - i,
    {
        r.push(a[i]);
        i = i + 1;
        assert(r@ =~= a@.subrange(0, i as int));
    }
    assert(a@.subrange(0, a.len() as int) =~= a@);
    r
}

} // verus!

verus! {

/// One retained commit: its id, its message, and the raw bytes of its root tree.
pub struct Item {
    pub id: Vec<u8>,
    pub message: String,
    pub tree_data: Vec<u8>,
}

/// The commits reachable from `head`, each before its own ancestors.
pub struct History {
    pub head: Reference,
    pub items: Vec<Item>,
}

impl History {
    /// The ids of the commits, in traversal order.
    pub open spec fn ids(&self) -> Seq<Seq<u8>> {
        self.items@.map_values(|it: Item| it.id@)
    }

    /// The root trees of the commits, in traversal order.
    pub open spec fn trees(&self) -> Seq<Seq<u8>> {
        self.items@.map_values(|it: Item| it.tree_data@)
    }

    /// Every root tree is a well-formed tree object.
    pub open spec fn trees_well_formed(&self) -> bool {
        forall|i: int|
            0 <= i < self.items.len() ==> #[trigger] crate::objects::well_formed_tree(
                self.items@[i].tree_data@,
            )
    }

    /// Each commit of the ancestry is listed once.
    pub open spec fn wf(&self) -> bool {
        forall|i: int, j: int|
            0 <= i < j < self.items.len() ==> self.items@[i].id@ != self.items@[j].id@
    }
}

} // verus!

verus! {

/// A commit as read from the repository: id, raw message bytes, root-tree bytes.
pub struct RawCommit {
    pub id: Vec<u8>,
    pub message: Vec<u8>,
    pub tree_data: Vec<u8>,
}

impl View for Item {
    type V = (Seq<u8>, Seq<char>, Seq<u8>);

    open spec fn view(&self) -> Self::V {
        (self.id@, self.message@, self.tree_data@)
    }
}

/// The commits whose message is text, as items, in their order.
pub open spec fn decodable(commits: Seq<RawCommit>) -> Seq<(Seq<u8>, Seq<char>, Seq<u8>)>
    decreases commits.len(),
{
    if commits.len() == 0 {
        Seq::empty()
    } else {
        let rest = decodable(commits.drop_last());
        let c = commits.last();
        match crate::objects::utf8_text(c.message@) {
            Some(m) => rest.push((c.id@, m, c.tree_data@)),
            None => rest,
        }
    }
}

/// The views of a list of items.
pub open spec fn items_view(items: Seq<Item>) -> Seq<(Seq<u8>, Seq<char>, Seq<u8>)> {
    items.map_values(|it: Item| it@)
}

/// Builds the history of `head` from its ancestry in traversal order. A commit
/// whose message is not valid UTF-8 is left out; the count of those is returned.
pub fn collect_history(head: Reference, commits: &Vec<RawCommit>) -> (r: (History, usize))
    ensures
        r.0.head@ == head@,
        items_view(r.0.items@) == decodable(commits@),
        r.1 == commits.len() - decodable(commits@).len(),
{
    let mut items: Vec<Item> = Vec::new();
    let mut dropped: usize = 0;
    let mut i: usize = 0;
    while i < commits.len()
        invariant
            0 <= i <= commits.len(),
            items_view(items@) == decodable(commits@.subrange(0, i as int)),
            dropped == i - items@.len(),
        decreases commits.len() - i,
    {
        let c = &commits[i];
        proof {
            assert(commits@.subrange(0, i + 1).drop_last() =~= commits@.subrange(0, i as int));
            assert(commits@.subrange(0, i + 1).last() == commits@[i as int]);
        }
        match crate::objects::decode_utf8(&c.message) {
            Some(m) => {
                let it = Item { id: copy_bytes(&c.id), message: m, tree_data: copy_bytes(&c.tree_data) };
                proof {
                    assert(items_view(items@.push(it)) =~= items_view(items@).push(it@));
                }
                items.push(it);
            },
            None => {
                dropped = dropped + 1;
            },
        }
        i = i + 1;
    }
    proof {
        assert(commits@.subrange(0, commits.len() as int) =~= commits@);
    }
    (History { head, items }, dropped)
}

} // verus!

verus! {

/// What the repository's HEAD is.
pub enum HeadKind {
    /// A branch, resolved to the reference it names.
    Symbolic(Reference),
    /// A branch that has no commit yet.
    Unborn,
    /// A commit checked out directly.
    Detached,
}

/// Why no history can be built.
#[derive(Debug, PartialEq, Eq, Structural)]
pub enum HistoryError {
    /// HEAD points at a commit directly: which ancestry to release is unclear.
    DetachedHead,
}

/// Decides where the history starts: at the branch HEAD names; nowhere for an
/// unborn branch, which is no error; a detached HEAD is refused.
pub fn resolve_head(head: HeadKind) -> (r: Result<Option<Reference>, HistoryError>)
    ensures
        match head {
            HeadKind::Symbolic(h) => r matches Ok(Some(x)) && x@ == h@,
            HeadKind::Unborn => r matches Ok(None),
            HeadKind::Detached => r == Err::<Option<Reference>, HistoryError>(HistoryError::DetachedHead),
        },
{
    match head {
        HeadKind::Symbolic(h) => Ok(Some(h)),
        HeadKind::Unborn => Ok(None),
        HeadKind::Detached => Err(HistoryError::DetachedHead),
    }
}

} // verus!
