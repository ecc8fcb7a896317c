use vstd::prelude::*;

use git_repository::bstr::ByteSlice;
use git_repository::objs::TreeRefIter;

verus! {

/// The (file name, object id) pairs that decode from a tree object, in order,
/// up to the first malformed entry.
pub uninterp spec fn tree_entries_of(tree: Seq<u8>) -> Seq<(Seq<u8>, Seq<u8>)>;

/// The text of a byte string that is valid UTF-8, `None` otherwise.
pub uninterp spec fn utf8_text(bytes: Seq<u8>) -> Option<Seq<char>>;

/// The position of the first `b` in `s` at or after `k`; `s.len()` if there is none.
pub open spec fn find_from(s: Seq<u8>, b: u8, k: int) -> int
    decreases s.len() - k,
{
    if k < 0 || k >= s.len() {
        s.len() as int
    } else if s[k] == b {
        k
    } else {
        find_from(s, b, k + 1)
    }
}

pub open spec fn is_octal_digit(b: u8) -> bool {
    48 <= b <= 55
}

/// From position `p` on, `s` is a run of tree entries, each an octal mode, a
/// space, a name, a NUL byte and a 20-byte object id.
pub open spec fn well_formed_from(s: Seq<u8>, p: int) -> bool
    decreases s.len() - p,
{
    if p < 0 || p > s.len() {
        false
    } else if p == s.len() {
        true
    } else {
        let sp = find_from(s, 32u8, p);
        let nul = find_from(s, 0u8, sp + 1);
        &&& p < sp < s.len()
        &&& forall|k: int| p <= k < sp ==> #[trigger] is_octal_digit(s[k])
        &&& sp < nul
        &&& nul + 21 <= s.len()
        &&& well_formed_from(s, nul + 21)
    }
}

/// The bytes of a tree object as git writes it: a run of entries, each
/// `<octal mode> SP <name> NUL <20-byte id>`.
pub open spec fn well_formed_tree(s: Seq<u8>) -> bool {
    well_formed_from(s, 0)
}

/// The views of a list of byte-string pairs.
pub open spec fn pairs_view(v: Seq<(Vec<u8>, Vec<u8>)>) -> Seq<(Seq<u8>, Seq<u8>)> {
    v.map_values(|p: (Vec<u8>, Vec<u8>)| (p.0@, p.1@))
}

/// The view of an optional text.
pub open spec fn opt_text(o: Option<String>) -> Option<Seq<char>> {
    match o {
        Some(s) => Some(s@),
        None => None,
    }
}

/// Relies on `git_object::TreeRefIter` (as `git_repository::objs`): iterating
/// over tree data yields its entries in order, and an error once, at the first
/// entry that does not decode; empty data yields nothing. Each entry must
/// start with octal digits and a space: on data that ends in octal digits
/// alone the iterator panics, so the data is required to be a well-formed tree.
#[verifier::external_body]
fn decode_tree_entries(tree: &Vec<u8>) -> (r: Vec<(Vec<u8>, Vec<u8>)>)
    requires
        well_formed_tree(tree@),
    ensures
        pairs_view(r@) == tree_entries_of(tree@),
        tree@.len() == 0 ==> r@.len() == 0,
{
    TreeRefIter::from_bytes(tree)
        .filter_map(Result::ok)
        .map(|e| (e.filename.to_vec(), e.oid.as_bytes().to_vec()))
        .collect()
}

/// Relies on `bstr::ByteSlice::to_str`: the text of the bytes when they are
/// valid UTF-8, an error otherwise; no bytes decode to the empty text.
#[verifier::external_body]
pub(crate) fn decode_utf8(bytes: &Vec<u8>) -> (r: Option<String>)
    ensures
        opt_text(r) == utf8_text(bytes@),
        bytes@.len() == 0 ==> r.is_some() && r.unwrap()@.len() == 0,
{
    bytes.to_str().ok().map(|s| s.to_string())
}

/// The id of the first entry named `name`.
pub open spec fn entry_named(entries: Seq<(Seq<u8>, Seq<u8>)>, name: Seq<u8>) -> Option<Seq<u8>>
    decreases entries.len(),
{
    if entries.len() == 0 {
        None
    } else if entries[0].0 == name {
        Some(entries[0].1)
    } else {
        entry_named(entries.drop_first(), name)
    }
}

/// The id of the entry named `name` directly in the tree `tree`.
pub open spec fn direct_entry(tree: Seq<u8>, name: Seq<u8>) -> Option<Seq<u8>> {
    entry_named(tree_entries_of(tree), name)
}

proof fn lemma_entry_named_skip(entries: Seq<(Seq<u8>, Seq<u8>)>, name: Seq<u8>, j: int)
    requires
        0 <= j <= entries.len(),
        forall|k: int| 0 <= k < j ==> entries[k].0 != name,
    ensures
        entry_named(entries, name) == entry_named(entries.subrange(j, entries.len() as int), name),
    decreases j,
{
    if j > 0 {
        lemma_entry_named_skip(entries.drop_first(), name, j - 1);
        assert(entries.drop_first().subrange(j - 1, entries.len() - 1) =~= entries.subrange(
            j,
            entries.len() as int,
        ));
    } else {
        assert(entries.subrange(0, entries.len() as int) =~= entries);
    }
}

/// Finds the first `b` in `s` at or after `k`.
fn find_byte_from(s: &Vec<u8>, b: u8, k: usize) -> (r: usize)
    requires
        k <= s.len(),
    ensures
        r as int == find_from(s@, b, k as int),
        k <= r <= s.len(),
{
    let mut i: usize = k;
    while i < s.len()
        invariant
            k <= i <= s.len(),
            find_from(s@, b, k as int) == find_from(s@, b, i as int),
        decreases s.len() - i,
    {
        if s[i] == b {
            return i;
        }
        i = i + 1;
    }
    i
}

/// Checks that `tree` is a run of well-formed tree entries.
pub fn is_well_formed_tree(tree: &Vec<u8>) -> (r: bool)
    ensures
        r == well_formed_tree(tree@),
{
    let mut p: usize = 0;
    while p < tree.len()
        invariant
            p <= tree.len(),
            well_formed_tree(tree@) == well_formed_from(tree@, p as int),
        decreases tree.len() - p,
    {
        let sp = find_byte_from(tree, 32u8, p);
        if sp == p || sp >= tree.len() {
            return false;
        }
        let mut k: usize = p;
        while k < sp
            invariant
                p <= k <= sp,
                p < sp < tree.len(),
                sp as int == find_from(tree@, 32u8, p as int),
                well_formed_tree(tree@) == well_formed_from(tree@, p as int),
                forall|q: int| p <= q < k ==> #[trigger] is_octal_digit(tree@[q]),
            decreases sp - k,
        {
            if tree[k] < 48u8 || tree[k] > 55u8 {
                assert(!is_octal_digit(tree@[k as int]));
                return false;
            }
            k = k + 1;
        }
        let nul = find_byte_from(tree, 0u8, sp + 1);
        if nul >= tree.len() || tree.len() - nul < 21 {
            assert(!(nul + 21 <= tree.len()));
            assert(!well_formed_from(tree@, p as int));
            return false;
        }
        p = nul + 21;
    }
    true
}

/// Looks up the entry named `name` directly in the tree object `tree`.
pub fn find_entry(tree: &Vec<u8>, name: &Vec<u8>) -> (r: Option<Vec<u8>>)
    requires
        well_formed_tree(tree@),
    ensures
        crate::segment::opt_bytes(r) == direct_entry(tree@, name@),
{
    let entries = decode_tree_entries(tree);
    let ghost ev = pairs_view(entries@);
    let mut j: usize = 0;
    while j < entries.len()
        invariant
            ev == pairs_view(entries@),
            ev == tree_entries_of(tree@),
            0 <= j <= entries.len(),
            forall|k: int| 0 <= k < j ==> ev[k].0 != name@,
        decreases entries.len() - j,
    {
        assert(ev[j as int] == (entries@[j as int].0@, entries@[j as int].1@));
        if crate::history::bytes_equal(&entries[j].0, name) {
            proof {
                lemma_entry_named_skip(ev, name@, j as int);
                assert(ev.subrange(j as int, ev.len() as int)[0] == ev[j as int]);
            }
            return Some(crate::history::copy_bytes(&entries[j].1));
        }
        j = j + 1;
    }
    proof {
        lemma_entry_named_skip(ev, name@, j as int);
    }
    None
}

} // verus!
