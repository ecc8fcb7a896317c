use vstd::prelude::*;

use crate::history::{bytes_equal, Reference};
use crate::segment::{as_tag_map, copy_reference, distinct_targets, find_tag, is_tagged, refs_view, tag_for};

verus! {

/// The namespace of tag references, `refs/tags/`.
pub open spec fn tags_namespace() -> Seq<u8> {
    seq![114u8, 101u8, 102u8, 115u8, 47u8, 116u8, 97u8, 103u8, 115u8, 47u8]
}

/// The short name of a tag reference: its full name without `refs/tags/`.
pub open spec fn short_tag_name(fullname: Seq<u8>) -> Option<Seq<u8>> {
    let ns = tags_namespace();
    if fullname.len() >= ns.len() && fullname.subrange(0, ns.len() as int) == ns {
        Some(fullname.subrange(ns.len() as int, fullname.len() as int))
    } else {
        None
    }
}

/// A reference name under `refs/tags/`.
pub open spec fn is_tag_ref(fullname: Seq<u8>) -> bool {
    short_tag_name(fullname) is Some
}

pub open spec fn is_digit(b: u8) -> bool {
    48 <= b <= 57
}

/// A dotted numeric version such as `1.12.0`: digit groups joined by single dots.
pub open spec fn is_version(s: Seq<u8>) -> bool {
    &&& s.len() > 0
    &&& is_digit(s[0])
    &&& forall|k: int| 0 <= k < s.len() ==> #[trigger] version_byte_ok(s, k)
}

/// The byte at `k` is a digit, or a dot followed by a digit.
pub open spec fn version_byte_ok(s: Seq<u8>, k: int) -> bool {
    is_digit(s[k]) || (s[k] == 46u8 && k + 1 < s.len() && is_digit(s[k + 1]))
}

/// A global version tag: `v` followed by a version.
pub open spec fn is_tag_version(name: Seq<u8>) -> bool {
    name.len() > 0 && name[0] == 118u8 && is_version(name.drop_first())
}

/// A package's version tag: the prefix, a dash, then a global version tag.
pub open spec fn is_tag_name(prefix: Seq<u8>, name: Seq<u8>) -> bool {
    &&& name.len() > prefix.len()
    &&& name.subrange(0, prefix.len() as int) == prefix
    &&& name[prefix.len() as int] == 45u8
    &&& is_tag_version(name.subrange((prefix.len() + 1) as int, name.len() as int))
}

/// Whether a reference is a release tag of a package with tag prefix `prefix`,
/// or, without a prefix, a global version tag.
pub open spec fn is_release_tag(prefix: Option<Seq<u8>>, fullname: Seq<u8>) -> bool {
    match short_tag_name(fullname) {
        None => false,
        Some(short) => match prefix {
            Some(p) => is_tag_name(p, short),
            None => is_tag_version(short),
        },
    }
}

/// The view of an optional tag prefix.
pub open spec fn opt_prefix(p: Option<&Vec<u8>>) -> Option<Seq<u8>> {
    match p {
        Some(v) => Some(v@),
        None => None,
    }
}

/// Strips `refs/tags/` from the name of a tag reference.
pub fn strip_tag_path(fullname: &Vec<u8>) -> (r: Vec<u8>)
    requires
        is_tag_ref(fullname@),
    ensures
        short_tag_name(fullname@) == Some(r@),
{
    let ghost ns = tags_namespace();
    let mut rest: Vec<u8> = Vec::new();
    let mut j: usize = 10;
    while j < fullname.len()
        invariant
            ns == tags_namespace(),
            10 <= j <= fullname.len(),
            rest@ == fullname@.subrange(10, j as int),
        decreases fullname.len() - j,
    {
        rest.push(fullname[j]);
        j = j + 1;
        assert(rest@ =~= fullname@.subrange(10, j as int));
    }
    rest
}

/// Whether `s[start..]` is a version.
fn is_version_from(s: &Vec<u8>, start: usize) -> (r: bool)
    requires
        start <= s.len(),
    ensures
        r == is_version(s@.subrange(start as int, s.len() as int)),
{
    let ghost t = s@.subrange(start as int, s.len() as int);
    if start >= s.len() {
        return false;
    }
    let mut i: usize = start;
    while i < s.len()
        invariant
            t == s@.subrange(start as int, s.len() as int),
            start <= i <= s.len(),
            forall|k: int| 0 <= k < i - start ==> #[trigger] version_byte_ok(t, k),
        decreases s.len() - i,
    {
        let b = s[i];
        let ok = if 48u8 <= b && b <= 57u8 {
            true
        } else {
            b == 46u8 && i + 1 < s.len() && 48u8 <= s[i + 1] && s[i + 1] <= 57u8
        };
        if !ok {
            assert(!version_byte_ok(t, i - start));
            return false;
        }
        i = i + 1;
    }
    48u8 <= s[start] && s[start] <= 57u8
}

/// Whether `s[start..]` is a global version tag.
fn is_tag_version_from(s: &Vec<u8>, start: usize) -> (r: bool)
    requires
        start <= s.len(),
    ensures
        r == is_tag_version(s@.subrange(start as int, s.len() as int)),
{
    if start >= s.len() || s[start] != 118u8 {
        return false;
    }
    let r = is_version_from(s, start + 1);
    assert(s@.subrange(start as int, s.len() as int).drop_first() =~= s@.subrange(start + 1, s.len() as int));
    r
}

/// Whether `name` is a global version tag such as `v1.2.3`.
pub fn is_tag_version_exec(name: &Vec<u8>) -> (r: bool)
    ensures
        r == is_tag_version(name@),
{
    assert(name@.subrange(0, name.len() as int) =~= name@);
    is_tag_version_from(name, 0)
}

/// Whether `name` is `<prefix>-v<version>`.
pub fn is_tag_name_exec(prefix: &Vec<u8>, name: &Vec<u8>) -> (r: bool)
    ensures
        r == is_tag_name(prefix@, name@),
{
    if name.len() <= prefix.len() {
        return false;
    }
    let mut i: usize = 0;
    while i < prefix.len()
        invariant
            name.len() > prefix.len(),
            0 <= i <= prefix.len(),
            forall|k: int| 0 <= k < i ==> name@[k] == prefix@[k],
        decreases prefix.len() - i,
    {
        if name[i] != prefix[i] {
            assert(name@.subrange(0, prefix.len() as int)[i as int] != prefix@[i as int]);
            return false;
        }
        i = i + 1;
    }
    assert(name@.subrange(0, prefix.len() as int) =~= prefix@);
    if name[prefix.len()] != 45u8 {
        return false;
    }
    is_tag_version_from(name, prefix.len() + 1)
}

/// Whether the reference named `fullname` is a release tag under the given convention.
pub fn is_release_tag_exec(prefix: Option<&Vec<u8>>, fullname: &Vec<u8>) -> (r: bool)
    requires
        is_tag_ref(fullname@),
    ensures
        r == is_release_tag(opt_prefix(prefix), fullname@),
{
    let short = strip_tag_path(fullname);
    match prefix {
        Some(p) => is_tag_name_exec(p, &short),
        None => is_tag_version_exec(&short),
    }
}

} // verus!

verus! {

/// The tag mapping built from `refs` in order: each release tag is entered
/// under its target commit, a later one replacing an earlier one.
pub open spec fn tag_map(refs: Seq<(Seq<u8>, Seq<u8>)>, prefix: Option<Seq<u8>>) -> Map<
    Seq<u8>,
    (Seq<u8>, Seq<u8>),
>
    decreases refs.len(),
{
    if refs.len() == 0 {
        Map::empty()
    } else {
        let m = tag_map(refs.drop_last(), prefix);
        let r = refs.last();
        if is_release_tag(prefix, r.0) {
            m.insert(r.1, r)
        } else {
            m
        }
    }
}



/// Builds the tag mapping of a package from the references under `refs/tags/`:
/// with a tag prefix, the tags named `<prefix>-v<version>`; without, the tags
/// named `v<version>`. Where two tags resolve to one commit, the later wins.
pub fn tags_by_commit(refs: &Vec<Reference>, prefix: Option<&Vec<u8>>) -> (r: Vec<Reference>)
    requires
        forall|k: int| 0 <= k < refs.len() ==> #[trigger] is_tag_ref(refs@[k].name@),
    ensures
        distinct_targets(refs_view(r@)),
        as_tag_map(refs_view(r@)) == tag_map(refs_view(refs@), opt_prefix(prefix)),
{
    let ghost p = opt_prefix(prefix);
    let ghost rv = refs_view(refs@);
    let mut out: Vec<Reference> = Vec::new();
    let mut i: usize = 0;
    while i < refs.len()
        invariant
            p == opt_prefix(prefix),
            rv == refs_view(refs@),
            forall|k: int| 0 <= k < refs.len() ==> #[trigger] is_tag_ref(refs@[k].name@),
            0 <= i <= refs.len(),
            distinct_targets(refs_view(out@)),
            forall|t: Seq<u8>|
                #![trigger tag_map(rv.subrange(0, i as int), p).contains_key(t)]
                tag_map(rv.subrange(0, i as int), p).contains_key(t) == is_tagged(refs_view(out@), t),
            forall|j: int|
                0 <= j < out.len() ==> tag_map(rv.subrange(0, i as int), p)[#[trigger] refs_view(out@)[j].1]
                    == refs_view(out@)[j],
        decreases refs.len() - i,
    {
        let ghost m = tag_map(rv.subrange(0, i as int), p);
        let ghost ov = refs_view(out@);
        proof {
            assert(rv.subrange(0, i + 1).drop_last() =~= rv.subrange(0, i as int));
            assert(rv.subrange(0, i + 1).last() == rv[i as int]);
            assert(rv[i as int] == refs@[i as int]@);
        }
        let accepted = is_release_tag_exec(prefix, &refs[i].name);
        proof {
            let m2 = tag_map(rv.subrange(0, i + 1), p);
            if accepted {
                assert(m2 == m.insert(rv[i as int].1, rv[i as int]));
            } else {
                assert(m2 == m);
            }
        }
        if accepted {
            let c = copy_reference(&refs[i]);
            match find_tag(&out, &refs[i].target) {
                Some(k) => {
                    out.set(k, c);
                    proof {
                        let nv = refs_view(out@);
                        assert(nv =~= ov.update(k as int, c@));
                        assert(c@.1 == ov[k as int].1);
                        assert forall|a: int, b: int| 0 <= a < b < nv.len() implies nv[a].1 != nv[b].1 by {
                            assert(nv[a].1 == ov[a].1 && nv[b].1 == ov[b].1);
                        }
                        assert forall|t: Seq<u8>| is_tagged(nv, t) == is_tagged(ov, t) by {
                            if is_tagged(nv, t) {
                                let q = choose|q: int| 0 <= q < nv.len() && nv[q].1 == t;
                                assert(ov[q].1 == t);
                            }
                            if is_tagged(ov, t) {
                                let q = choose|q: int| 0 <= q < ov.len() && ov[q].1 == t;
                                assert(nv[q].1 == t);
                            }
                        }
                    }
                },
                None => {
                    out.push(c);
                    proof {
                        let nv = refs_view(out@);
                        assert(nv =~= ov.push(c@));
                        assert forall|t: Seq<u8>| is_tagged(nv, t) == (is_tagged(ov, t) || t == c@.1) by {
                            if is_tagged(nv, t) {
                                let q = choose|q: int| 0 <= q < nv.len() && nv[q].1 == t;
                                if q < ov.len() {
                                    assert(ov[q].1 == t);
                                }
                            }
                            if is_tagged(ov, t) {
                                let q = choose|q: int| 0 <= q < ov.len() && ov[q].1 == t;
                                assert(nv[q].1 == t);
                            }
                            if t == c@.1 {
                                assert(nv[ov.len() as int].1 == t);
                            }
                        }
                        assert forall|a: int, b: int| 0 <= a < b < nv.len() implies nv[a].1 != nv[b].1 by {
                            if b == ov.len() {
                                assert(ov[a].1 != c@.1);
                            }
                        }
                    }
                },
            }
        }
        i = i + 1;
    }
    proof {
        assert(rv.subrange(0, refs.len() as int) =~= rv);
        let ov = refs_view(out@);
        let m = tag_map(rv, p);
        assert forall|t: Seq<u8>| #[trigger] m.contains_key(t) implies as_tag_map(ov)[t] == m[t] by {
            assert(tag_map(rv.subrange(0, refs.len() as int), p).contains_key(t) == is_tagged(ov, t));
            let q = choose|q: int| 0 <= q < ov.len() && ov[q].1 == t;
            crate::segment::lemma_tag_for_distinct(ov, q);
            assert(tag_map(rv.subrange(0, refs.len() as int), p)[refs_view(out@)[q].1] == refs_view(out@)[q]);
            assert(as_tag_map(ov)[t] == tag_for(ov, t));
        }
        assert forall|t: Seq<u8>| as_tag_map(ov).contains_key(t) == #[trigger] m.contains_key(t) by {
            assert(tag_map(rv.subrange(0, refs.len() as int), p).contains_key(t) == is_tagged(ov, t));
        }
        assert(as_tag_map(ov).dom() =~= m.dom());
        assert(as_tag_map(ov) =~= m);
    }
    out
}

} // verus!
