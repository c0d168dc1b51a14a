//! Path logic of the discoverer: file name, extension and stem of a path
//! given as bytes, and the selection of candidate paths by extension or by
//! a leading name prefix.
//!
//! Extension comparison is exact (case-sensitive) on the final extension
//! component, following the usual rule: the extension of `dir/a.csv` is
//! `csv`, a name with no dot or a name whose only dot is its first byte
//! (a hidden file) has none.

use vstd::prelude::*;
use crate::bytes::{rfind, rfind_byte, begins_with, subvec, copy_bytes, eq_bytes};

verus! {

/// The final component of `p`: everything after the last `/`, or all of `p`.
pub open spec fn file_name_of(p: Seq<u8>) -> Seq<u8> {
    match rfind(p, 47u8) {
        Some(i) => p.skip(i + 1),
        None => p,
    }
}

/// The extension of `p`: what follows the last `.` of the file name, unless
/// that `.` is the name's first byte or there is none.
pub open spec fn extension_of(p: Seq<u8>) -> Option<Seq<u8>> {
    let name = file_name_of(p);
    match rfind(name, 46u8) {
        Some(j) => if j > 0 {
            Some(name.skip(j + 1))
        } else {
            None
        },
        None => None,
    }
}

/// The stem of `p`: the file name with its extension (and the dot) removed.
pub open spec fn stem_of(p: Seq<u8>) -> Seq<u8> {
    let name = file_name_of(p);
    match rfind(name, 46u8) {
        Some(j) => if j > 0 {
            name.take(j)
        } else {
            name
        },
        None => name,
    }
}

/// Whether the extension of `p` is exactly `ext`.
pub open spec fn has_extension(p: Seq<u8>, ext: Seq<u8>) -> bool {
    extension_of(p) == Some(ext)
}

/// The file name of `p`, as `file_name_of` gives it.
pub fn file_name_bytes(p: &Vec<u8>) -> (r: Vec<u8>)
    ensures
        r@ == file_name_of(p@),
{
    let n = p.len();
    match rfind_byte(p, 47u8) {
        Some(i) => {
            let r = subvec(p, i + 1, n);
            proof {
                assert(p@.subrange(i as int + 1, p@.len() as int) =~= p@.skip(i as int + 1));
            }
            r
        },
        None => copy_bytes(p),
    }
}

/// The extension of `p`, as `extension_of` gives it.
pub fn extension_bytes(p: &Vec<u8>) -> (r: Option<Vec<u8>>)
    ensures
        match r {
            Some(e) => extension_of(p@) == Some(e@),
            None => extension_of(p@) is None,
        },
{
    let name = file_name_bytes(p);
    let n = name.len();
    match rfind_byte(&name, 46u8) {
        Some(j) => {
            if j > 0 {
                let e = subvec(&name, j + 1, n);
                proof {
                    assert(name@.subrange(j as int + 1, name@.len() as int) =~= name@.skip(
                        j as int + 1,
                    ));
                }
                Some(e)
            } else {
                None
            }
        },
        None => None,
    }
}

/// The stem of `p`, as `stem_of` gives it.
pub fn stem_bytes(p: &Vec<u8>) -> (r: Vec<u8>)
    ensures
        r@ == stem_of(p@),
{
    let name = file_name_bytes(p);
    match rfind_byte(&name, 46u8) {
        Some(j) => {
            if j > 0 {
                let r = subvec(&name, 0, j);
                proof {
                    assert(name@.subrange(0, j as int) =~= name@.take(j as int));
                }
                r
            } else {
                name
            }
        },
        None => name,
    }
}

/// Whether the extension of `p` is exactly `ext`.
pub fn path_has_extension(p: &Vec<u8>, ext: &Vec<u8>) -> (r: bool)
    ensures
        r == has_extension(p@, ext@),
{
    match extension_bytes(p) {
        Some(e) => eq_bytes(&e, ext),
        None => false,
    }
}

/// Keeps, in order, the paths whose extension is exactly `ext`.
pub fn select_by_extension(paths: &Vec<Vec<u8>>, ext: &Vec<u8>) -> (r: Vec<Vec<u8>>)
    ensures
        r.deep_view() == paths.deep_view().filter(|p: Seq<u8>| has_extension(p, ext@)),
{
    let mut r: Vec<Vec<u8>> = Vec::new();
    let mut i: usize = 0;
    proof {
        assert(paths.deep_view().take(0) =~= Seq::<Seq<u8>>::empty());
        assert(r.deep_view() =~= Seq::<Seq<u8>>::empty());
        reveal(Seq::filter);
    }
    while i < paths.len()
        invariant
            i <= paths@.len(),
            paths.deep_view().len() == paths@.len(),
            r.deep_view() == paths.deep_view().take(i as int).filter(
                |p: Seq<u8>| has_extension(p, ext@),
            ),
        decreases paths@.len() - i,
    {
        let ghost dv = paths.deep_view();
        let ghost old_r = r.deep_view();
        proof {
            assert(dv.take(i as int + 1).drop_last() =~= dv.take(i as int));
            assert(dv.take(i as int + 1).last() == dv[i as int]);
            assert(dv[i as int] == paths@[i as int]@);
            reveal(Seq::filter);
        }
        if path_has_extension(&paths[i], ext) {
            let c = copy_bytes(&paths[i]);
            r.push(c);
            proof {
                assert(r.deep_view() =~= old_r.push(paths@[i as int]@));
            }
        }
        i = i + 1;
    }
    proof {
        assert(paths.deep_view().take(paths@.len() as int) =~= paths.deep_view());
    }
    r
}

/// Keeps, in order, the names that start with `prefix`.
pub fn select_by_prefix(names: &Vec<Vec<u8>>, prefix: &Vec<u8>) -> (r: Vec<Vec<u8>>)
    ensures
        r.deep_view() == names.deep_view().filter(|n: Seq<u8>| prefix@.is_prefix_of(n)),
{
    let mut r: Vec<Vec<u8>> = Vec::new();
    let mut i: usize = 0;
    proof {
        assert(names.deep_view().take(0) =~= Seq::<Seq<u8>>::empty());
        assert(r.deep_view() =~= Seq::<Seq<u8>>::empty());
        reveal(Seq::filter);
    }
    while i < names.len()
        invariant
            i <= names@.len(),
            names.deep_view().len() == names@.len(),
            r.deep_view() == names.deep_view().take(i as int).filter(
                |n: Seq<u8>| prefix@.is_prefix_of(n),
            ),
        decreases names@.len() - i,
    {
        let ghost dv = names.deep_view();
        let ghost old_r = r.deep_view();
        proof {
            assert(dv.take(i as int + 1).drop_last() =~= dv.take(i as int));
            assert(dv.take(i as int + 1).last() == dv[i as int]);
            assert(dv[i as int] == names@[i as int]@);
            reveal(Seq::filter);
        }
        if begins_with(&names[i], prefix) {
            let c = copy_bytes(&names[i]);
            r.push(c);
            proof {
                assert(r.deep_view() =~= old_r.push(names@[i as int]@));
            }
        }
        i = i + 1;
    }
    proof {
        assert(names.deep_view().take(names@.len() as int) =~= names.deep_view());
    }
    r
}

/// A stem is cut out of its path: a byte that the path avoids, the stem
/// avoids too.
pub proof fn lemma_stem_avoids_byte(p: Seq<u8>, b: u8)
    requires
        forall|k: int| 0 <= k < p.len() ==> p[k] != b,
    ensures
        forall|k: int| 0 <= k < stem_of(p).len() ==> stem_of(p)[k] != b,
{
    let name = file_name_of(p);
    assert forall|k: int| 0 <= k < name.len() implies name[k] != b by {
        match rfind(p, 47u8) {
            Some(i) => {
                crate::bytes::lemma_rfind(p, 47u8);
                assert(name[k] == p[i + 1 + k]);
            },
            None => {},
        }
    }
    assert forall|k: int| 0 <= k < stem_of(p).len() implies stem_of(p)[k] != b by {
        match rfind(name, 46u8) {
            Some(j) => {
                crate::bytes::lemma_rfind(name, 46u8);
                if j > 0 {
                    assert(stem_of(p)[k] == name[k]);
                }
            },
            None => {},
        }
    }
}

/// Every element of a filtered sequence comes from the sequence it was
/// filtered out of.
proof fn lemma_filter_subset(s: Seq<Seq<u8>>, pred: spec_fn(Seq<u8>) -> bool)
    ensures
        forall|k: int|
            0 <= k < s.filter(pred).len() ==> s.contains(#[trigger] s.filter(pred)[k]),
    decreases s.len(),
{
    reveal(Seq::filter);
    if s.len() > 0 {
        lemma_filter_subset(s.drop_last(), pred);
        let f = s.filter(pred);
        let fd = s.drop_last().filter(pred);
        assert forall|k: int| 0 <= k < f.len() implies s.contains(f[k]) by {
            if k < fd.len() {
                assert(f[k] == fd[k]);
                assert(s.drop_last().contains(fd[k]));
                let i = choose|i: int|
                    0 <= i < s.drop_last().len() && s.drop_last()[i] == fd[k];
                assert(s[i] == fd[k]);
                assert(s.contains(fd[k]));
            } else {
                assert(pred(s.last()) && f[k] == s.last());
                assert(s[s.len() - 1] == s.last());
                assert(s.contains(s.last()));
            }
        }
    }
}

/// The discoverer returns only matching paths: every path selected by
/// extension has exactly that extension and comes from the input list.
pub proof fn lemma_select_by_extension_sound(paths: Seq<Seq<u8>>, ext: Seq<u8>, sel: Seq<Seq<u8>>, k: int)
    requires
        sel == paths.filter(|p: Seq<u8>| has_extension(p, ext)),
        0 <= k < sel.len(),
    ensures
        has_extension(sel[k], ext),
        paths.contains(sel[k]),
{
    broadcast use vstd::seq_lib::group_filter_ensures;

    lemma_filter_subset(paths, |p: Seq<u8>| has_extension(p, ext));
}

/// The discoverer with a prefix filter returns only names that start with
/// the prefix, and only names from the input list.
pub proof fn lemma_select_by_prefix_sound(names: Seq<Seq<u8>>, prefix: Seq<u8>, sel: Seq<Seq<u8>>, k: int)
    requires
        sel == names.filter(|n: Seq<u8>| prefix.is_prefix_of(n)),
        0 <= k < sel.len(),
    ensures
        prefix.is_prefix_of(sel[k]),
        names.contains(sel[k]),
{
    broadcast use vstd::seq_lib::group_filter_ensures;

    lemma_filter_subset(names, |n: Seq<u8>| prefix.is_prefix_of(n));
}

/// Truncates the discovered list to at most `max_files` paths, when a cap
/// is given; keeps the list as it is otherwise.
pub fn cap_files(paths: &mut Vec<Vec<u8>>, max_files: Option<usize>)
    ensures
        final(paths).deep_view() == match max_files {
            Some(m) => if m <= old(paths)@.len() {
                old(paths).deep_view().take(m as int)
            } else {
                old(paths).deep_view()
            },
            None => old(paths).deep_view(),
        },
{
    match max_files {
        Some(m) => {
            let ghost before = paths.deep_view();
            paths.truncate(m);
            proof {
                if m <= old(paths)@.len() {
                    assert(paths.deep_view() =~= before.take(m as int));
                } else {
                    assert(paths.deep_view() =~= before);
                }
            }
        },
        None => {},
    }
}

} // verus!
