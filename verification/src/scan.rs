//! Directory scan: filtering and ordering.
//!
//! The caller lists a directory and hands over each entry as a path
//! with a flag saying whether the entry is a regular file.  The scan
//! keeps the regular files whose name starts with the prefix and whose
//! extension equals the wanted one up to ASCII case, and returns their
//! paths in ascending lexicographic order.

use vstd::prelude::*;
use vstd::seq_lib::lemma_sorted_unique;

use crate::names::{
    ascii_case_insensitive_eq, eq_ignore_ascii_case, extension, extension_of, file_name,
    file_name_of, has_prefix,
};
use crate::order::{lemma_lex_le_total_ordering, lex_le_rel, sort_paths};

verus! {

/// Whether one directory entry passes both filters: it is a regular
/// file, its name's extension equals `ext` up to ASCII case, and its
/// name starts with `prefix`.
pub open spec fn entry_matches(
    path: Seq<char>,
    is_file: bool,
    prefix: Seq<char>,
    ext: Seq<char>,
) -> bool {
    &&& is_file
    &&& extension_of(file_name_of(path)) matches Some(e) && eq_ignore_ascii_case(e, ext)
    &&& prefix.is_prefix_of(file_name_of(path))
}

/// The paths of the matching entries, in the order they were listed.
pub open spec fn matching_paths(
    entries: Seq<(Seq<char>, bool)>,
    prefix: Seq<char>,
    ext: Seq<char>,
) -> Seq<Seq<char>>
    decreases entries.len(),
{
    if entries.len() == 0 {
        Seq::empty()
    } else {
        let rest = matching_paths(entries.drop_last(), prefix, ext);
        if entry_matches(entries.last().0, entries.last().1, prefix, ext) {
            rest.push(entries.last().0)
        } else {
            rest
        }
    }
}

/// What a scan returns: the matching paths, sorted lexicographically.
pub open spec fn scan_spec(
    entries: Seq<(Seq<char>, bool)>,
    prefix: Seq<char>,
    ext: Seq<char>,
) -> Seq<Seq<char>> {
    matching_paths(entries, prefix, ext).sort_by(lex_le_rel())
}

/// Selects the regular files whose name passes both filters and
/// returns their paths in ascending lexicographic order.
///
/// Every entry is judged on its own; a directory with no matching
/// entry yields the empty vector, never an error.
pub fn scan_entries(entries: &Vec<(String, bool)>, prefix: &str, ext: &str) -> (r: Vec<String>)
    ensures
        r.deep_view() == scan_spec(entries.deep_view(), prefix@, ext@),
{
    let ghost edv = entries.deep_view();
    let n = entries.len();
    let mut picked: Vec<String> = Vec::new();
    let mut i: usize = 0;
    proof {
        assert(picked.deep_view() =~= matching_paths(edv.subrange(0, 0), prefix@, ext@));
    }
    while i < n
        invariant
            i <= n,
            n == entries.len(),
            edv == entries.deep_view(),
            picked.deep_view() =~= matching_paths(edv.subrange(0, i as int), prefix@, ext@),
        decreases n - i,
    {
        let ghost pre = picked.deep_view();
        let is_file = entries[i].1;
        let nm = file_name(entries[i].0.as_str());
        let ext_ok = match extension(nm.as_str()) {
            Some(x) => ascii_case_insensitive_eq(x.as_str(), ext),
            None => false,
        };
        let pre_ok = has_prefix(nm.as_str(), prefix);
        if is_file && ext_ok && pre_ok {
            picked.push(entries[i].0.clone());
        }
        proof {
            assert(edv[i as int].0 == entries@[i as int].0@);
            assert(edv.subrange(0, i + 1).drop_last() =~= edv.subrange(0, i as int));
            assert(edv.subrange(0, i + 1).last() == edv[i as int]);
            assert((is_file && ext_ok && pre_ok) == entry_matches(
                edv[i as int].0,
                edv[i as int].1,
                prefix@,
                ext@,
            ));
            if is_file && ext_ok && pre_ok {
                assert(picked.deep_view() =~= pre.push(edv[i as int].0));
            }
        }
        i = i + 1;
    }
    proof {
        assert(edv.subrange(0, n as int) =~= edv);
    }
    let sorted = sort_paths(picked);
    proof {
        lemma_lex_le_total_ordering();
        let m = matching_paths(edv, prefix@, ext@);
        m.lemma_sort_by_ensures(lex_le_rel());
        lemma_sorted_unique(sorted.deep_view(), m.sort_by(lex_le_rel()), lex_le_rel());
    }
    sorted
}

proof fn lemma_matching_paths_none(entries: Seq<(Seq<char>, bool)>, prefix: Seq<char>, ext: Seq<char>)
    requires
        forall|i: int| 0 <= i < entries.len()
            ==> !entry_matches(#[trigger] entries[i].0, entries[i].1, prefix, ext),
    ensures
        matching_paths(entries, prefix, ext) == Seq::<Seq<char>>::empty(),
    decreases entries.len(),
{
    if entries.len() > 0 {
        assert(forall|i: int| 0 <= i < entries.len() - 1
            ==> #[trigger] entries.drop_last()[i] == entries[i]);
        lemma_matching_paths_none(entries.drop_last(), prefix, ext);
    }
}

proof fn lemma_matching_paths_membership(
    entries: Seq<(Seq<char>, bool)>,
    prefix: Seq<char>,
    ext: Seq<char>,
)
    ensures
        forall|i: int|
            0 <= i < entries.len() && entry_matches(
                #[trigger] entries[i].0,
                entries[i].1,
                prefix,
                ext,
            ) ==> matching_paths(entries, prefix, ext).contains(entries[i].0),
        forall|j: int|
            0 <= j < matching_paths(entries, prefix, ext).len() ==> exists|i: int|
                0 <= i < entries.len() && entries[i].0 == #[trigger] matching_paths(
                    entries,
                    prefix,
                    ext,
                )[j] && entry_matches(entries[i].0, entries[i].1, prefix, ext),
    decreases entries.len(),
{
    if entries.len() > 0 {
        let m = matching_paths(entries, prefix, ext);
        let rest = matching_paths(entries.drop_last(), prefix, ext);
        lemma_matching_paths_membership(entries.drop_last(), prefix, ext);
        assert forall|i: int|
            0 <= i < entries.len() && entry_matches(
                #[trigger] entries[i].0,
                entries[i].1,
                prefix,
                ext,
            ) implies m.contains(entries[i].0) by {
            if i < entries.len() - 1 {
                assert(entries.drop_last()[i] == entries[i]);
                assert(rest.contains(entries[i].0));
                let k = choose|k: int| 0 <= k < rest.len() && rest[k] == entries[i].0;
                assert(m[k] == entries[i].0);
            } else {
                assert(m.last() == entries[i].0);
            }
        }
        assert forall|j: int| 0 <= j < m.len() implies exists|i: int|
            0 <= i < entries.len() && entries[i].0 == #[trigger] m[j] && entry_matches(
                entries[i].0,
                entries[i].1,
                prefix,
                ext,
            ) by {
            if j < rest.len() {
                let i = choose|i: int|
                    0 <= i < entries.len() - 1 && entries.drop_last()[i].0 == rest[j]
                        && entry_matches(
                        entries.drop_last()[i].0,
                        entries.drop_last()[i].1,
                        prefix,
                        ext,
                    );
                assert(entries[i].0 == m[j] && entry_matches(
                    entries[i].0,
                    entries[i].1,
                    prefix,
                    ext,
                ));
            } else {
                let i = entries.len() - 1;
                assert(entries[i].0 == m[j] && entry_matches(
                    entries[i].0,
                    entries[i].1,
                    prefix,
                    ext,
                ));
            }
        }
    }
}

/// The scan returns exactly the matching entries' paths, in ascending
/// lexicographic order: it is sorted, every matching entry's path is in
/// it, and everything in it is the path of some matching entry.
pub proof fn lemma_scan_exact(entries: Seq<(Seq<char>, bool)>, prefix: Seq<char>, ext: Seq<char>)
    ensures
        vstd::relations::sorted_by(scan_spec(entries, prefix, ext), lex_le_rel()),
        forall|i: int|
            0 <= i < entries.len() && entry_matches(
                #[trigger] entries[i].0,
                entries[i].1,
                prefix,
                ext,
            ) ==> scan_spec(entries, prefix, ext).contains(entries[i].0),
        forall|p: Seq<char>|
            #[trigger] scan_spec(entries, prefix, ext).contains(p) ==> exists|i: int|
                0 <= i < entries.len() && entries[i].0 == p && entry_matches(
                    entries[i].0,
                    entries[i].1,
                    prefix,
                    ext,
                ),
{
    broadcast use vstd::seq_lib::group_to_multiset_ensures;

    lemma_lex_le_total_ordering();
    lemma_matching_paths_membership(entries, prefix, ext);
    let m = matching_paths(entries, prefix, ext);
    let s = scan_spec(entries, prefix, ext);
    m.lemma_sort_by_ensures(lex_le_rel());
    assert forall|i: int|
        0 <= i < entries.len() && entry_matches(
            #[trigger] entries[i].0,
            entries[i].1,
            prefix,
            ext,
        ) implies s.contains(entries[i].0) by {
        assert(m.contains(entries[i].0));
        assert(m.to_multiset().count(entries[i].0) > 0);
        assert(s.to_multiset().count(entries[i].0) > 0);
    }
    assert forall|p: Seq<char>| #[trigger] s.contains(p) implies exists|i: int|
        0 <= i < entries.len() && entries[i].0 == p && entry_matches(
            entries[i].0,
            entries[i].1,
            prefix,
            ext,
        ) by {
        assert(s.to_multiset().count(p) > 0);
        assert(m.to_multiset().count(p) > 0);
        assert(m.contains(p));
        let j = choose|j: int| 0 <= j < m.len() && m[j] == p;
        assert(exists|i: int|
            0 <= i < entries.len() && entries[i].0 == m[j] && entry_matches(
                entries[i].0,
                entries[i].1,
                prefix,
                ext,
            ));
    }
}

/// A filter that matches no entry selects nothing: the scan of such a
/// directory yields the empty sequence (and in particular succeeds).
pub proof fn lemma_scan_empty_when_no_match(
    entries: Seq<(Seq<char>, bool)>,
    prefix: Seq<char>,
    ext: Seq<char>,
)
    requires
        forall|i: int| 0 <= i < entries.len()
            ==> !entry_matches(#[trigger] entries[i].0, entries[i].1, prefix, ext),
    ensures
        scan_spec(entries, prefix, ext) == Seq::<Seq<char>>::empty(),
{
    broadcast use vstd::seq_lib::group_to_multiset_ensures;

    lemma_matching_paths_none(entries, prefix, ext);
    lemma_lex_le_total_ordering();
    let m = matching_paths(entries, prefix, ext);
    m.lemma_sort_by_ensures(lex_le_rel());
    assert(scan_spec(entries, prefix, ext).to_multiset().len() == 0);
    assert(scan_spec(entries, prefix, ext) =~= Seq::<Seq<char>>::empty());
}

} // verus!
