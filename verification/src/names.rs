//! The parts of a path string that the scanner's filters read.
//!
//! A path is modelled as its character sequence.  The file name is the
//! segment after the last `/`; the extension is the part of the file
//! name after its last `.`, provided that dot is not the name's first
//! character.  Directory listings hand the scanner plain entry names,
//! so these are the only path components the filters ever look at.

use vstd::prelude::*;

verus! {

/// The file-name component: everything after the last `/` of the path
/// (the whole path when it has no `/`).
pub open spec fn file_name_of(path: Seq<char>) -> Seq<char>
    decreases path.len(),
{
    if path.len() == 0 {
        Seq::empty()
    } else if path.last() == '/' {
        Seq::empty()
    } else {
        file_name_of(path.drop_last()).push(path.last())
    }
}

/// The extension of a file name: the part after the last `.`, if that
/// dot sits strictly after the first character.  Names such as
/// `archive` or `.config` have none; `movie.` has the empty extension.
pub open spec fn extension_of(name: Seq<char>) -> Option<Seq<char>>
    decreases name.len(),
{
    if name.len() < 2 {
        None
    } else if name.last() == '.' {
        Some(Seq::empty())
    } else {
        match extension_of(name.drop_last()) {
            Some(e) => Some(e.push(name.last())),
            None => None,
        }
    }
}

/// A character's scalar value with ASCII upper case folded to lower.
pub open spec fn fold_ascii_case(c: char) -> int {
    if 65 <= c as int && c as int <= 90 {
        c as int + 32
    } else {
        c as int
    }
}

/// Equality of character sequences up to ASCII case.
pub open spec fn eq_ignore_ascii_case(a: Seq<char>, b: Seq<char>) -> bool {
    &&& a.len() == b.len()
    &&& forall|i: int| 0 <= i < a.len() ==> fold_ascii_case(a[i]) == fold_ascii_case(b[i])
}

proof fn lemma_file_name_suffix(path: Seq<char>, i: int)
    requires
        0 <= i <= path.len(),
        forall|j: int| i <= j < path.len() ==> path[j] != '/',
        i > 0 ==> path[i - 1] == '/',
    ensures
        file_name_of(path) == path.subrange(i, path.len() as int),
    decreases path.len(),
{
    if i == path.len() {
        assert(path.subrange(i, path.len() as int) =~= Seq::<char>::empty());
    } else {
        assert(path.last() != '/');
        lemma_file_name_suffix(path.drop_last(), i);
        assert(path.subrange(i, path.len() as int) =~= path.drop_last().subrange(
            i,
            path.len() - 1,
        ).push(path.last()));
    }
}

/// Extracts the file-name component of a path.
pub fn file_name(path: &str) -> (r: String)
    ensures
        r@ == file_name_of(path@),
{
    let n = path.unicode_len();
    let mut i: usize = n;
    while i > 0 && path.get_char(i - 1) != '/'
        invariant
            i <= n,
            n == path@.len(),
            forall|j: int| i <= j < n ==> path@[j] != '/',
        decreases i,
    {
        i = i - 1;
    }
    proof {
        lemma_file_name_suffix(path@, i as int);
    }
    let s = path.substring_char(i, n);
    s.to_owned()
}

proof fn lemma_extension_at(name: Seq<char>, i: int)
    requires
        1 <= i < name.len(),
        name[i] == '.',
        forall|j: int| i < j < name.len() ==> name[j] != '.',
    ensures
        extension_of(name) == Some(name.subrange(i + 1, name.len() as int)),
    decreases name.len(),
{
    if i == name.len() - 1 {
        assert(name.subrange(i + 1, name.len() as int) =~= Seq::<char>::empty());
    } else {
        assert(name.last() != '.');
        lemma_extension_at(name.drop_last(), i);
        assert(name.subrange(i + 1, name.len() as int) =~= name.drop_last().subrange(
            i + 1,
            name.len() - 1,
        ).push(name.last()));
    }
}

proof fn lemma_extension_none(name: Seq<char>)
    requires
        forall|j: int| 1 <= j < name.len() ==> name[j] != '.',
    ensures
        extension_of(name) is None,
    decreases name.len(),
{
    if name.len() >= 2 {
        assert(name.last() != '.');
        lemma_extension_none(name.drop_last());
    }
}

/// Extracts the extension of a file name, if it has one.
pub fn extension(name: &str) -> (r: Option<String>)
    ensures
        r.deep_view() == extension_of(name@),
{
    let n = name.unicode_len();
    if n < 2 {
        proof {
            lemma_extension_none(name@);
        }
        return None;
    }
    let mut i: usize = n - 1;
    while i >= 1 && name.get_char(i) != '.'
        invariant
            i <= n - 1,
            n == name@.len(),
            forall|j: int| i < j < n ==> name@[j] != '.',
        decreases i,
    {
        i = i - 1;
    }
    if i == 0 {
        proof {
            lemma_extension_none(name@);
        }
        None
    } else {
        proof {
            lemma_extension_at(name@, i as int);
        }
        let e = name.substring_char(i + 1, n);
        Some(e.to_owned())
    }
}

/// Decides `eq_ignore_ascii_case` on string slices.
pub fn ascii_case_insensitive_eq(a: &str, b: &str) -> (r: bool)
    ensures
        r == eq_ignore_ascii_case(a@, b@),
{
    let alen = a.unicode_len();
    let blen = b.unicode_len();
    if alen != blen {
        return false;
    }
    let mut i: usize = 0;
    while i < alen
        invariant
            i <= alen,
            alen == a@.len(),
            alen == blen,
            blen == b@.len(),
            forall|j: int| 0 <= j < i ==> fold_ascii_case(a@[j]) == fold_ascii_case(b@[j]),
        decreases alen - i,
    {
        let ca = a.get_char(i) as u32;
        let cb = b.get_char(i) as u32;
        let fa = if ca >= 65 && ca <= 90 {
            ca + 32
        } else {
            ca
        };
        let fb = if cb >= 65 && cb <= 90 {
            cb + 32
        } else {
            cb
        };
        if fa != fb {
            return false;
        }
        i = i + 1;
    }
    true
}

/// Decides whether `prefix` is a prefix of `s`.
pub fn has_prefix(s: &str, prefix: &str) -> (r: bool)
    ensures
        r == prefix@.is_prefix_of(s@),
{
    let slen = s.unicode_len();
    let plen = prefix.unicode_len();
    if plen > slen {
        return false;
    }
    let mut i: usize = 0;
    while i < plen
        invariant
            i <= plen,
            plen <= slen,
            slen == s@.len(),
            plen == prefix@.len(),
            forall|j: int| 0 <= j < i ==> s@[j] == prefix@[j],
        decreases plen - i,
    {
        if s.get_char(i) != prefix.get_char(i) {
            proof {
                assert(!(prefix@ =~= s@.subrange(0, plen as int)));
            }
            return false;
        }
        i = i + 1;
    }
    proof {
        assert(prefix@ =~= s@.subrange(0, plen as int));
    }
    true
}

} // verus!
