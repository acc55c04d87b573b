//! Extension keys: the normalized (ASCII lower-case, no leading dot) suffix
//! of a path's final component.  A name without a suffix, and a name whose
//! only `.` is its first byte, both map to the empty key.

use vstd::prelude::*;

verus! {

/// ASCII `/`, the path component separator.
pub const SLASH: u8 = 47;

/// ASCII `.`, the suffix separator inside a file name.
pub const DOT: u8 = 46;

/// ASCII `A`.
pub const UPPER_A: u8 = 65;

/// ASCII `Z`.
pub const UPPER_Z: u8 = 90;

/// The ASCII lower-case image of one byte.
pub open spec fn lower_byte(b: u8) -> u8 {
    if UPPER_A <= b && b <= UPPER_Z {
        (b + 32) as u8
    } else {
        b
    }
}

/// The ASCII lower-case image of a byte string.
pub open spec fn lower(s: Seq<u8>) -> Seq<u8> {
    Seq::new(s.len(), |i: int| lower_byte(s[i]))
}

/// The final component of a path: the bytes after the last `/`.
pub open spec fn file_name_of(p: Seq<u8>) -> Seq<u8>
    decreases p.len(),
{
    if p.len() == 0 {
        Seq::empty()
    } else if p.last() == SLASH {
        Seq::empty()
    } else {
        file_name_of(p.drop_last()).push(p.last())
    }
}

/// The suffix of a file name: the bytes after the last `.`, where a `.` in
/// first position does not begin a suffix.  `None` when there is no suffix.
pub open spec fn suffix_of(name: Seq<u8>) -> Option<Seq<u8>>
    decreases name.len(),
{
    if name.len() == 0 {
        None
    } else if name.last() == DOT {
        if name.len() == 1 {
            None
        } else {
            Some(Seq::empty())
        }
    } else {
        match suffix_of(name.drop_last()) {
            Some(s) => Some(s.push(name.last())),
            None => None,
        }
    }
}

/// The extension key of a file name: its suffix, lower-cased; the empty key
/// when it has none.
pub open spec fn key_of_name(name: Seq<u8>) -> Seq<u8> {
    match suffix_of(name) {
        Some(s) => lower(s),
        None => Seq::empty(),
    }
}

/// The extension key of a path.
pub open spec fn key_of(p: Seq<u8>) -> Seq<u8> {
    key_of_name(file_name_of(p))
}

/// `file_name_of` is the tail of the path from `j`, where `j` is one past the
/// last `/` (or the start of the path if it has no `/`).
proof fn lemma_file_name_subrange(p: Seq<u8>, j: int)
    requires
        0 <= j <= p.len(),
        j == 0 || p[j - 1] == SLASH,
        forall|i: int| j <= i < p.len() ==> p[i] != SLASH,
    ensures
        file_name_of(p) =~= p.subrange(j, p.len() as int),
    decreases p.len(),
{
    if p.len() == 0 {
    } else if j == p.len() {
        if p.len() > 0 {
            assert(p.last() == SLASH);
        }
    } else {
        assert(p[p.len() - 1] != SLASH);
        lemma_file_name_subrange(p.drop_last(), j);
        assert(p.drop_last().subrange(j, p.len() - 1) =~= p.subrange(j, p.len() - 1));
        assert(file_name_of(p) =~= p.subrange(j, p.len() - 1).push(p.last()));
    }
}

/// A name with no `.` after its first byte has no suffix.
proof fn lemma_suffix_none(name: Seq<u8>)
    requires
        forall|i: int| 1 <= i < name.len() ==> name[i] != DOT,
    ensures
        suffix_of(name) is None,
    decreases name.len(),
{
    if name.len() == 0 {
    } else if name.last() == DOT {
        assert(name.len() == 1);
    } else {
        lemma_suffix_none(name.drop_last());
    }
}

/// When the last `.` of a name sits at index `d > 0`, the suffix is
/// everything after it.
proof fn lemma_suffix_some(name: Seq<u8>, d: int)
    requires
        1 <= d < name.len(),
        name[d] == DOT,
        forall|i: int| d < i < name.len() ==> name[i] != DOT,
    ensures
        suffix_of(name) == Some(name.subrange(d + 1, name.len() as int)),
    decreases name.len(),
{
    if d == name.len() - 1 {
        assert(name.last() == DOT);
        assert(name.subrange(d + 1, name.len() as int) =~= Seq::<u8>::empty());
    } else {
        assert(name[name.len() - 1] != DOT);
        lemma_suffix_some(name.drop_last(), d);
        assert(name.drop_last().subrange(d + 1, name.len() - 1) =~= name.subrange(
            d + 1,
            name.len() - 1,
        ));
        assert(name.subrange(d + 1, name.len() - 1).push(name.last()) =~= name.subrange(
            d + 1,
            name.len() as int,
        ));
    }
}

proof fn lemma_lower_idempotent(s: Seq<u8>)
    ensures
        lower(lower(s)) == lower(s),
{
    assert(lower(lower(s)) =~= lower(s));
}

proof fn lemma_file_name_lower(p: Seq<u8>)
    ensures
        file_name_of(lower(p)) == lower(file_name_of(p)),
    decreases p.len(),
{
    if p.len() == 0 {
        assert(lower(p) =~= Seq::<u8>::empty());
        assert(lower(Seq::<u8>::empty()) =~= Seq::<u8>::empty());
    } else {
        assert(lower(p).last() == lower_byte(p.last()));
        if p.last() == SLASH {
            assert(lower(p).last() == SLASH);
            assert(lower(Seq::<u8>::empty()) =~= Seq::<u8>::empty());
        } else {
            assert(lower(p).last() != SLASH);
            lemma_file_name_lower(p.drop_last());
            assert(lower(p).drop_last() =~= lower(p.drop_last()));
            assert(lower(file_name_of(p.drop_last())).push(lower_byte(p.last())) =~= lower(
                file_name_of(p.drop_last()).push(p.last()),
            ));
        }
    }
}

proof fn lemma_suffix_lower(name: Seq<u8>)
    ensures
        match suffix_of(name) {
            Some(s) => suffix_of(lower(name)) == Some(lower(s)),
            None => suffix_of(lower(name)) is None,
        },
    decreases name.len(),
{
    if name.len() == 0 {
        assert(lower(name).len() == 0);
    } else {
        assert(lower(name).last() == lower_byte(name.last()));
        if name.last() == DOT {
            assert(lower(name).last() == DOT);
            if name.len() == 1 {
            } else {
                assert(lower(Seq::<u8>::empty()) =~= Seq::<u8>::empty());
            }
        } else {
            assert(lower(name).last() != DOT);
            lemma_suffix_lower(name.drop_last());
            assert(lower(name).drop_last() =~= lower(name.drop_last()));
            match suffix_of(name.drop_last()) {
                Some(s) => {
                    assert(lower(s).push(lower_byte(name.last())) =~= lower(s.push(name.last())));
                },
                None => {},
            }
        }
    }
}

/// Lower-casing a path does not change its key.
proof fn lemma_key_lower(p: Seq<u8>)
    ensures
        key_of(lower(p)) == key_of(p),
{
    lemma_file_name_lower(p);
    lemma_suffix_lower(file_name_of(p));
    match suffix_of(file_name_of(p)) {
        Some(s) => {
            lemma_lower_idempotent(s);
        },
        None => {},
    }
}

/// Extension keys are case-insensitive: two paths equal up to ASCII case
/// carry the same key.
pub proof fn lemma_key_case_insensitive(p: Seq<u8>, q: Seq<u8>)
    requires
        lower(p) == lower(q),
    ensures
        key_of(p) == key_of(q),
{
    lemma_key_lower(p);
    lemma_key_lower(q);
}

/// Every key is already lower-case: deriving a key normalizes it.
pub proof fn lemma_key_normalized(p: Seq<u8>)
    ensures
        key_of(p) == lower(key_of(p)),
{
    match suffix_of(file_name_of(p)) {
        Some(s) => {
            lemma_lower_idempotent(s);
        },
        None => {
            assert(lower(Seq::<u8>::empty()) =~= Seq::<u8>::empty());
        },
    }
}

/// A file name with no `.` after its first byte — no suffix at all, or only
/// a leading dot — carries the empty key.
pub proof fn lemma_no_suffix_empty_key(p: Seq<u8>)
    requires
        forall|i: int| 1 <= i < file_name_of(p).len() ==> file_name_of(p)[i] != DOT,
    ensures
        key_of(p) == Seq::<u8>::empty(),
{
    lemma_suffix_none(file_name_of(p));
}

/// Computes the extension key of a path: the lower-cased bytes after the last
/// `.` of the final path component, or the empty key when that component has
/// no suffix (including when its only `.` is its first byte).
pub fn extension_key(path: &Vec<u8>) -> (key: Vec<u8>)
    ensures
        key@ == key_of(path@),
{
    let n = path.len();
    // One past the last '/' of the path: the file name starts here.
    let mut j: usize = n;
    while j > 0 && path[j - 1] != SLASH
        invariant
            0 <= j <= n,
            n == path@.len(),
            forall|i: int| j <= i < n ==> path@[i] != SLASH,
        decreases j,
    {
        j = j - 1;
    }
    proof {
        lemma_file_name_subrange(path@, j as int);
    }
    let ghost name = path@.subrange(j as int, n as int);
    // One past the last '.' of the file name, if the name has one.
    let mut k: usize = n;
    while k > j && path[k - 1] != DOT
        invariant
            j <= k <= n,
            n == path@.len(),
            forall|i: int| k <= i < n ==> path@[i] != DOT,
        decreases k,
    {
        k = k - 1;
    }
    let mut key: Vec<u8> = Vec::new();
    if k == j || k - 1 == j {
        // No '.' in the name, or only a leading one: no suffix.
        proof {
            lemma_suffix_none(name);
        }
        key
    } else {
        let ghost d: int = k as int - 1 - j as int;
        proof {
            assert(name[d as int] == DOT);
            lemma_suffix_some(name, d as int);
        }
        let mut i: usize = k;
        while i < n
            invariant
                k <= i <= n,
                n == path@.len(),
                k >= 1,
                key@ =~= lower(path@.subrange(k as int, i as int)),
            decreases n - i,
        {
            let b = path[i];
            let lb = if UPPER_A <= b && b <= UPPER_Z {
                b + 32
            } else {
                b
            };
            key.push(lb);
            proof {
                assert(path@.subrange(k as int, i + 1).drop_last() =~= path@.subrange(
                    k as int,
                    i as int,
                ));
                assert(key@ =~= lower(path@.subrange(k as int, i + 1)));
            }
            i = i + 1;
        }
        proof {
            assert(name.subrange(d + 1, name.len() as int) =~= path@.subrange(k as int, n as int));
        }
        key
    }
}

} // verus!
