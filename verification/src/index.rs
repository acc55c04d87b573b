//! The extension index: a pure snapshot mapping each normalized extension
//! key to the lexicographically sorted sequence of file paths having that
//! extension.  It is built wholesale from a list of scanned paths and never
//! observes later filesystem changes.

use vstd::prelude::*;
use vstd::relations::sorted_by;
use vstd::multiset::Multiset;
use vstd::seq_lib::lemma_sorted_unique;
use vstd::seq_lib::lemma_multiset_commutative;
use crate::keys::key_of;
use crate::keys::extension_key;
use crate::order::lex_leq;
use crate::order::lex_lt;
use crate::order::lex_order;
use crate::order::lex_le;
use crate::order::bytes_eq;
use crate::order::clone_bytes;
use crate::order::clone_paths;
use crate::order::lemma_lex_total_ordering;
use crate::order::lemma_lex_connected;
use crate::order::lemma_lex_trans;
use crate::order::lemma_lex_antisym;

verus! {

/// One extension bucket: a key and the sorted paths carrying it.
struct Bucket {
    key: Vec<u8>,
    paths: Vec<Vec<u8>>,
}

/// The index: buckets with strictly increasing keys.
pub struct ExtensionIndex {
    buckets: Vec<Bucket>,
}

/// The paths of the bucket (if any) whose key is `k`; empty when absent.
spec fn lookup(bs: Seq<Bucket>, k: Seq<u8>) -> Seq<Seq<u8>>
    decreases bs.len(),
{
    if bs.len() == 0 {
        Seq::empty()
    } else if bs.first().key@ == k {
        bs.first().paths.deep_view()
    } else {
        lookup(bs.drop_first(), k)
    }
}

/// Whether some bucket carries the key `k`.
spec fn has_key(bs: Seq<Bucket>, k: Seq<u8>) -> bool
    decreases bs.len(),
{
    if bs.len() == 0 {
        false
    } else if bs.first().key@ == k {
        true
    } else {
        has_key(bs.drop_first(), k)
    }
}

/// The paths of `entries` whose key is `k`, in input order.
pub open spec fn key_filter(entries: Seq<Seq<u8>>, k: Seq<u8>) -> Seq<Seq<u8>> {
    entries.filter(|p: Seq<u8>| key_of(p) == k)
}

/// The paths of `entries` whose key is `k`, in lexicographic order.
pub open spec fn bucket_of(entries: Seq<Seq<u8>>, k: Seq<u8>) -> Seq<Seq<u8>> {
    key_filter(entries, k).sort_by(lex_order())
}

/// The index an entry list determines: each key that occurs maps to the
/// sorted paths carrying it.
pub open spec fn spec_index_of(entries: Seq<Seq<u8>>) -> Map<Seq<u8>, Seq<Seq<u8>>> {
    Map::new(
        |k: Seq<u8>| exists|i: int| 0 <= i < entries.len() && key_of(entries[i]) == k,
        |k: Seq<u8>| bucket_of(entries, k),
    )
}

impl View for ExtensionIndex {
    type V = Map<Seq<u8>, Seq<Seq<u8>>>;

    closed spec fn view(&self) -> Map<Seq<u8>, Seq<Seq<u8>>> {
        Map::new(
            |k: Seq<u8>| has_key(self.buckets@, k),
            |k: Seq<u8>| lookup(self.buckets@, k),
        )
    }
}

impl ExtensionIndex {
    /// Well-formed: keys strictly increase, every bucket is non-empty and
    /// sorted, and a bucket holds exactly paths carrying its key.
    pub closed spec fn wf(&self) -> bool {
        let bs = self.buckets@;
        &&& forall|i: int, j: int|
            0 <= i < j < bs.len() ==> lex_lt(#[trigger] bs[i].key@, #[trigger] bs[j].key@)
        &&& forall|i: int|
            0 <= i < bs.len() ==> sorted_by(#[trigger] bs[i].paths.deep_view(), lex_order())
        &&& forall|i: int| 0 <= i < bs.len() ==> (#[trigger] bs[i].paths@.len()) > 0
        &&& forall|i: int, m: int|
            0 <= i < bs.len() && 0 <= m < bs[i].paths@.len() ==> key_of(
                #[trigger] bs[i].paths.deep_view()[m],
            ) == bs[i].key@
    }

}

/// `lookup`/`has_key` find the first bucket carrying the key.
proof fn lemma_lookup_at(bs: Seq<Bucket>, i: int)
    requires
        0 <= i < bs.len(),
        forall|m: int| 0 <= m < i ==> (#[trigger] bs[m].key@) != bs[i].key@,
    ensures
        has_key(bs, bs[i].key@),
        lookup(bs, bs[i].key@) == bs[i].paths.deep_view(),
    decreases i,
{
    if i > 0 {
        assert(bs.drop_first()[i - 1] == bs[i]);
        assert forall|m: int| 0 <= m < i - 1 implies (#[trigger] bs.drop_first()[m].key@)
            != bs.drop_first()[i - 1].key@ by {
            assert(bs.drop_first()[m] == bs[m + 1]);
        }
        lemma_lookup_at(bs.drop_first(), i - 1);
    }
}

/// A key no bucket carries looks up to nothing.
proof fn lemma_lookup_absent(bs: Seq<Bucket>, k: Seq<u8>)
    requires
        forall|m: int| 0 <= m < bs.len() ==> (#[trigger] bs[m].key@) != k,
    ensures
        !has_key(bs, k),
        lookup(bs, k) == Seq::<Seq<u8>>::empty(),
    decreases bs.len(),
{
    if bs.len() > 0 {
        assert forall|m: int| 0 <= m < bs.len() - 1 implies (#[trigger] bs.drop_first()[m].key@)
            != k by {
            assert(bs.drop_first()[m] == bs[m + 1]);
        }
        lemma_lookup_absent(bs.drop_first(), k);
    }
}

/// A carried key is carried by some bucket, and conversely.
proof fn lemma_has_key_exists(bs: Seq<Bucket>, k: Seq<u8>)
    ensures
        has_key(bs, k) <==> exists|i: int| 0 <= i < bs.len() && (#[trigger] bs[i].key@) == k,
    decreases bs.len(),
{
    if bs.len() > 0 {
        lemma_has_key_exists(bs.drop_first(), k);
        if bs.first().key@ == k {
            assert(bs[0].key@ == k);
        } else if has_key(bs.drop_first(), k) {
            let i = choose|i: int|
                0 <= i < bs.drop_first().len() && (#[trigger] bs.drop_first()[i].key@) == k;
            assert(bs[i + 1] == bs.drop_first()[i]);
        } else {
            assert forall|i: int| 0 <= i < bs.len() implies (#[trigger] bs[i].key@) != k by {
                if i > 0 {
                    assert(bs.drop_first()[i - 1] == bs[i]);
                }
            }
        }
    }
}

/// Inserting a bucket with a fresh key changes only that key's image.
proof fn lemma_lookup_insert_new(bs: Seq<Bucket>, m: int, b: Bucket)
    requires
        0 <= m <= bs.len(),
        forall|i: int| 0 <= i < bs.len() ==> (#[trigger] bs[i].key@) != b.key@,
    ensures
        has_key(bs.insert(m, b), b.key@),
        lookup(bs.insert(m, b), b.key@) == b.paths.deep_view(),
        forall|k: Seq<u8>|
            k != b.key@ ==> #[trigger] lookup(bs.insert(m, b), k) == lookup(bs, k) && has_key(
                bs.insert(m, b),
                k,
            ) == has_key(bs, k),
    decreases m,
{
    let ins = bs.insert(m, b);
    if m == 0 {
        assert(ins.first() == b);
        assert(ins.drop_first() =~= bs);
        assert forall|k: Seq<u8>| k != b.key@ implies #[trigger] lookup(ins, k) == lookup(bs, k)
            && has_key(ins, k) == has_key(bs, k) by {
            assert(lookup(ins, k) == lookup(ins.drop_first(), k));
            assert(has_key(ins, k) == has_key(ins.drop_first(), k));
        }
    } else {
        assert(ins.first() == bs.first());
        assert(ins.drop_first() =~= bs.drop_first().insert(m - 1, b));
        assert forall|i: int| 0 <= i < bs.drop_first().len() implies (#[trigger] bs.drop_first()[i].key@)
            != b.key@ by {
            assert(bs.drop_first()[i] == bs[i + 1]);
        }
        lemma_lookup_insert_new(bs.drop_first(), m - 1, b);
        assert(bs[0].key@ != b.key@);
        assert forall|k: Seq<u8>| k != b.key@ implies #[trigger] lookup(ins, k) == lookup(bs, k)
            && has_key(ins, k) == has_key(bs, k) by {
            if k == bs.first().key@ {
                assert(lookup(ins, k) == ins.first().paths.deep_view());
                assert(lookup(bs, k) == bs.first().paths.deep_view());
            } else {
                assert(lookup(ins, k) == lookup(ins.drop_first(), k));
                assert(lookup(bs, k) == lookup(bs.drop_first(), k));
                assert(lookup(ins.drop_first(), k) == lookup(
                    bs.drop_first().insert(m - 1, b),
                    k,
                ));
                assert(has_key(ins, k) == has_key(ins.drop_first(), k));
                assert(has_key(bs, k) == has_key(bs.drop_first(), k));
            }
        }
    }
}

/// Replacing the bucket that carries a key changes only that key's image.
proof fn lemma_lookup_update(bs: Seq<Bucket>, i: int, b: Bucket)
    requires
        0 <= i < bs.len(),
        b.key@ == bs[i].key@,
        forall|m: int| 0 <= m < i ==> (#[trigger] bs[m].key@) != bs[i].key@,
    ensures
        has_key(bs.update(i, b), b.key@),
        lookup(bs.update(i, b), b.key@) == b.paths.deep_view(),
        forall|k: Seq<u8>|
            k != b.key@ ==> #[trigger] lookup(bs.update(i, b), k) == lookup(bs, k) && has_key(
                bs.update(i, b),
                k,
            ) == has_key(bs, k),
    decreases i,
{
    let upd = bs.update(i, b);
    if i == 0 {
        assert(upd.first() == b);
        assert(upd.drop_first() =~= bs.drop_first());
        assert forall|k: Seq<u8>| k != b.key@ implies #[trigger] lookup(upd, k) == lookup(bs, k)
            && has_key(upd, k) == has_key(bs, k) by {
            assert(lookup(upd, k) == lookup(upd.drop_first(), k));
            assert(lookup(bs, k) == lookup(bs.drop_first(), k));
            assert(has_key(upd, k) == has_key(upd.drop_first(), k));
            assert(has_key(bs, k) == has_key(bs.drop_first(), k));
        }
    } else {
        assert(upd.first() == bs.first());
        assert(upd.drop_first() =~= bs.drop_first().update(i - 1, b));
        assert(bs.drop_first()[i - 1] == bs[i]);
        assert forall|m: int| 0 <= m < i - 1 implies (#[trigger] bs.drop_first()[m].key@)
            != bs.drop_first()[i - 1].key@ by {
            assert(bs.drop_first()[m] == bs[m + 1]);
        }
        lemma_lookup_update(bs.drop_first(), i - 1, b);
        assert(bs[0].key@ != b.key@);
        assert forall|k: Seq<u8>| k != b.key@ implies #[trigger] lookup(upd, k) == lookup(bs, k)
            && has_key(upd, k) == has_key(bs, k) by {
            if k == bs.first().key@ {
                assert(lookup(upd, k) == upd.first().paths.deep_view());
                assert(lookup(bs, k) == bs.first().paths.deep_view());
            } else {
                assert(lookup(upd, k) == lookup(upd.drop_first(), k));
                assert(lookup(bs, k) == lookup(bs.drop_first(), k));
                assert(lookup(upd.drop_first(), k) == lookup(bs.drop_first().update(i - 1, b), k));
                assert(has_key(upd, k) == has_key(upd.drop_first(), k));
                assert(has_key(bs, k) == has_key(bs.drop_first(), k));
            }
        }
    }
}

/// The position where `x` belongs in the sorted path sequence `v`: the
/// first index holding something greater than `x` (or the length).
fn lower_insert_pos(v: &Vec<Vec<u8>>, x: &Vec<u8>) -> (pos: usize)
    ensures
        pos <= v@.len(),
        forall|m: int| 0 <= m < pos ==> lex_leq(#[trigger] v.deep_view()[m], x@),
        pos < v@.len() ==> !lex_leq(v.deep_view()[pos as int], x@),
{
    let mut pos: usize = 0;
    while pos < v.len()
        invariant
            0 <= pos <= v@.len(),
            forall|m: int| 0 <= m < pos ==> lex_leq(#[trigger] v.deep_view()[m], x@),
        decreases v@.len() - pos,
    {
        proof {
            assert(v.deep_view()[pos as int] == v@[pos as int]@);
        }
        if !lex_le(&v[pos], x) {
            return pos;
        }
        pos = pos + 1;
    }
    pos
}

/// Inserts `x` into a sorted sequence of paths, keeping it sorted.
fn insert_sorted(v: &mut Vec<Vec<u8>>, x: Vec<u8>)
    requires
        sorted_by(old(v).deep_view(), lex_order()),
    ensures
        final(v)@.len() == old(v)@.len() + 1,
        sorted_by(final(v).deep_view(), lex_order()),
        final(v).deep_view().to_multiset() == old(v).deep_view().to_multiset().insert(x@),
        forall|m: int|
            0 <= m < final(v)@.len() ==> (#[trigger] final(v).deep_view()[m]) == x@ || old(
                v,
            ).deep_view().contains(final(v).deep_view()[m]),
{
    let ghost dv_old = v.deep_view();
    let ghost leq = lex_order();
    let pos = lower_insert_pos(v, &x);
    proof {
        assert forall|m: int| pos <= m < dv_old.len() implies lex_leq(x@, #[trigger] dv_old[m]) by {
            assert(!lex_leq(dv_old[pos as int], x@));
            lemma_lex_connected(dv_old[pos as int], x@);
            if m > pos {
                assert(leq(dv_old[pos as int], dv_old[m]));
                lemma_lex_trans(x@, dv_old[pos as int], dv_old[m]);
            }
        }
    }
    v.insert(pos, x);
    proof {
        let dv_new = v.deep_view();
        assert forall|m: int| 0 <= m < dv_new.len() implies #[trigger] dv_new[m] == (dv_old.take(
            pos as int,
        ) + seq![x@] + dv_old.skip(pos as int))[m] by {
            assert(dv_new[m] == v@[m]@);
            if m < pos as int {
                assert(v@[m] == old(v)@[m]);
                assert(dv_old[m] == old(v)@[m]@);
            } else if m > pos as int {
                assert(v@[m] == old(v)@[m - 1]);
                assert(dv_old[m - 1] == old(v)@[m - 1]@);
            }
        }
        assert(dv_new =~= dv_old.take(pos as int) + seq![x@] + dv_old.skip(pos as int));
        assert(dv_old =~= dv_old.take(pos as int) + dv_old.skip(pos as int));
        broadcast use vstd::multiset::group_multiset_axioms;
        broadcast use vstd::seq_lib::group_to_multiset_ensures;

        lemma_multiset_commutative(dv_old.take(pos as int) + seq![x@], dv_old.skip(pos as int));
        lemma_multiset_commutative(dv_old.take(pos as int), seq![x@]);
        lemma_multiset_commutative(dv_old.take(pos as int), dv_old.skip(pos as int));
        assert(seq![x@].to_multiset() =~= Multiset::empty().insert(x@));
        assert(dv_new.to_multiset() =~= dv_old.to_multiset().insert(x@));
        assert forall|i: int, j: int| 0 <= i < j < dv_new.len() implies leq(
            #[trigger] dv_new[i],
            #[trigger] dv_new[j],
        ) by {
            if j < pos as int {
                assert(leq(dv_old[i], dv_old[j]));
            } else if i < pos as int && j == pos as int {
                assert(lex_leq(dv_old[i], x@));
            } else if i == pos as int {
                assert(lex_leq(x@, dv_old[j - 1]));
            } else if i < pos as int && j > pos as int {
                assert(lex_leq(dv_old[i], x@));
                assert(lex_leq(x@, dv_old[j - 1]));
                lemma_lex_trans(dv_old[i], x@, dv_old[j - 1]);
            } else {
                assert(leq(dv_old[i - 1], dv_old[j - 1]));
            }
        }
        assert(sorted_by(dv_new, lex_order()));
    }
}

/// The position where `key` belongs among the sorted bucket keys: the first
/// index whose key is not below `key` (or the length).
fn bucket_pos(bs: &Vec<Bucket>, key: &Vec<u8>) -> (pos: usize)
    ensures
        pos <= bs@.len(),
        forall|m: int| 0 <= m < pos ==> !lex_leq(key@, #[trigger] bs@[m].key@),
        pos < bs@.len() ==> lex_leq(key@, bs@[pos as int].key@),
{
    let mut pos: usize = 0;
    while pos < bs.len()
        invariant
            0 <= pos <= bs@.len(),
            forall|m: int| 0 <= m < pos ==> !lex_leq(key@, #[trigger] bs@[m].key@),
        decreases bs@.len() - pos,
    {
        if lex_le(key, &bs[pos].key) {
            return pos;
        }
        pos = pos + 1;
    }
    pos
}

impl ExtensionIndex {
    /// Adds one path under its extension key, creating the bucket if absent.
    fn insert_path(&mut self, key: Vec<u8>, path: Vec<u8>)
        requires
            old(self).wf(),
            key_of(path@) == key@,
        ensures
            final(self).wf(),
            forall|k: Seq<u8>|
                has_key(final(self).buckets@, k) <==> has_key(old(self).buckets@, k) || k == key@,
            lookup(final(self).buckets@, key@).to_multiset() == lookup(
                old(self).buckets@,
                key@,
            ).to_multiset().insert(path@),
            forall|k: Seq<u8>|
                k != key@ ==> #[trigger] lookup(final(self).buckets@, k) == lookup(
                    old(self).buckets@,
                    k,
                ),
    {
        let ghost bs_old = self.buckets@;
        let ghost leq = lex_order();
        let pos = bucket_pos(&self.buckets, &key);
        proof {
            assert forall|m: int| 0 <= m < pos implies lex_lt(
                #[trigger] bs_old[m].key@,
                key@,
            ) by {
                lemma_lex_connected(key@, bs_old[m].key@);
                if bs_old[m].key@ == key@ {
                    crate::order::lemma_lex_refl(key@);
                }
            }
        }
        let hit = pos < self.buckets.len() && bytes_eq(&self.buckets[pos].key, &key);
        if hit {
            let mut bkt = self.buckets.remove(pos);
            let ghost bkt_old = bkt;
            insert_sorted(&mut bkt.paths, path);
            let ghost bkt_new = bkt;
            self.buckets.insert(pos, bkt);
            proof {
                assert(self.buckets@ =~= bs_old.update(pos as int, bkt_new));
                assert(bkt_new.key@ == bs_old[pos as int].key@);
                assert forall|m: int| 0 <= m < pos implies (#[trigger] bs_old[m].key@)
                    != bs_old[pos as int].key@ by {}
                lemma_lookup_update(bs_old, pos as int, bkt_new);
                lemma_lookup_at(bs_old, pos as int);
                // Well-formedness: only bucket `pos` changed, and only its paths.
                let bs_new = self.buckets@;
                assert forall|i: int| 0 <= i < bs_new.len() implies (#[trigger] bs_new[i].key@)
                    == bs_old[i].key@ by {}
                assert forall|i: int, j: int| 0 <= i < j < bs_new.len() implies lex_lt(
                    #[trigger] bs_new[i].key@,
                    #[trigger] bs_new[j].key@,
                ) by {
                    assert(lex_lt(bs_old[i].key@, bs_old[j].key@));
                }
                assert forall|i: int, m: int|
                    0 <= i < bs_new.len() && 0 <= m < bs_new[i].paths@.len() implies key_of(
                    #[trigger] bs_new[i].paths.deep_view()[m],
                ) == bs_new[i].key@ by {
                    if i == pos as int {
                        let p = bs_new[i].paths.deep_view()[m];
                        if p == path@ {
                        } else {
                            assert(bkt_old.paths.deep_view().contains(p));
                            let w = choose|w: int|
                                0 <= w < bkt_old.paths.deep_view().len()
                                    && bkt_old.paths.deep_view()[w] == p;
                            assert(key_of(bs_old[pos as int].paths.deep_view()[w]) == bs_old[
                                pos as int
                            ].key@);
                        }
                    }
                }
                assert forall|i: int| 0 <= i < bs_new.len() implies sorted_by(
                    #[trigger] bs_new[i].paths.deep_view(),
                    lex_order(),
                ) by {
                    if i != pos as int {
                        assert(sorted_by(bs_old[i].paths.deep_view(), lex_order()));
                    }
                }
                assert(self.wf());
                assert forall|k: Seq<u8>|
                    has_key(self.buckets@, k) <==> has_key(bs_old, k) || k == key@ by {
                    if k == key@ {
                        assert(has_key(self.buckets@, key@));
                        assert(has_key(bs_old, key@));
                    } else {
                        assert(lookup(self.buckets@, k) == lookup(bs_old, k));
                    }
                }
            }
        } else {
            proof {
                assert forall|i: int| 0 <= i < bs_old.len() implies (#[trigger] bs_old[i].key@)
                    != key@ by {
                    if i >= pos {
                        assert(lex_leq(key@, bs_old[pos as int].key@));
                        if i == pos {
                        } else {
                            assert(lex_lt(bs_old[pos as int].key@, bs_old[i].key@));
                            if bs_old[i].key@ == key@ {
                                lemma_lex_antisym(key@, bs_old[pos as int].key@);
                            }
                        }
                    }
                }
            }
            let mut paths: Vec<Vec<u8>> = Vec::new();
            paths.push(path);
            let bkt = Bucket { key, paths };
            self.buckets.insert(pos, bkt);
            proof {
                let bs_new = self.buckets@;
                let b = bs_new[pos as int];
                assert(bs_new =~= bs_old.insert(pos as int, b));
                lemma_lookup_insert_new(bs_old, pos as int, b);
                lemma_lookup_absent(bs_old, b.key@);
                assert(b.paths.deep_view()[0] == b.paths@[0]@);
                broadcast use vstd::multiset::group_multiset_axioms;
                broadcast use vstd::seq_lib::group_to_multiset_ensures;

                assert(b.paths.deep_view() =~= Seq::<Seq<u8>>::empty().push(path@));
                assert(b.paths.deep_view().to_multiset() == Seq::<Seq<u8>>::empty().to_multiset().insert(
                    path@,
                ));
                // Well-formedness of the extended bucket list.
                assert forall|i: int, j: int| 0 <= i < j < bs_new.len() implies lex_lt(
                    #[trigger] bs_new[i].key@,
                    #[trigger] bs_new[j].key@,
                ) by {
                    if j < pos as int {
                        assert(lex_lt(bs_old[i].key@, bs_old[j].key@));
                    } else if i < pos as int && j == pos as int {
                        assert(lex_lt(bs_old[i].key@, key@));
                    } else if i == pos as int {
                        assert(lex_leq(key@, bs_old[pos as int].key@));
                        if j - 1 > pos as int {
                            assert(lex_lt(bs_old[pos as int].key@, bs_old[j - 1].key@));
                            lemma_lex_trans(key@, bs_old[pos as int].key@, bs_old[j - 1].key@);
                        }
                        assert(bs_old[j - 1].key@ != key@);
                    } else if i < pos as int && j > pos as int {
                        assert(lex_lt(bs_old[i].key@, bs_old[j - 1].key@));
                    } else {
                        assert(lex_lt(bs_old[i - 1].key@, bs_old[j - 1].key@));
                    }
                }
                assert forall|i: int, m: int|
                    0 <= i < bs_new.len() && 0 <= m < bs_new[i].paths@.len() implies key_of(
                    #[trigger] bs_new[i].paths.deep_view()[m],
                ) == bs_new[i].key@ by {
                    if i < pos as int {
                        assert(key_of(bs_old[i].paths.deep_view()[m]) == bs_old[i].key@);
                    } else if i == pos as int {
                        assert(bs_new[i].paths.deep_view()[m] == b.paths@[0]@);
                    } else {
                        assert(key_of(bs_old[i - 1].paths.deep_view()[m]) == bs_old[i - 1].key@);
                    }
                }
                assert forall|i: int| 0 <= i < bs_new.len() implies sorted_by(
                    #[trigger] bs_new[i].paths.deep_view(),
                    lex_order(),
                ) by {
                    if i != pos as int {
                        let iold = if i < pos as int {
                            i
                        } else {
                            i - 1
                        };
                        assert(sorted_by(bs_old[iold].paths.deep_view(), lex_order()));
                    }
                }
                assert(self.wf());
                assert forall|k: Seq<u8>|
                    has_key(self.buckets@, k) <==> has_key(bs_old, k) || k == key@ by {
                    if k == key@ {
                        assert(has_key(self.buckets@, key@));
                    } else {
                        assert(lookup(self.buckets@, k) == lookup(bs_old, k));
                    }
                }
            }
        }
    }
}

/// Builds the index of a scanned entry list: every path lands in the bucket
/// of its normalized extension key, and every bucket comes out sorted.
pub fn build(entries: &Vec<Vec<u8>>) -> (r: ExtensionIndex)
    ensures
        r.wf(),
        r@ == spec_index_of(entries.deep_view()),
{
    let ghost dv = entries.deep_view();
    let mut r = ExtensionIndex { buckets: Vec::new() };
    proof {
        assert(dv.take(0) =~= Seq::<Seq<u8>>::empty());
        reveal(Seq::filter);
        assert forall|k: Seq<u8>| #[trigger] lookup(r.buckets@, k).to_multiset() == key_filter(
            dv.take(0),
            k,
        ).to_multiset() by {
            assert(lookup(r.buckets@, k) == Seq::<Seq<u8>>::empty());
            assert(key_filter(dv.take(0), k) == Seq::<Seq<u8>>::empty());
        }
    }
    let mut i: usize = 0;
    while i < entries.len()
        invariant
            r.wf(),
            0 <= i <= entries@.len(),
            dv == entries.deep_view(),
            dv.len() == entries@.len(),
            forall|k: Seq<u8>|
                has_key(r.buckets@, k) <==> exists|m: int|
                    0 <= m < i && key_of(#[trigger] dv[m]) == k,
            forall|k: Seq<u8>|
                #[trigger] lookup(r.buckets@, k).to_multiset() == key_filter(
                    dv.take(i as int),
                    k,
                ).to_multiset(),
        decreases entries@.len() - i,
    {
        let key = extension_key(&entries[i]);
        let path = clone_bytes(&entries[i]);
        let ghost bs_prev = r.buckets@;
        proof {
            assert(dv[i as int] == entries@[i as int]@);
            assert(path@ == dv[i as int]);
            assert(key@ == key_of(dv[i as int]));
        }
        r.insert_path(key, path);
        proof {
            reveal(Seq::filter);
            broadcast use vstd::seq_lib::group_to_multiset_ensures;

            let t_new = dv.take(i + 1);
            assert(t_new.drop_last() =~= dv.take(i as int));
            assert(t_new.last() == dv[i as int]);
            assert forall|k: Seq<u8>| #[trigger] lookup(r.buckets@, k).to_multiset() == key_filter(
                t_new,
                k,
            ).to_multiset() by {
                if k == key@ {
                    assert(key_filter(t_new, k) == key_filter(dv.take(i as int), k).push(
                        dv[i as int],
                    ));
                    assert(key_filter(t_new, k).to_multiset() == key_filter(
                        dv.take(i as int),
                        k,
                    ).to_multiset().insert(dv[i as int]));
                } else {
                    assert(key_filter(t_new, k) == key_filter(dv.take(i as int), k));
                    assert(lookup(r.buckets@, k) == lookup(bs_prev, k));
                }
            }
            assert forall|k: Seq<u8>|
                has_key(r.buckets@, k) <==> exists|m: int|
                    0 <= m < i + 1 && key_of(#[trigger] dv[m]) == k by {
                if has_key(r.buckets@, k) {
                    if has_key(bs_prev, k) {
                        let m = choose|m: int| 0 <= m < i && key_of(#[trigger] dv[m]) == k;
                        assert(0 <= m < i + 1 && key_of(dv[m]) == k);
                    } else {
                        assert(k == key@);
                        assert(key_of(dv[i as int]) == k);
                    }
                } else {
                    assert(!has_key(bs_prev, k) && k != key@);
                }
            }
        }
        i = i + 1;
    }
    proof {
        assert(dv.take(dv.len() as int) =~= dv);
        let leq = lex_order();
        lemma_lex_total_ordering();
        let m_goal = spec_index_of(dv);
        assert forall|k: Seq<u8>| #[trigger] has_key(r.buckets@, k) implies lookup(r.buckets@, k)
            == bucket_of(dv, k) by {
            lemma_has_key_exists(r.buckets@, k);
            let i0 = choose|i0: int|
                0 <= i0 < r.buckets@.len() && (#[trigger] r.buckets@[i0].key@) == k;
            assert forall|m: int| 0 <= m < i0 implies (#[trigger] r.buckets@[m].key@)
                != r.buckets@[i0].key@ by {
                assert(lex_lt(r.buckets@[m].key@, r.buckets@[i0].key@));
            }
            lemma_lookup_at(r.buckets@, i0);
            assert(sorted_by(lookup(r.buckets@, k), leq));
            key_filter(dv, k).lemma_sort_by_ensures(leq);
            lemma_sorted_unique(lookup(r.buckets@, k), bucket_of(dv, k), leq);
        }
        assert forall|k: Seq<u8>| r@.dom().contains(k) <==> m_goal.dom().contains(k) by {}
        assert(r@ =~= m_goal);
    }
    r
}

/// A strictly increasing list of exactly the keys of `m`.
pub open spec fn is_key_list(m: Map<Seq<u8>, Seq<Seq<u8>>>, ks: Seq<Seq<u8>>) -> bool {
    &&& forall|i: int, j: int| 0 <= i < j < ks.len() ==> lex_lt(#[trigger] ks[i], #[trigger] ks[j])
    &&& forall|i: int| 0 <= i < ks.len() ==> m.dom().contains(#[trigger] ks[i])
    &&& forall|k: Seq<u8>| m.dom().contains(k) ==> ks.contains(k)
}

/// One `(key, count)` pair per key of `m`, keys strictly increasing.
pub open spec fn is_summary(m: Map<Seq<u8>, Seq<Seq<u8>>>, s: Seq<(Vec<u8>, usize)>) -> bool {
    &&& forall|i: int, j: int|
        0 <= i < j < s.len() ==> lex_lt(#[trigger] s[i].0@, #[trigger] s[j].0@)
    &&& forall|i: int|
        0 <= i < s.len() ==> m.dom().contains(#[trigger] s[i].0@) && s[i].1 == m[s[i].0@].len()
    &&& forall|k: Seq<u8>|
        m.dom().contains(k) ==> exists|i: int| 0 <= i < s.len() && (#[trigger] s[i].0@) == k
}

impl ExtensionIndex {
    /// The position of the bucket carrying `key`, if any.
    fn find_bucket(&self, key: &Vec<u8>) -> (r: Option<usize>)
        ensures
            match r {
                Some(i) => i < self.buckets@.len() && self.buckets@[i as int].key@ == key@
                    && has_key(self.buckets@, key@) && lookup(self.buckets@, key@)
                    == self.buckets@[i as int].paths.deep_view(),
                None => !has_key(self.buckets@, key@) && lookup(self.buckets@, key@) == Seq::<
                    Seq<u8>,
                >::empty(),
            },
    {
        let mut i: usize = 0;
        while i < self.buckets.len()
            invariant
                0 <= i <= self.buckets@.len(),
                forall|m: int| 0 <= m < i ==> (#[trigger] self.buckets@[m].key@) != key@,
            decreases self.buckets@.len() - i,
        {
            if bytes_eq(&self.buckets[i].key, key) {
                proof {
                    lemma_lookup_at(self.buckets@, i as int);
                }
                return Some(i);
            }
            i = i + 1;
        }
        proof {
            lemma_lookup_absent(self.buckets@, key@);
        }
        None
    }

    /// Whether the index knows this extension key.
    pub fn contains_key(&self, key: &Vec<u8>) -> (r: bool)
        ensures
            r == self@.dom().contains(key@),
    {
        match self.find_bucket(key) {
            Some(_) => true,
            None => false,
        }
    }

    /// How many files carry `key`: zero when the key is absent.
    pub fn count(&self, key: &Vec<u8>) -> (n: usize)
        ensures
            self@.dom().contains(key@) ==> n == self@[key@].len(),
            !self@.dom().contains(key@) ==> n == 0,
    {
        match self.find_bucket(key) {
            Some(i) => self.buckets[i].paths.len(),
            None => 0,
        }
    }

    /// The paths carrying `key`, in lexicographic order; empty when the key
    /// is absent.  A pure query: repeated calls return the same sequence.
    pub fn paths(&self, key: &Vec<u8>) -> (r: Vec<Vec<u8>>)
        requires
            self.wf(),
        ensures
            self@.dom().contains(key@) ==> r.deep_view() == self@[key@],
            !self@.dom().contains(key@) ==> r.deep_view() == Seq::<Seq<u8>>::empty(),
            sorted_by(r.deep_view(), lex_order()),
    {
        match self.find_bucket(key) {
            Some(i) => clone_paths(&self.buckets[i].paths),
            None => {
                let r: Vec<Vec<u8>> = Vec::new();
                proof {
                    assert(r.deep_view() =~= Seq::<Seq<u8>>::empty());
                }
                r
            },
        }
    }

    /// Every extension key of the index, in strictly increasing order.
    pub fn keys(&self) -> (ks: Vec<Vec<u8>>)
        requires
            self.wf(),
        ensures
            is_key_list(self@, ks.deep_view()),
    {
        let mut ks: Vec<Vec<u8>> = Vec::new();
        let mut i: usize = 0;
        while i < self.buckets.len()
            invariant
                0 <= i <= self.buckets@.len(),
                ks@.len() == i,
                forall|m: int| 0 <= m < i ==> (#[trigger] ks@[m]@) == self.buckets@[m].key@,
            decreases self.buckets@.len() - i,
        {
            ks.push(clone_bytes(&self.buckets[i].key));
            i = i + 1;
        }
        proof {
            let bs = self.buckets@;
            let dv = ks.deep_view();
            assert forall|m: int| 0 <= m < dv.len() implies #[trigger] dv[m] == bs[m].key@ by {
                assert(dv[m] == ks@[m]@);
            }
            assert forall|m: int| 0 <= m < dv.len() implies self@.dom().contains(
                #[trigger] dv[m],
            ) by {
                assert forall|w: int| 0 <= w < m implies (#[trigger] bs[w].key@) != bs[m].key@ by {
                    assert(lex_lt(bs[w].key@, bs[m].key@));
                }
                lemma_lookup_at(bs, m);
            }
            assert forall|k: Seq<u8>| self@.dom().contains(k) implies dv.contains(k) by {
                lemma_has_key_exists(bs, k);
                let w = choose|w: int| 0 <= w < bs.len() && (#[trigger] bs[w].key@) == k;
                assert(dv[w] == k);
            }
        }
        ks
    }

    /// One `(key, count)` pair per extension, keys strictly increasing.
    pub fn summary(&self) -> (s: Vec<(Vec<u8>, usize)>)
        requires
            self.wf(),
        ensures
            is_summary(self@, s@),
    {
        let mut s: Vec<(Vec<u8>, usize)> = Vec::new();
        let mut i: usize = 0;
        while i < self.buckets.len()
            invariant
                0 <= i <= self.buckets@.len(),
                s@.len() == i,
                forall|m: int|
                    0 <= m < i ==> (#[trigger] s@[m].0@) == self.buckets@[m].key@ && s@[m].1
                        == self.buckets@[m].paths@.len(),
            decreases self.buckets@.len() - i,
    {
            let key = clone_bytes(&self.buckets[i].key);
            let n = self.buckets[i].paths.len();
            let ghost s_prev = s@;
            s.push((key, n));
            proof {
                assert forall|m: int| 0 <= m < i + 1 implies (#[trigger] s@[m].0@)
                    == self.buckets@[m].key@ && s@[m].1 == self.buckets@[m].paths@.len() by {
                    if m < i as int {
                        assert(s@[m] == s_prev[m]);
                    } else {
                        assert(s@[m] == (key, n));
                    }
                }
            }
            i = i + 1;
        }
        proof {
            let bs = self.buckets@;
            assert forall|m: int| 0 <= m < s@.len() implies self@.dom().contains(
                #[trigger] s@[m].0@,
            ) && s@[m].1 == self@[s@[m].0@].len() by {
                assert forall|w: int| 0 <= w < m implies (#[trigger] bs[w].key@) != bs[m].key@ by {
                    assert(lex_lt(bs[w].key@, bs[m].key@));
                }
                lemma_lookup_at(bs, m);
            }
            assert forall|k: Seq<u8>| self@.dom().contains(k) implies exists|i0: int|
                0 <= i0 < s@.len() && (#[trigger] s@[i0].0@) == k by {
                lemma_has_key_exists(bs, k);
                let w = choose|w: int| 0 <= w < bs.len() && (#[trigger] bs[w].key@) == k;
                assert(s@[w].0@ == k);
            }
        }
        s
    }
}

/// Every file lands in exactly one bucket — the one keyed by its extension
/// key — and a key's bucket holds exactly the files carrying that key, as
/// many as there are in the entry list.
pub proof fn lemma_build_partitions(entries: Seq<Seq<u8>>)
    ensures
        forall|i: int|
            0 <= i < entries.len() ==> spec_index_of(entries).dom().contains(
                key_of(#[trigger] entries[i]),
            ) && bucket_of(entries, key_of(entries[i])).contains(entries[i]),
        forall|k: Seq<u8>, p: Seq<u8>|
            #[trigger] bucket_of(entries, k).contains(p) ==> key_of(p) == k,
        forall|k: Seq<u8>| #[trigger] bucket_of(entries, k).len() == key_filter(entries, k).len(),
{
    let leq = lex_order();
    lemma_lex_total_ordering();
    broadcast use vstd::seq_lib::group_to_multiset_ensures;
    broadcast use vstd::multiset::group_multiset_axioms;

    assert forall|k: Seq<u8>| #[trigger] bucket_of(entries, k).len() == key_filter(
        entries,
        k,
    ).len() by {
        key_filter(entries, k).lemma_sort_by_ensures(leq);
        key_filter(entries, k).to_multiset_ensures();
        bucket_of(entries, k).to_multiset_ensures();
    }
    assert forall|k: Seq<u8>, p: Seq<u8>| #[trigger] bucket_of(entries, k).contains(p) implies
        key_of(p) == k by {
        key_filter(entries, k).lemma_sort_by_ensures(leq);
        assert(key_filter(entries, k).contains(p));
        let w = choose|w: int|
            0 <= w < key_filter(entries, k).len() && key_filter(entries, k)[w] == p;
        Seq::lemma_filter_pred(entries, |q: Seq<u8>| key_of(q) == k, w);
    }
    assert forall|i: int| 0 <= i < entries.len() implies spec_index_of(entries).dom().contains(
        key_of(#[trigger] entries[i]),
    ) && bucket_of(entries, key_of(entries[i])).contains(entries[i]) by {
        let k = key_of(entries[i]);
        Seq::lemma_filter_contains(entries, |q: Seq<u8>| key_of(q) == k, i);
        key_filter(entries, k).lemma_sort_by_ensures(leq);
        assert(key_filter(entries, k).contains(entries[i]));
        assert(bucket_of(entries, k).to_multiset().count(entries[i]) > 0);
    }
}

} // verus!
