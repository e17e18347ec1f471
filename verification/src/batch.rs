//! The batcher and the translation-client codec.
//!
//! Pending strings are packed, in arrival order, into delimiter-joined
//! batches bounded by a size limit; a batch is the unit of one provider
//! call. The response's single text field is split back on the delimiter
//! and paired positionally with the batch's units; the cache takes one
//! entry per pair, keyed by source string.

use vstd::prelude::*;
use crate::cache::StrMap;
use crate::flatten::str_pairs_view;
use crate::text::utf8_len;

verus! {

/// The failures a translation call can surface: the transport failed, the
/// provider answered with a non-success status, or the response body could
/// not be used.
#[derive(Debug, PartialEq, Eq, Structural)]
pub enum TranslateError {
    Transport,
    Provider(u16),
    Decode,
}

/// The pending units of a unit sequence: those whose source string the
/// cache does not know, in arrival order.
pub open spec fn pending_spec(
    us: Seq<(Seq<char>, Seq<char>)>,
    c: Map<Seq<char>, Seq<char>>,
) -> Seq<(Seq<char>, Seq<char>)>
    decreases us.len(),
{
    if us.len() == 0 {
        Seq::empty()
    } else {
        pending_spec(us.drop_last(), c) + (if c.dom().contains(us.last().1) {
            Seq::empty()
        } else {
            seq![us.last()]
        })
    }
}

/// The cache-resolved translations of a unit sequence: path key to cached
/// translation, in arrival order.
pub open spec fn resolved_spec(
    us: Seq<(Seq<char>, Seq<char>)>,
    c: Map<Seq<char>, Seq<char>>,
) -> Seq<(Seq<char>, Seq<char>)>
    decreases us.len(),
{
    if us.len() == 0 {
        Seq::empty()
    } else {
        resolved_spec(us.drop_last(), c) + (if c.dom().contains(us.last().1) {
            seq![(us.last().0, c[us.last().1])]
        } else {
            Seq::empty()
        })
    }
}

/// Consults the cache before batching: units whose source is cached are
/// resolved at once and never occupy batch capacity; the rest stay
/// pending, order kept.
pub fn filter_pending(units: Vec<(String, String)>, cache: &StrMap) -> (r: (
    Vec<(String, String)>,
    Vec<(String, String)>,
))
    requires
        cache.wf(),
    ensures
        str_pairs_view(r.0@) == pending_spec(str_pairs_view(units@), cache@),
        str_pairs_view(r.1@) == resolved_spec(str_pairs_view(units@), cache@),
{
    let ghost uv = str_pairs_view(units@);
    let mut pending: Vec<(String, String)> = Vec::new();
    let mut resolved: Vec<(String, String)> = Vec::new();
    let mut i: usize = 0;
    while i < units.len()
        invariant
            i <= units@.len(),
            uv == str_pairs_view(units@),
            cache.wf(),
            str_pairs_view(pending@) == pending_spec(uv.subrange(0, i as int), cache@),
            str_pairs_view(resolved@) == resolved_spec(uv.subrange(0, i as int), cache@),
        decreases units@.len() - i,
    {
        proof {
            assert(uv.subrange(0, i + 1).drop_last() =~= uv.subrange(0, i as int));
            assert(uv.subrange(0, i + 1).last() == uv[i as int]);
        }
        match cache.lookup(&units[i].1) {
            Some(t) => {
                resolved.push((units[i].0.clone(), t.clone()));
                proof {
                    assert(str_pairs_view(resolved@) =~~= resolved_spec(
                        uv.subrange(0, i + 1),
                        cache@,
                    ));
                    assert(str_pairs_view(pending@) =~~= pending_spec(
                        uv.subrange(0, i + 1),
                        cache@,
                    ));
                }
            }
            None => {
                pending.push((units[i].0.clone(), units[i].1.clone()));
                proof {
                    assert(str_pairs_view(pending@) =~~= pending_spec(
                        uv.subrange(0, i + 1),
                        cache@,
                    ));
                    assert(str_pairs_view(resolved@) =~~= resolved_spec(
                        uv.subrange(0, i + 1),
                        cache@,
                    ));
                }
            }
        }
        i = i + 1;
    }
    proof {
        assert(uv.subrange(0, uv.len() as int) =~= uv);
    }
    (pending, resolved)
}

/// The one-pass plan of a run: every string leaf is either resolved from
/// the cache at once or grouped into a size-bounded batch for the
/// provider, in traversal order.
pub fn plan_run(doc: &crate::json::Json, cache: &StrMap, limit: usize, dlen: usize) -> (r: (
    Vec<Vec<(String, String)>>,
    Vec<(String, String)>,
))
    requires
        cache.wf(),
    ensures
        batches_view(r.0@) == batches_spec(
            pending_spec(crate::flatten::str_units(crate::flatten::flat_map_of(doc@)), cache@),
            limit as nat,
            dlen as nat,
        ),
        str_pairs_view(r.1@) == resolved_spec(
            crate::flatten::str_units(crate::flatten::flat_map_of(doc@)),
            cache@,
        ),
{
    let units = crate::flatten::collect_values(doc);
    let (pending, resolved) = filter_pending(units, cache);
    let batches = make_batches(pending, limit, dlen);
    (batches, resolved)
}

/// Every pending unit is one of the units fed in.
pub proof fn lemma_pending_members(us: Seq<(Seq<char>, Seq<char>)>, c: Map<Seq<char>, Seq<char>>)
    ensures
        forall|x: int| 0 <= x < pending_spec(us, c).len() ==> exists|y: int| 0 <= y < us.len()
            && #[trigger] pending_spec(us, c)[x] == #[trigger] us[y],
    decreases us.len(),
{
    if us.len() > 0 {
        let pre = us.drop_last();
        lemma_pending_members(pre, c);
        assert forall|x: int| 0 <= x < pending_spec(us, c).len() implies exists|y: int| 0 <= y
            < us.len() && #[trigger] pending_spec(us, c)[x] == #[trigger] us[y] by {
            if x < pending_spec(pre, c).len() {
                assert(pending_spec(us, c)[x] == pending_spec(pre, c)[x]);
                let y = choose|y: int| 0 <= y < pre.len() && pending_spec(pre, c)[x] == (
                #[trigger] pre[y]);
                assert(us[y] == pre[y]);
            } else {
                assert(pending_spec(us, c)[x] == us.last());
                assert(us[us.len() - 1] == us.last());
            }
        }
    }
}

/// Distinct unit keys stay distinct among the pending units.
pub proof fn lemma_pending_distinct(us: Seq<(Seq<char>, Seq<char>)>, c: Map<Seq<char>, Seq<char>>)
    requires
        forall|a: int, b: int| 0 <= a < b < us.len() ==> (#[trigger] us[a]).0 != (
        #[trigger] us[b]).0,
    ensures
        forall|a: int, b: int| 0 <= a < b < pending_spec(us, c).len() ==> (
        #[trigger] pending_spec(us, c)[a]).0 != (#[trigger] pending_spec(us, c)[b]).0,
    decreases us.len(),
{
    if us.len() > 0 {
        let pre = us.drop_last();
        assert forall|a: int, b: int| 0 <= a < b < pre.len() implies (#[trigger] pre[a]).0 != (
        #[trigger] pre[b]).0 by {
            assert(pre[a] == us[a]);
            assert(pre[b] == us[b]);
        }
        lemma_pending_distinct(pre, c);
        lemma_pending_members(pre, c);
        assert forall|a: int, b: int| 0 <= a < b < pending_spec(us, c).len() implies (
        #[trigger] pending_spec(us, c)[a]).0 != (#[trigger] pending_spec(us, c)[b]).0 by {
            if b < pending_spec(pre, c).len() {
                assert(pending_spec(us, c)[a] == pending_spec(pre, c)[a]);
                assert(pending_spec(us, c)[b] == pending_spec(pre, c)[b]);
            } else {
                assert(pending_spec(us, c)[a] == pending_spec(pre, c)[a]);
                assert(pending_spec(us, c)[b] == us.last());
                let y = choose|y: int| 0 <= y < pre.len() && pending_spec(pre, c)[a] == (
                #[trigger] pre[y]);
                assert(us[y] == pre[y]);
                assert(us[y].0 != us[us.len() - 1].0);
            }
        }
    }
}

/// Whether batch `b` stands at offset `off` of the concatenation of all
/// batches.
pub open spec fn is_block_at(bs: Seq<Seq<(Seq<char>, Seq<char>)>>, b: int, off: int) -> bool {
    &&& 0 <= off
    &&& off + bs[b].len() <= concat_all(bs).len()
    &&& forall|j: int| 0 <= j < bs[b].len() ==> (#[trigger] bs[b][j]) == concat_all(bs)[off + j]
}

/// Each batch stands as one contiguous block of the concatenation of all
/// batches.
pub proof fn lemma_concat_block(bs: Seq<Seq<(Seq<char>, Seq<char>)>>, b: int)
    requires
        0 <= b < bs.len(),
    ensures
        exists|off: int| #[trigger] is_block_at(bs, b, off),
    decreases bs.len(),
{
    let c = concat_all(bs);
    if b == bs.len() - 1 {
        let off = c.len() - bs[b].len();
        assert(bs[b] == bs.last());
        assert forall|j: int| 0 <= j < bs[b].len() implies (#[trigger] bs[b][j]) == c[off + j] by {
            assert(c[off + j] == bs.last()[j]);
        }
        assert(is_block_at(bs, b, off));
    } else {
        let pre = bs.drop_last();
        assert(pre[b] == bs[b]);
        lemma_concat_block(pre, b);
        let off = choose|off: int| #[trigger] is_block_at(pre, b, off);
        assert forall|j: int| 0 <= j < bs[b].len() implies (#[trigger] bs[b][j]) == c[off
            + j] by {
            assert(c[off + j] == concat_all(pre)[off + j]);
            assert(pre[b][j] == concat_all(pre)[off + j]);
        }
        assert(is_block_at(bs, b, off));
    }
}

/// The distinct-keys hypothesis of positional pairing, discharged for the
/// batcher: when the pending units carry pairwise distinct path keys, so
/// does every batch built from them.
pub proof fn lemma_batch_keys_distinct(
    us: Seq<(Seq<char>, Seq<char>)>,
    limit: nat,
    dlen: nat,
    b: int,
)
    requires
        forall|a2: int, b2: int| 0 <= a2 < b2 < us.len() ==> (#[trigger] us[a2]).0 != (
        #[trigger] us[b2]).0,
        0 <= b < batches_spec(us, limit, dlen).len(),
    ensures
        forall|a2: int, b2: int| 0 <= a2 < b2 < batches_spec(us, limit, dlen)[b].len() ==> (
        #[trigger] batches_spec(us, limit, dlen)[b][a2]).0 != (#[trigger] batches_spec(
            us,
            limit,
            dlen,
        )[b][b2]).0,
{
    let bs = batches_spec(us, limit, dlen);
    lemma_batches_keep_order(us, limit, dlen);
    lemma_concat_block(bs, b);
    let off = choose|off: int| #[trigger] is_block_at(bs, b, off);
    assert forall|a2: int, b2: int| 0 <= a2 < b2 < bs[b].len() implies (
    #[trigger] bs[b][a2]).0 != (#[trigger] bs[b][b2]).0 by {
        assert(bs[b][a2] == us[off + a2]);
        assert(bs[b][b2] == us[off + b2]);
    }
}

/// The serialized weight of a batch in UTF-8 bytes: each source with one
/// delimiter after it, as spec'd for the request body's size limit.
pub open spec fn batch_weight(b: Seq<(Seq<char>, Seq<char>)>, dlen: nat) -> nat
    decreases b.len(),
{
    if b.len() == 0 {
        0
    } else {
        batch_weight(b.drop_last(), dlen) + utf8_len(b.last().1) + dlen
    }
}

/// One greedy step: close the current batch when the unit will not fit,
/// then always take the unit.
pub open spec fn batch_fold(us: Seq<(Seq<char>, Seq<char>)>, limit: nat, dlen: nat) -> (
    Seq<Seq<(Seq<char>, Seq<char>)>>,
    Seq<(Seq<char>, Seq<char>)>,
)
    decreases us.len(),
{
    if us.len() == 0 {
        (Seq::empty(), Seq::empty())
    } else {
        let prior = batch_fold(us.drop_last(), limit, dlen);
        let u = us.last();
        if prior.1.len() > 0 && batch_weight(prior.1, dlen) + utf8_len(u.1) + dlen > limit {
            (prior.0.push(prior.1), seq![u])
        } else {
            (prior.0, prior.1.push(u))
        }
    }
}

/// The batches of a pending-unit sequence: greedy bin-packing in arrival
/// order, the unfinished batch closed at the end.
pub open spec fn batches_spec(us: Seq<(Seq<char>, Seq<char>)>, limit: nat, dlen: nat) -> Seq<
    Seq<(Seq<char>, Seq<char>)>,
> {
    let folded = batch_fold(us, limit, dlen);
    if folded.1.len() > 0 {
        folded.0.push(folded.1)
    } else {
        folded.0
    }
}

pub open spec fn batches_view(s: Seq<Vec<(String, String)>>) -> Seq<Seq<(Seq<char>, Seq<char>)>> {
    s.map_values(|b: Vec<(String, String)>| str_pairs_view(b@))
}

/// `batch`: groups the pending units into delimiter-weighted batches under
/// the limit, keeping arrival order within and across batches. A unit
/// whose own weight exceeds the limit becomes a singleton batch.
pub fn make_batches(units: Vec<(String, String)>, limit: usize, dlen: usize) -> (r: Vec<
    Vec<(String, String)>,
>)
    ensures
        batches_view(r@) == batches_spec(str_pairs_view(units@), limit as nat, dlen as nat),
{
    let ghost uv = str_pairs_view(units@);
    let mut done: Vec<Vec<(String, String)>> = Vec::new();
    let mut cur: Vec<(String, String)> = Vec::new();
    let mut cur_weight: u128 = 0;
    let mut rem = units;
    let ghost total = uv.len() as int;
    while rem.len() > 0
        invariant
            total == uv.len(),
            str_pairs_view(rem@) =~= uv.subrange(total - rem@.len(), total),
            rem@.len() <= total,
            cur_weight as nat == batch_weight(str_pairs_view(cur@), dlen as nat),
            cur_weight <= limit as u128 + 5 * (usize::MAX as u128),
            (batches_view(done@), str_pairs_view(cur@)) == batch_fold(
                uv.subrange(0, total - rem@.len()),
                limit as nat,
                dlen as nat,
            ),
        decreases rem@.len(),
    {
        let ghost rem0 = rem@;
        let ghost seen = uv.subrange(0, total - rem0.len() as int);
        let u = rem.remove(0);
        proof {
            assert(seen.len() == total - rem0.len());
            assert forall|x: int| 0 <= x < rem@.len() implies str_pairs_view(rem@)[x] == uv[total
                - rem@.len() + x] by {
                assert(rem@[x] == rem0[x + 1]);
                assert(str_pairs_view(rem0)[x + 1] == uv.subrange(total - rem0.len(), total)[x
                    + 1]);
            }
            assert(str_pairs_view(rem@) =~= uv.subrange(total - rem@.len(), total));
            assert(str_pairs_view(rem0)[0] == uv.subrange(total - rem0.len(), total)[0]);
            assert(str_pairs_view(rem0)[0] == uv[seen.len() as int]);
            assert((u.0@, u.1@) == uv[seen.len() as int]);
            assert(uv.subrange(0, seen.len() as int + 1).drop_last() =~= seen);
            assert(uv.subrange(0, seen.len() as int + 1).last() == uv[seen.len() as int]);
        }
        let ulen = crate::text::utf8_len_of(u.1.as_str());
        let too_big: bool = cur_weight + ulen + (dlen as u128) > (limit as u128);
        proof {
            assert(too_big == (cur_weight as nat + utf8_len(u.1@) + dlen as nat > limit as nat));
        }
        if cur.len() > 0 && too_big {
            done.push(cur);
            cur = Vec::new();
            cur_weight = 0;
            cur.push(u);
            proof {
                assert(str_pairs_view(cur@) =~= seq![uv[seen.len() as int]]);
                assert(batch_weight(Seq::<(Seq<char>, Seq<char>)>::empty(), dlen as nat) == 0);
                assert(str_pairs_view(cur@).drop_last() =~= Seq::<(Seq<char>, Seq<char>)>::empty());
            }
            cur_weight = ulen + dlen as u128;
            proof {
                assert(batches_view(done@) =~= batch_fold(
                    uv.subrange(0, seen.len() as int + 1),
                    limit as nat,
                    dlen as nat,
                ).0);
            }
        } else {
            let ghost cur0 = str_pairs_view(cur@);
            cur.push(u);
            cur_weight = cur_weight + ulen + dlen as u128;
            proof {
                assert(str_pairs_view(cur@) =~= cur0.push(uv[seen.len() as int]));
                assert(str_pairs_view(cur@).drop_last() =~= cur0);
            }
        }
    }
    proof {
        assert(uv.subrange(0, total) =~= uv);
    }
    if cur.len() > 0 {
        done.push(cur);
        proof {
            assert(batches_view(done@) =~= batches_spec(uv, limit as nat, dlen as nat));
        }
    } else {
        proof {
            assert(batches_view(done@) =~= batches_spec(uv, limit as nat, dlen as nat));
        }
    }
    done
}

/// Every batch of two or more units stays within the limit: only an
/// oversized unit, standing alone, may exceed it.
pub proof fn lemma_batch_size_bound(us: Seq<(Seq<char>, Seq<char>)>, limit: nat, dlen: nat)
    ensures
        forall|b: int| 0 <= b < batches_spec(us, limit, dlen).len() ==> {
            let batch = #[trigger] batches_spec(us, limit, dlen)[b];
            batch.len() >= 2 ==> batch_weight(batch, dlen) <= limit
        },
{
    lemma_batch_fold_bound(us, limit, dlen);
    let folded = batch_fold(us, limit, dlen);
    if folded.1.len() > 0 {
        assert forall|b: int| 0 <= b < batches_spec(us, limit, dlen).len() implies {
            let batch = #[trigger] batches_spec(us, limit, dlen)[b];
            batch.len() >= 2 ==> batch_weight(batch, dlen) <= limit
        } by {
            if b < folded.0.len() {
                assert(batches_spec(us, limit, dlen)[b] == folded.0[b]);
            } else {
                assert(batches_spec(us, limit, dlen)[b] == folded.1);
            }
        }
    }
}

proof fn lemma_batch_fold_bound(us: Seq<(Seq<char>, Seq<char>)>, limit: nat, dlen: nat)
    ensures
        forall|b: int| 0 <= b < batch_fold(us, limit, dlen).0.len() ==> {
            let batch = #[trigger] batch_fold(us, limit, dlen).0[b];
            batch.len() >= 2 ==> batch_weight(batch, dlen) <= limit
        },
        batch_fold(us, limit, dlen).1.len() >= 2 ==> batch_weight(
            batch_fold(us, limit, dlen).1,
            dlen,
        ) <= limit,
    decreases us.len(),
{
    if us.len() > 0 {
        lemma_batch_fold_bound(us.drop_last(), limit, dlen);
        let prior = batch_fold(us.drop_last(), limit, dlen);
        let u = us.last();
        if prior.1.len() > 0 && batch_weight(prior.1, dlen) + utf8_len(u.1) + dlen > limit {
            assert forall|b: int| 0 <= b < batch_fold(us, limit, dlen).0.len() implies {
                let batch = #[trigger] batch_fold(us, limit, dlen).0[b];
                batch.len() >= 2 ==> batch_weight(batch, dlen) <= limit
            } by {
                if b < prior.0.len() {
                    assert(batch_fold(us, limit, dlen).0[b] == prior.0[b]);
                } else {
                    assert(batch_fold(us, limit, dlen).0[b] == prior.1);
                }
            }
            assert(batch_weight(seq![u], dlen) == utf8_len(u.1) + dlen) by {
                assert(seq![u].drop_last() =~= Seq::<(Seq<char>, Seq<char>)>::empty());
                assert(batch_weight(Seq::<(Seq<char>, Seq<char>)>::empty(), dlen) == 0);
                assert(seq![u].last() == u);
            }
        } else {
            let newcur = prior.1.push(u);
            assert(newcur.drop_last() =~= prior.1);
            if newcur.len() >= 2 {
                assert(batch_weight(newcur, dlen) == batch_weight(prior.1, dlen) + utf8_len(u.1)
                    + dlen);
            }
        }
    }
}

/// The concatenation of a batch sequence, in order.
pub open spec fn concat_all(bs: Seq<Seq<(Seq<char>, Seq<char>)>>) -> Seq<(Seq<char>, Seq<char>)>
    decreases bs.len(),
{
    if bs.len() == 0 {
        Seq::empty()
    } else {
        concat_all(bs.drop_last()) + bs.last()
    }
}

/// Order preservation across batching: reading the batches back in order
/// yields exactly the pending units fed in.
pub proof fn lemma_batches_keep_order(us: Seq<(Seq<char>, Seq<char>)>, limit: nat, dlen: nat)
    ensures
        concat_all(batches_spec(us, limit, dlen)) == us,
{
    lemma_batch_fold_order(us, limit, dlen);
    let folded = batch_fold(us, limit, dlen);
    if folded.1.len() > 0 {
        assert(batches_spec(us, limit, dlen).drop_last() =~= folded.0);
        assert(batches_spec(us, limit, dlen).last() == folded.1);
    } else {
        assert(concat_all(folded.0) + folded.1 =~= concat_all(folded.0));
    }
}

proof fn lemma_batch_fold_order(us: Seq<(Seq<char>, Seq<char>)>, limit: nat, dlen: nat)
    ensures
        concat_all(batch_fold(us, limit, dlen).0) + batch_fold(us, limit, dlen).1 == us,
    decreases us.len(),
{
    if us.len() == 0 {
        assert(concat_all(batch_fold(us, limit, dlen).0) + batch_fold(us, limit, dlen).1 =~= us);
    } else {
        lemma_batch_fold_order(us.drop_last(), limit, dlen);
        let prior = batch_fold(us.drop_last(), limit, dlen);
        let u = us.last();
        if prior.1.len() > 0 && batch_weight(prior.1, dlen) + utf8_len(u.1) + dlen > limit {
            assert(prior.0.push(prior.1).drop_last() =~= prior.0);
            assert(prior.0.push(prior.1).last() == prior.1);
            assert(concat_all(prior.0.push(prior.1)) == concat_all(prior.0) + prior.1);
            assert(concat_all(prior.0) + prior.1 + seq![u] =~= us);
        } else {
            assert(concat_all(prior.0) + prior.1.push(u) =~= (concat_all(prior.0)
                + prior.1).push(u));
            assert((concat_all(prior.0) + prior.1).push(u) =~= us);
        }
    }
}

/// A warm cache leaves nothing pending: when every source string of the
/// units is already cached, no batch is formed and no provider call is
/// owed, and every unit resolves to its cached translation.
pub proof fn lemma_warm_cache_no_requests(
    us: Seq<(Seq<char>, Seq<char>)>,
    c: Map<Seq<char>, Seq<char>>,
    limit: nat,
    dlen: nat,
)
    requires
        forall|i: int| 0 <= i < us.len() ==> c.dom().contains((#[trigger] us[i]).1),
    ensures
        pending_spec(us, c) == Seq::<(Seq<char>, Seq<char>)>::empty(),
        batches_spec(pending_spec(us, c), limit, dlen) == Seq::<
            Seq<(Seq<char>, Seq<char>)>,
        >::empty(),
        resolved_spec(us, c).len() == us.len(),
        forall|i: int| 0 <= i < us.len() ==> resolved_spec(us, c)[i] == ((#[trigger] us[i]).0,
            c[us[i].1]),
    decreases us.len(),
{
    if us.len() == 0 {
        assert(pending_spec(us, c) =~= Seq::<(Seq<char>, Seq<char>)>::empty());
    } else {
        assert forall|i: int| 0 <= i < us.drop_last().len() implies c.dom().contains(
            (#[trigger] us.drop_last()[i]).1,
        ) by {
            assert(us.drop_last()[i] == us[i]);
        }
        lemma_warm_cache_no_requests(us.drop_last(), c, limit, dlen);
        assert(c.dom().contains(us.last().1));
        assert(pending_spec(us, c) =~= Seq::<(Seq<char>, Seq<char>)>::empty());
        let pre = resolved_spec(us.drop_last(), c);
        assert(resolved_spec(us, c) == pre + seq![(us.last().0, c[us.last().1])]);
        assert forall|i: int| 0 <= i < us.len() implies resolved_spec(us, c)[i] == (
            (#[trigger] us[i]).0,
            c[us[i].1],
        ) by {
            if i < us.len() - 1 {
                assert(resolved_spec(us, c)[i] == pre[i]);
                assert(us.drop_last()[i] == us[i]);
            } else {
                assert(resolved_spec(us, c)[i] == (us.last().0, c[us.last().1]));
            }
        }
    }
}

} // verus!
