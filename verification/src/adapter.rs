//! The translation-client codec: the request payload is the batch's source
//! strings, each followed by the delimiter, in one text; the response's
//! translated text is split back on the delimiter and paired positionally
//! with the batch's units.
//!
//! The scheme assumes the delimiter never occurs inside or against a
//! segment; where it does, pairing is zip-truncated to the shorter side, a
//! documented lossy behavior of the protocol.

use vstd::prelude::*;
use crate::cache::StrMap;
use crate::batch::TranslateError;
use crate::flatten::str_pairs_view;
use crate::text::{chars_vec, append_chars, string_from_chars, sub_string, sub_chars};

verus! {

/// The delimiter-joined payload of a segment sequence: each segment with
/// one delimiter after it.
pub open spec fn payload_of(ts: Seq<Seq<char>>, d: Seq<char>) -> Seq<char>
    decreases ts.len(),
{
    if ts.len() == 0 {
        Seq::empty()
    } else {
        ts[0] + d + payload_of(ts.subrange(1, ts.len() as int), d)
    }
}

/// The source strings of a batch, in order.
pub open spec fn sources_of(bs: Seq<(Seq<char>, Seq<char>)>) -> Seq<Seq<char>> {
    bs.map_values(|u: (Seq<char>, Seq<char>)| u.1)
}

/// Whether the delimiter occurs in `t` at position `i`.
pub open spec fn occurs_at(t: Seq<char>, d: Seq<char>, i: int) -> bool {
    0 <= i && i + d.len() <= t.len() && t.subrange(i, i + d.len()) == d
}

/// The first occurrence of `d` in `t`, or -1.
pub open spec fn find_first(t: Seq<char>, d: Seq<char>) -> int
    decreases t.len(),
{
    if t.len() < d.len() || d.len() == 0 {
        -1
    } else if t.subrange(0, d.len() as int) == d {
        0
    } else {
        let r = find_first(t.subrange(1, t.len() as int), d);
        if r < 0 {
            -1
        } else {
            1 + r
        }
    }
}

pub proof fn lemma_find_first(t: Seq<char>, d: Seq<char>)
    requires
        d.len() >= 1,
    ensures
        find_first(t, d) == -1 ==> forall|i: int| !occurs_at(t, d, i),
        find_first(t, d) >= 0 ==> occurs_at(t, d, find_first(t, d)) && forall|i: int|
            0 <= i < find_first(t, d) ==> !occurs_at(t, d, i),
        find_first(t, d) >= 0 || find_first(t, d) == -1,
    decreases t.len(),
{
    if t.len() < d.len() {
        assert forall|i: int| !occurs_at(t, d, i) by {}
    } else if t.subrange(0, d.len() as int) == d {
    } else {
        let t2 = t.subrange(1, t.len() as int);
        lemma_find_first(t2, d);
        assert forall|i: int| 1 <= i implies (occurs_at(t, d, i) == occurs_at(t2, d, i - 1)) by {
            if i + d.len() <= t.len() {
                assert(t.subrange(i, i + d.len() as int) =~= t2.subrange(
                    i - 1,
                    i - 1 + d.len() as int,
                ));
            }
        }
        assert(!occurs_at(t, d, 0));
        let r = find_first(t2, d);
        if r < 0 {
            assert forall|i: int| !occurs_at(t, d, i) by {
                if i >= 1 {
                    assert(!occurs_at(t2, d, i - 1));
                }
            }
        } else {
            assert(occurs_at(t2, d, r));
            assert(occurs_at(t, d, r + 1));
            assert forall|i: int| 0 <= i < r + 1 implies !occurs_at(t, d, i) by {
                if i >= 1 {
                    assert(!occurs_at(t2, d, i - 1));
                }
            }
        }
    }
}

/// Splitting on the delimiter, leftmost-first, the way `str::split` reads
/// a text. An absent or empty delimiter leaves the text whole.
pub open spec fn split_spec(t: Seq<char>, d: Seq<char>) -> Seq<Seq<char>>
    decreases t.len(),
    via split_spec_dec
{
    if d.len() == 0 || find_first(t, d) < 0 {
        seq![t]
    } else {
        let i = find_first(t, d);
        seq![t.subrange(0, i)] + split_spec(t.subrange(i + d.len(), t.len() as int), d)
    }
}

#[via_fn]
proof fn split_spec_dec(t: Seq<char>, d: Seq<char>) {
    if d.len() >= 1 {
        lemma_find_first(t, d);
    }
}

fn matches_at(t: &Vec<char>, d: &Vec<char>, i: usize) -> (r: bool)
    requires
        i <= t@.len(),
    ensures
        r == occurs_at(t@, d@, i as int),
{
    if t.len() - i < d.len() {
        return false;
    }
    let mut j: usize = 0;
    while j < d.len()
        invariant
            j <= d@.len(),
            i + d@.len() <= t@.len(),
            t@.len() <= usize::MAX,
            forall|x: int| 0 <= x < j ==> t@[i + x] == d@[x],
        decreases d@.len() - j,
    {
        if t[i + j] != d[j] {
            proof {
                assert(t@.subrange(i as int, i + d@.len()) != d@) by {
                    assert(t@.subrange(i as int, i + d@.len())[j as int] == t@[i + j]);
                }
            }
            return false;
        }
        j = j + 1;
    }
    proof {
        assert(t@.subrange(i as int, i + d@.len()) =~= d@);
    }
    true
}

fn find_exec(t: &Vec<char>, d: &Vec<char>) -> (r: Option<usize>)
    requires
        d@.len() >= 1,
    ensures
        match r {
            Some(i) => i as int == find_first(t@, d@),
            None => find_first(t@, d@) == -1,
        },
{
    let mut i: usize = 0;
    while i < t.len()
        invariant
            d@.len() >= 1,
            i <= t@.len(),
            forall|x: int| 0 <= x < i ==> !occurs_at(t@, d@, x),
        decreases t@.len() - i,
    {
        if matches_at(t, d, i) {
            proof {
                lemma_find_first(t@, d@);
                let f = find_first(t@, d@);
                if f < 0 {
                    assert(!occurs_at(t@, d@, i as int));
                }
                if 0 <= f < i as int {
                    assert(!occurs_at(t@, d@, f));
                }
                if f > i as int {
                    assert(!occurs_at(t@, d@, i as int));
                }
            }
            return Some(i);
        }
        i = i + 1;
    }
    proof {
        lemma_find_first(t@, d@);
        let f = find_first(t@, d@);
        if f >= 0 {
            assert(occurs_at(t@, d@, f));
            assert(f + d@.len() <= t@.len());
            assert(f < t@.len());
            assert(!occurs_at(t@, d@, f));
        }
    }
    None
}

fn split_rec(t: Vec<char>, d: &Vec<char>, out: &mut Vec<String>)
    requires
        d@.len() >= 1,
    ensures
        strs_view(final(out)@) == strs_view(old(out)@) + split_spec(t@, d@),
    decreases t@.len(),
{
    proof {
        lemma_find_first(t@, d@);
    }
    match find_exec(&t, d) {
        Some(i) => {
            proof {
                assert(occurs_at(t@, d@, i as int));
                assert(i + d@.len() <= t@.len());
            }
            out.push(sub_string(&t, 0, i));
            let tl = t.len();
            let dl = d.len();
            proof {
                assert(i + dl <= tl);
            }
            let rest = sub_chars(&t, i + dl, tl);
            let ghost mid = out@;
            split_rec(rest, d, out);
            proof {
                assert(strs_view(mid) =~= strs_view(old(out)@).push(t@.subrange(0, i as int)));
                assert(strs_view(out@) =~= strs_view(old(out)@) + split_spec(t@, d@));
            }
        }
        None => {
            out.push(string_from_chars(&t));
            proof {
                assert(strs_view(out@) =~= strs_view(old(out)@) + split_spec(t@, d@));
            }
        }
    }
}

/// The view of a string sequence.
pub open spec fn strs_view(s: Seq<String>) -> Seq<Seq<char>> {
    s.map_values(|x: String| x@)
}

/// Splits a text on the delimiter, leftmost-first: the decode half of the
/// protocol.
pub fn split_on(text: &String, delim: &String) -> (r: Vec<String>)
    requires
        delim@.len() >= 1,
    ensures
        strs_view(r@) == split_spec(text@, delim@),
{
    let t = chars_vec(text.as_str());
    let d = chars_vec(delim.as_str());
    let mut out: Vec<String> = Vec::new();
    split_rec(t, &d, &mut out);
    proof {
        assert(strs_view(out@) =~= split_spec(text@, delim@));
    }
    out
}

/// `encode`: the request payload of a batch, each source string followed
/// by the delimiter.
pub fn encode_batch(batch: &Vec<(String, String)>, delim: &String) -> (r: String)
    ensures
        r@ == payload_of(sources_of(str_pairs_view(batch@)), delim@),
{
    let ghost ss = sources_of(str_pairs_view(batch@));
    let mut out: Vec<char> = Vec::new();
    proof {
        assert(ss.subrange(0, ss.len() as int) =~= ss);
        assert(out@ + payload_of(ss, delim@) =~= payload_of(ss, delim@));
    }
    let mut i: usize = 0;
    while i < batch.len()
        invariant
            i <= batch@.len(),
            ss == sources_of(str_pairs_view(batch@)),
            out@ + payload_of(ss.subrange(i as int, ss.len() as int), delim@) == payload_of(
                ss,
                delim@,
            ),
        decreases batch@.len() - i,
    {
        let ghost rest = ss.subrange(i as int, ss.len() as int);
        proof {
            assert(ss[i as int] == batch@[i as int].1@);
            assert(rest[0] == ss[i as int]);
            assert(rest.subrange(1, rest.len() as int) =~= ss.subrange(i + 1, ss.len() as int));
        }
        append_chars(&mut out, batch[i].1.as_str());
        append_chars(&mut out, delim.as_str());
        proof {
            assert(out@ + payload_of(ss.subrange(i + 1, ss.len() as int), delim@) =~= payload_of(
                ss,
                delim@,
            ));
        }
        i = i + 1;
    }
    proof {
        assert(ss.subrange(ss.len() as int, ss.len() as int) =~= Seq::<Seq<char>>::empty());
        assert(out@ =~= payload_of(ss, delim@));
    }
    string_from_chars(&out)
}

/// The provider's status decision: a non-success status code aborts the
/// run with that code surfaced.
pub fn check_status(code: u16) -> (r: Result<(), TranslateError>)
    ensures
        (200 <= code < 300) ==> r == Result::<(), TranslateError>::Ok(()),
        !(200 <= code < 300) ==> r == Result::<(), TranslateError>::Err(
            TranslateError::Provider(code),
        ),
{
    if 200 <= code && code < 300 {
        Ok(())
    } else {
        Err(TranslateError::Provider(code))
    }
}

/// `decode`: an empty response body is a decode failure; otherwise the
/// translated text splits on the delimiter into the decoded segments.
pub fn decode_translations(response_text: &String, delim: &String) -> (r: Result<
    Vec<String>,
    TranslateError,
>)
    requires
        delim@.len() >= 1,
    ensures
        response_text@.len() == 0 ==> r == Result::<Vec<String>, TranslateError>::Err(
            TranslateError::Decode,
        ),
        response_text@.len() > 0 ==> match r {
            Ok(segs) => strs_view(segs@) == split_spec(response_text@, delim@),
            Err(_) => false,
        },
{
    if response_text.as_str().unicode_len() == 0 {
        Err(TranslateError::Decode)
    } else {
        Ok(split_on(response_text, delim))
    }
}

/// The translations map after recording `n` (path key, segment) pairs.
pub open spec fn record_tr(
    tr0: Map<Seq<char>, Seq<char>>,
    bs: Seq<(Seq<char>, Seq<char>)>,
    ts: Seq<Seq<char>>,
    n: int,
) -> Map<Seq<char>, Seq<char>>
    decreases n,
{
    if n <= 0 {
        tr0
    } else {
        record_tr(tr0, bs, ts, n - 1).insert(bs[n - 1].0, ts[n - 1])
    }
}

/// The cache after recording `n` (source string, segment) pairs.
pub open spec fn record_cache(
    c0: Map<Seq<char>, Seq<char>>,
    bs: Seq<(Seq<char>, Seq<char>)>,
    ts: Seq<Seq<char>>,
    n: int,
) -> Map<Seq<char>, Seq<char>>
    decreases n,
{
    if n <= 0 {
        c0
    } else {
        record_cache(c0, bs, ts, n - 1).insert(bs[n - 1].1, ts[n - 1])
    }
}

/// Pairs the decoded segments with the batch's units, position for
/// position, zip-truncated to the shorter side; each pair is written into
/// the run's translations by path key and into the cache by source string.
pub fn record_batch(
    batch: &Vec<(String, String)>,
    segs: &Vec<String>,
    translations: &mut StrMap,
    cache: &mut StrMap,
)
    requires
        old(translations).wf(),
        old(cache).wf(),
    ensures
        final(translations).wf(),
        final(cache).wf(),
        final(translations)@ == record_tr(
            old(translations)@,
            str_pairs_view(batch@),
            strs_view(segs@),
            if batch@.len() <= segs@.len() {
                batch@.len() as int
            } else {
                segs@.len() as int
            },
        ),
        final(cache)@ == record_cache(
            old(cache)@,
            str_pairs_view(batch@),
            strs_view(segs@),
            if batch@.len() <= segs@.len() {
                batch@.len() as int
            } else {
                segs@.len() as int
            },
        ),
{
    let n = if batch.len() <= segs.len() {
        batch.len()
    } else {
        segs.len()
    };
    let ghost bs = str_pairs_view(batch@);
    let ghost ts = strs_view(segs@);
    let mut i: usize = 0;
    while i < n
        invariant
            i <= n,
            n == if batch@.len() <= segs@.len() {
                batch@.len()
            } else {
                segs@.len()
            },
            bs == str_pairs_view(batch@),
            ts == strs_view(segs@),
            translations.wf(),
            cache.wf(),
            translations@ == record_tr(old(translations)@, bs, ts, i as int),
            cache@ == record_cache(old(cache)@, bs, ts, i as int),
        decreases n - i,
    {
        translations.insert(batch[i].0.clone(), segs[i].clone());
        cache.insert(batch[i].1.clone(), segs[i].clone());
        i = i + 1;
    }
}

/// Position-for-position pairing: after recording, the translation stored
/// under the `i`-th unit's path key is the `i`-th decoded segment,
/// whenever the batch's path keys are distinct — which path-key
/// injectivity grants for the units of any well-formed document
/// (`crate::roundtrip::lemma_flat_keys_distinct`); with duplicate keys a
/// mapping by key cannot hold two segments, and the later position wins.
pub proof fn lemma_record_tr_pointwise(
    tr0: Map<Seq<char>, Seq<char>>,
    bs: Seq<(Seq<char>, Seq<char>)>,
    ts: Seq<Seq<char>>,
    n: int,
    i: int,
)
    requires
        0 <= i < n,
        n <= bs.len(),
        n <= ts.len(),
        forall|a: int, b: int| 0 <= a < b < n ==> (#[trigger] bs[a]).0 != (#[trigger] bs[b]).0,
    ensures
        record_tr(tr0, bs, ts, n).dom().contains(bs[i].0),
        record_tr(tr0, bs, ts, n)[bs[i].0] == ts[i],
    decreases n,
{
    if i < n - 1 {
        lemma_record_tr_pointwise(tr0, bs, ts, n - 1, i);
        assert(bs[n - 1].0 != bs[i].0);
    }
}

/// Whether the delimiter never occurs in or against a segment: no
/// occurrence inside the segment followed by its own delimiter. When this
/// holds of every decoded segment, the split is exact.
pub open spec fn clean_for(t: Seq<char>, d: Seq<char>) -> bool {
    forall|i: int| 0 <= i < t.len() ==> !occurs_at(t + d, d, i)
}

/// Order preservation through the protocol: joining segments with the
/// delimiter and splitting again yields the segments back, position for
/// position, with one empty tail segment from the trailing delimiter.
pub proof fn lemma_split_of_payload(ts: Seq<Seq<char>>, d: Seq<char>)
    requires
        d.len() >= 1,
        forall|i: int| 0 <= i < ts.len() ==> clean_for(#[trigger] ts[i], d),
    ensures
        split_spec(payload_of(ts, d), d) == ts + seq![Seq::<char>::empty()],
    decreases ts.len(),
{
    let t = payload_of(ts, d);
    if ts.len() == 0 {
        lemma_find_first(t, d);
        assert(t =~= Seq::<char>::empty());
        assert(find_first(t, d) == -1) by {
            if find_first(t, d) >= 0 {
                assert(occurs_at(t, d, find_first(t, d)));
            }
        }
        assert(split_spec(t, d) =~= ts + seq![Seq::<char>::empty()]);
    } else {
        let s = ts[0];
        let rest = payload_of(ts.subrange(1, ts.len() as int), d);
        assert(t == s + d + rest);
        lemma_find_first(t, d);
        assert(occurs_at(t, d, s.len() as int)) by {
            assert(t.subrange(s.len() as int, s.len() as int + d.len() as int) =~= d);
        }
        assert forall|i: int| 0 <= i < s.len() implies !occurs_at(t, d, i) by {
            assert(clean_for(s, d));
            assert(!occurs_at(s + d, d, i));
            if i + d.len() <= t.len() {
                assert(i + d.len() <= (s + d).len());
                assert(t.subrange(i, i + d.len() as int) =~= (s + d).subrange(
                    i,
                    i + d.len() as int,
                ));
            }
        }
        let f = find_first(t, d);
        assert(f >= 0) by {
            if f == -1 {
                assert(!occurs_at(t, d, s.len() as int));
            }
        }
        assert(f == s.len()) by {
            if f < s.len() {
                assert(!occurs_at(t, d, f));
            }
            if f > s.len() {
                assert(!occurs_at(t, d, s.len() as int));
            }
        }
        assert(t.subrange(0, f) =~= s);
        assert(t.subrange(f + d.len(), t.len() as int) =~= rest);
        assert forall|i: int| 0 <= i < ts.subrange(1, ts.len() as int).len() implies clean_for(
            #[trigger] ts.subrange(1, ts.len() as int)[i],
            d,
        ) by {
            assert(ts.subrange(1, ts.len() as int)[i] == ts[i + 1]);
        }
        lemma_split_of_payload(ts.subrange(1, ts.len() as int), d);
        assert(split_spec(t, d) == seq![s] + (ts.subrange(1, ts.len() as int) + seq![
            Seq::<char>::empty()
        ]));
        assert(seq![s] + (ts.subrange(1, ts.len() as int) + seq![Seq::<char>::empty()]) =~~= ts
            + seq![Seq::<char>::empty()]);
    }
}

} // verus!
