//! The latest-wins reduction: stream stored records in arrival order,
//! group them by key, and keep for each key only the record with the most
//! recent embedded timestamp; the first seen wins an exact tie. A record
//! whose timestamp does not parse fails the whole reduction — a partial
//! mapping would be silently wrong.

use vstd::prelude::*;
use crate::dates::{
    Timestamp,
    parse_iso_ts_spec,
    parse_iso_timestamp,
    spec_ts_after,
    timestamp_is_after,
    lemma_ts_after_asymmetric,
};

verus! {

/// One stored record reduced to what the reduction reads: its grouping
/// key and its embedded timestamp text. The full record stays with the
/// caller, found again through the record's position.
pub struct DedupRecord {
    pub key: String,
    pub timestamp: String,
}

pub ghost struct DedupRecordV {
    pub key: Seq<char>,
    pub timestamp: Seq<char>,
}

impl View for DedupRecord {
    type V = DedupRecordV;

    open spec fn view(&self) -> DedupRecordV {
        DedupRecordV { key: self.key@, timestamp: self.timestamp@ }
    }
}

pub open spec fn rec_ts_ok(r: DedupRecordV) -> bool {
    parse_iso_ts_spec(r.timestamp) is Some
}

pub open spec fn rec_ts(r: DedupRecordV) -> Timestamp {
    parse_iso_ts_spec(r.timestamp)->0
}

/// The latest-wins fold, arrival order left to right: each key maps to
/// the position of its current best record, replaced only by a strictly
/// later timestamp.
pub open spec fn dedupe_map(recs: Seq<DedupRecordV>) -> Map<Seq<char>, int>
    decreases recs.len(),
{
    if recs.len() == 0 {
        Map::empty()
    } else {
        let m = dedupe_map(recs.drop_last());
        let i = recs.len() - 1;
        let k = recs.last().key;
        if !m.contains_key(k) {
            m.insert(k, i as int)
        } else if spec_ts_after(rec_ts(recs.last()), rec_ts(recs[m[k]])) {
            m.insert(k, i as int)
        } else {
            m
        }
    }
}

/// The fold maps each key to a position holding that key, and knows every
/// key that occurs.
pub proof fn lemma_dedupe_map_wf(recs: Seq<DedupRecordV>)
    ensures
        forall|k: Seq<char>| #[trigger] dedupe_map(recs).contains_key(k) ==> 0 <= dedupe_map(
            recs,
        )[k] < recs.len() && recs[dedupe_map(recs)[k]].key == k,
        forall|j: int|
            0 <= j < recs.len() ==> dedupe_map(recs).contains_key(#[trigger] recs[j].key),
    decreases recs.len(),
{
    if recs.len() > 0 {
        lemma_dedupe_map_wf(recs.drop_last());
        assert(forall|j: int| 0 <= j < recs.len() - 1 ==> recs.drop_last()[j] == recs[j]);
        let m = dedupe_map(recs);
        let mp = dedupe_map(recs.drop_last());
        assert forall|k: Seq<char>| #[trigger] m.contains_key(k) implies 0 <= m[k] < recs.len()
            && recs[m[k]].key == k by {
            if k != recs.last().key || !m.contains_key(k) {
                assert(mp.contains_key(k) ==> 0 <= mp[k] < recs.len() - 1 && recs.drop_last()[
                    mp[k]
                ].key == k);
            } else {
                if mp.contains_key(k) {
                    assert(0 <= mp[k] < recs.len() - 1 && recs.drop_last()[mp[k]].key == k);
                }
            }
        }
        assert forall|j: int|
            0 <= j < recs.len() implies m.contains_key(#[trigger] recs[j].key) by {
            if j < recs.len() - 1 {
                assert(mp.contains_key(recs.drop_last()[j].key));
            }
        }
    }
}

/// `w` lists exactly the fold's winners: each position holds its key's
/// winner, no key twice, and every key that occurs is represented.
pub open spec fn winners_represent(recs: Seq<DedupRecordV>, w: Seq<usize>) -> bool {
    let m = dedupe_map(recs);
    &&& forall|p: int| 0 <= p < w.len() ==> w[p] < recs.len()
    &&& forall|p: int|
        0 <= p < w.len() ==> m.contains_key(#[trigger] recs[w[p] as int].key) && m[recs[w[p] as int].key]
            == w[p]
    &&& forall|p: int, q: int|
        0 <= p < q < w.len() ==> recs[w[p] as int].key != recs[w[q] as int].key
    &&& forall|k: Seq<char>|
        #[trigger] m.contains_key(k) ==> exists|p: int|
            0 <= p < w.len() && recs[w[p] as int].key == k
}

/// How a reduction failed: the first record whose timestamp text does not
/// parse.
#[derive(Debug)]
pub struct DedupeError {
    pub record_index: usize,
}

/// Reduces the records to one winner per key.
///
/// Returns the positions of the winning records, one per distinct key —
/// callers must not rely on their order — or the first record whose
/// timestamp does not parse. The result represents exactly the
/// latest-wins fold.
#[verifier::rlimit(50)]
pub fn dedupe_latest(records: &Vec<DedupRecord>) -> (r: Result<Vec<usize>, DedupeError>)
    ensures
        r is Ok <==> (forall|i: int|
            0 <= i < records@.len() ==> rec_ts_ok((#[trigger] records@[i])@)),
        ({
            let recs = records@.map_values(|x: DedupRecord| x@);
            match r {
                Ok(winners) => winners_represent(recs, winners@),
                Err(e) => {
                    &&& e.record_index < recs.len()
                    &&& !rec_ts_ok(recs[e.record_index as int])
                    &&& forall|j: int|
                        0 <= j < e.record_index ==> rec_ts_ok(#[trigger] recs[j])
                },
            }
        }),
{
    let ghost recs = records@.map_values(|x: DedupRecord| x@);
    let n = records.len();
    // Every timestamp must parse before any winner is chosen: failing
    // fast keeps a partial mapping from ever existing.
    let mut stamps: Vec<Timestamp> = Vec::new();
    let mut i: usize = 0;
    while i < n
        invariant
            i <= n,
            n == records@.len(),
            recs == records@.map_values(|x: DedupRecord| x@),
            stamps@.len() == i,
            forall|j: int| 0 <= j < i ==> rec_ts_ok(#[trigger] recs[j]),
            forall|j: int| 0 <= j < i ==> stamps@[j] == rec_ts(#[trigger] recs[j]),
        decreases n - i,
    {
        match parse_iso_timestamp(records[i].timestamp.as_str()) {
            Some(ts) => {
                stamps.push(ts);
            },
            None => {
                proof {
                    assert(recs[i as int] == records@[i as int]@);
                    assert(!rec_ts_ok(records@[i as int]@));
                }
                return Err(DedupeError { record_index: i });
            },
        }
        i = i + 1;
    }
    let mut winners: Vec<usize> = Vec::new();
    let mut i: usize = 0;
    while i < n
        invariant
            i <= n,
            n == records@.len(),
            recs == records@.map_values(|x: DedupRecord| x@),
            stamps@.len() == n,
            forall|j: int| 0 <= j < n ==> rec_ts_ok(#[trigger] recs[j]),
            forall|j: int| 0 <= j < n ==> stamps@[j] == rec_ts(#[trigger] recs[j]),
            forall|p: int| 0 <= p < winners@.len() ==> winners@[p] < i,
            forall|p: int|
                0 <= p < winners@.len() ==> dedupe_map(recs.take(i as int)).contains_key(
                    #[trigger] recs[winners@[p] as int].key,
                ) && dedupe_map(recs.take(i as int))[recs[winners@[p] as int].key] == winners@[p],
            forall|p: int, q: int|
                0 <= p < q < winners@.len() ==> recs[winners@[p] as int].key
                    != recs[winners@[q] as int].key,
            forall|k: Seq<char>|
                #[trigger] dedupe_map(recs.take(i as int)).contains_key(k) ==> exists|p: int|
                    0 <= p < winners@.len() && recs[winners@[p] as int].key == k,
        decreases n - i,
    {
        proof {
            assert(recs.take(i + 1).drop_last() =~= recs.take(i as int));
            assert(recs.take(i + 1).last() == recs[i as int]);
            lemma_dedupe_map_wf(recs.take(i as int));
            assert(forall|j: int| 0 <= j < i ==> recs.take(i as int)[j] == recs[j]);
        }
        let ghost m_prev = dedupe_map(recs.take(i as int));
        let key = &records[i].key;
        let ghost w0 = winners@;
        let mut found: Option<usize> = None;
        let mut p: usize = 0;
        while p < winners.len()
            invariant_except_break
                found is None,
            invariant
                p <= winners@.len(),
                winners@ == w0,
                n == records@.len(),
                recs == records@.map_values(|x: DedupRecord| x@),
                i < n,
                key == &records@[i as int].key,
                forall|q: int| 0 <= q < winners@.len() ==> winners@[q] < i,
                forall|q: int| 0 <= q < p ==> recs[winners@[q] as int].key != recs[i as int].key,
            ensures
                winners@ == w0,
                found is None ==> forall|q: int|
                    0 <= q < winners@.len() ==> recs[winners@[q] as int].key != recs[
                        i as int
                    ].key,
                found matches Some(fp) ==> fp < winners@.len() && recs[winners@[fp as int]
                    as int].key == recs[i as int].key,
            decreases winners@.len() - p,
        {
            if records[winners[p]].key == *key {
                found = Some(p);
                break;
            }
            p = p + 1;
        }
        match found {
            None => {
                proof {
                    if m_prev.contains_key(recs[i as int].key) {
                        let q0 = choose|q: int|
                            0 <= q < w0.len() && recs[w0[q] as int].key == recs[i as int].key;
                        assert(false);
                    }
                }
                winners.push(i);
                proof {
                    let m_new = dedupe_map(recs.take(i + 1));
                    assert(m_new == m_prev.insert(recs[i as int].key, i as int));
                    assert(winners@ == w0.push(i as usize));
                    assert(recs[winners@[w0.len() as int] as int].key == recs[i as int].key);
                    assert forall|k: Seq<char>| #[trigger] m_new.contains_key(k) implies exists|
                        q: int,
                    |
                        0 <= q < winners@.len() && recs[winners@[q] as int].key == k by {
                        if k == recs[i as int].key {
                            assert(recs[winners@[w0.len() as int] as int].key == k);
                        } else {
                            let q0 = choose|q: int|
                                0 <= q < w0.len() && recs[w0[q] as int].key == k;
                            assert(recs[winners@[q0] as int].key == k);
                        }
                    }
                }
            },
            Some(fp) => {
                let cur = winners[fp];
                let later = timestamp_is_after(stamps[i], stamps[cur]);
                proof {
                    assert(m_prev.contains_key(recs[i as int].key));
                    assert(m_prev[recs[i as int].key] == w0[fp as int]);
                }
                if later {
                    winners.set(fp, i);
                    proof {
                        let m_new = dedupe_map(recs.take(i + 1));
                        assert(m_new == m_prev.insert(recs[i as int].key, i as int));
                        assert(winners@ == w0.update(fp as int, i as usize));
                        assert forall|p2: int| 0 <= p2 < winners@.len() implies m_new.contains_key(
                            #[trigger] recs[winners@[p2] as int].key,
                        ) && m_new[recs[winners@[p2] as int].key] == winners@[p2] by {
                            if p2 == fp as int {
                                assert(recs[winners@[p2] as int].key == recs[i as int].key);
                            } else {
                                assert(winners@[p2] == w0[p2]);
                                assert(recs[w0[p2] as int].key != recs[w0[fp as int] as int].key);
                            }
                        }
                        assert forall|p2: int, q2: int|
                            0 <= p2 < q2 < winners@.len() implies recs[winners@[p2] as int].key
                            != recs[winners@[q2] as int].key by {
                            if p2 != fp as int && q2 != fp as int {
                                assert(winners@[p2] == w0[p2] && winners@[q2] == w0[q2]);
                            } else if p2 == fp as int {
                                assert(winners@[q2] == w0[q2]);
                                assert(recs[w0[q2] as int].key != recs[w0[fp as int] as int].key);
                            } else {
                                assert(winners@[p2] == w0[p2]);
                                assert(recs[w0[p2] as int].key != recs[w0[fp as int] as int].key);
                            }
                        }
                        assert forall|k: Seq<char>| #[trigger] m_new.contains_key(k) implies exists|
                            q: int,
                        |
                            0 <= q < winners@.len() && recs[winners@[q] as int].key == k by {
                            if k == recs[i as int].key {
                                assert(recs[winners@[fp as int] as int].key == k);
                            } else {
                                let q0 = choose|q: int|
                                    0 <= q < w0.len() && recs[w0[q] as int].key == k;
                                assert(q0 != fp as int);
                                assert(recs[winners@[q0] as int].key == k);
                            }
                        }
                    }
                } else {
                    proof {
                        assert(dedupe_map(recs.take(i + 1)) == m_prev);
                    }
                }
            },
        }
        i = i + 1;
    }
    proof {
        assert(recs.take(n as int) =~= recs);
        assert(winners_represent(recs, winners@));
        assert forall|j: int| 0 <= j < n implies rec_ts_ok((#[trigger] records@[j])@) by {
            assert(recs[j] == records@[j]@);
        }
    }
    Ok(winners)
}

/// When no two records of one key share a timestamp, the fold's winner
/// for each key is the record of that key whose timestamp is strictly
/// after every other's — a description with no mention of arrival order.
pub proof fn lemma_dedupe_latest_is_max(recs: Seq<DedupRecordV>)
    requires
        forall|i: int| 0 <= i < recs.len() ==> rec_ts_ok(#[trigger] recs[i]),
        forall|i: int, j: int|
            0 <= i < j < recs.len() && recs[i].key == recs[j].key ==> rec_ts(recs[i]) != rec_ts(
                recs[j],
            ),
    ensures
        forall|j: int|
            0 <= j < recs.len() && j != dedupe_map(recs)[#[trigger] recs[j].key]
                ==> spec_ts_after(
                rec_ts(recs[dedupe_map(recs)[recs[j].key]]),
                rec_ts(recs[j]),
            ),
    decreases recs.len(),
{
    let n = recs.len() as int;
    if n > 0 {
        let prev = recs.drop_last();
        assert(forall|j: int| 0 <= j < n - 1 ==> prev[j] == recs[j]);
        lemma_dedupe_latest_is_max(prev);
        lemma_dedupe_map_wf(recs);
        lemma_dedupe_map_wf(prev);
        let m = dedupe_map(recs);
        let mp = dedupe_map(prev);
        let k = recs.last().key;
        assert forall|j: int|
            0 <= j < n && j != m[#[trigger] recs[j].key] implies spec_ts_after(
            rec_ts(recs[m[recs[j].key]]),
            rec_ts(recs[j]),
        ) by {
            let kj = recs[j].key;
            if kj == k {
                if !mp.contains_key(k) {
                    // The last record is the only one of its key.
                    assert(m[k] == n - 1);
                    assert(j < n - 1 ==> mp.contains_key(prev[j].key));
                    assert(false);
                } else {
                    let w = mp[k];
                    assert(0 <= w < n - 1 && recs[w].key == k);
                    if spec_ts_after(rec_ts(recs.last()), rec_ts(recs[w])) {
                        assert(m[k] == n - 1);
                        assert(j < n - 1);
                        if j == w {
                        } else {
                            assert(j != mp[prev[j].key]);
                            assert(spec_ts_after(rec_ts(prev[mp[prev[j].key]]), rec_ts(prev[j])));
                            crate::dates::lemma_ts_after_transitive(
                                rec_ts(recs.last()),
                                rec_ts(recs[w]),
                                rec_ts(recs[j]),
                            );
                        }
                    } else {
                        assert(m[k] == w);
                        if j == n - 1 {
                            assert(rec_ts(recs[w]) != rec_ts(recs.last()));
                            lemma_ts_after_asymmetric(rec_ts(recs[w]), rec_ts(recs.last()));
                        } else {
                            assert(j != mp[prev[j].key]);
                            assert(spec_ts_after(rec_ts(prev[mp[prev[j].key]]), rec_ts(prev[j])));
                        }
                    }
                }
            } else {
                assert(j != n - 1);
                assert(m[kj] == mp[kj]);
                assert(j != mp[prev[j].key]);
                assert(spec_ts_after(rec_ts(prev[mp[prev[j].key]]), rec_ts(prev[j])));
            }
        }
    }
}

/// Feeding the same records in reverse arrival order yields the same
/// mapping: the same keys, each keeping the same winning record — as long
/// as no two records of one key share a timestamp (an exact tie is broken
/// by arrival order, which a reversal flips).
pub proof fn lemma_dedupe_order_independent(recs: Seq<DedupRecordV>)
    requires
        forall|i: int| 0 <= i < recs.len() ==> rec_ts_ok(#[trigger] recs[i]),
        forall|i: int, j: int|
            0 <= i < j < recs.len() && recs[i].key == recs[j].key ==> rec_ts(recs[i]) != rec_ts(
                recs[j],
            ),
    ensures
        forall|k: Seq<char>|
            dedupe_map(recs).contains_key(k) <==> #[trigger] dedupe_map(
                recs.reverse(),
            ).contains_key(k),
        forall|k: Seq<char>|
            #[trigger] dedupe_map(recs).contains_key(k) ==> recs.reverse()[dedupe_map(
                recs.reverse(),
            )[k]] == recs[dedupe_map(recs)[k]],
{
    let n = recs.len() as int;
    let rrecs = recs.reverse();
    assert(rrecs.len() == n);
    assert(forall|j: int| 0 <= j < n ==> #[trigger] rrecs[j] == recs[n - 1 - j]);
    assert forall|i: int, j: int|
        0 <= i < j < n && rrecs[i].key == rrecs[j].key implies rec_ts(rrecs[i]) != rec_ts(
        rrecs[j],
    ) by {
        assert(rrecs[i] == recs[n - 1 - i] && rrecs[j] == recs[n - 1 - j]);
    }
    lemma_dedupe_latest_is_max(recs);
    lemma_dedupe_latest_is_max(rrecs);
    lemma_dedupe_map_wf(recs);
    lemma_dedupe_map_wf(rrecs);
    let m = dedupe_map(recs);
    let mr = dedupe_map(rrecs);
    assert forall|k: Seq<char>|
        m.contains_key(k) <==> #[trigger] mr.contains_key(k) by {
        if m.contains_key(k) {
            let a = m[k];
            assert(rrecs[n - 1 - a] == recs[a]);
            assert(mr.contains_key(rrecs[n - 1 - a].key));
        }
        if mr.contains_key(k) {
            let b = mr[k];
            assert(recs[n - 1 - b] == rrecs[b]);
            assert(m.contains_key(recs[n - 1 - b].key));
        }
    }
    assert forall|k: Seq<char>| #[trigger] m.contains_key(k) implies rrecs[mr[k]] == recs[m[k]] by {
        let a = m[k];
        let b = mr[k];
        assert(0 <= a < n && recs[a].key == k);
        assert(rrecs[n - 1 - a] == recs[a]);
        assert(mr.contains_key(rrecs[n - 1 - a].key));
        assert(0 <= b < n && rrecs[b].key == k);
        if a != n - 1 - b {
            assert(recs[n - 1 - b].key == k);
            assert(n - 1 - b != m[recs[n - 1 - b].key]);
            assert(spec_ts_after(rec_ts(recs[a]), rec_ts(recs[n - 1 - b])));
            assert(rrecs[n - 1 - a] == recs[a]);
            assert(n - 1 - a != mr[rrecs[n - 1 - a].key]);
            assert(spec_ts_after(rec_ts(rrecs[b]), rec_ts(rrecs[n - 1 - a])));
            lemma_ts_after_asymmetric(rec_ts(recs[a]), rec_ts(recs[n - 1 - b]));
            assert(false);
        }
    }
}

} // verus!
