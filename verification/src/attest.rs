//! Attestation: the round trip, replayed over samples.
use crate::budget::{budget_pieces, compress_to_budget, law_budget_is_reversible, Budget};
use crate::cas::Cas;
use crate::doc::{rebuilt, Fault};
use crate::hash::content_key;
use crate::text::same_bytes;
use crate::tiling::{
    collision_free, law_store_only_grows, lemma_regions_found, lemma_stored_origin, regions,
    stored_all, tiled, Piece,
};
use crate::tokens::TokenCounter;
use vstd::prelude::*;

verus! {

/// The outcome of an attestation.
#[derive(Clone, Copy, Debug, PartialEq, Eq, Structural)]
pub struct AttestReport {
    /// The number of samples.
    pub samples: usize,
    /// How many of them came back byte for byte.
    pub passed: usize,
    /// The bytes of those.
    pub bytes_round_tripped: usize,
    /// The first sample that did not come back, if any.
    pub first_failure: Option<usize>,
}

impl AttestReport {
    /// Whether every sample came back byte for byte.
    pub fn ok(&self) -> (r: bool)
        ensures
            r == (self.first_failure is None && self.passed == self.samples),
    {
        self.first_failure.is_none() && self.passed == self.samples
    }
}

/// The verdicts in order: how many samples passed.
pub open spec fn passes_of(verdicts: Seq<bool>) -> nat
    decreases verdicts.len(),
{
    if verdicts.len() == 0 {
        0
    } else {
        passes_of(verdicts.drop_last()) + if verdicts.last() {
            1nat
        } else {
            0
        }
    }
}

/// The bytes of the samples that passed.
pub open spec fn passed_bytes(samples: Seq<&[u8]>, verdicts: Seq<bool>) -> nat
    decreases verdicts.len(),
{
    if verdicts.len() == 0 {
        0
    } else {
        passed_bytes(samples, verdicts.drop_last()) + if verdicts.last() {
            samples[verdicts.len() - 1]@.len()
        } else {
            0
        }
    }
}

/// The bytes of the first `n` samples.
pub open spec fn total_bytes(samples: Seq<&[u8]>, n: int) -> nat
    decreases n,
{
    if n <= 0 {
        0
    } else {
        total_bytes(samples, n - 1) + samples[n - 1]@.len()
    }
}

/// The first sample that did not pass.
pub open spec fn first_failed(verdicts: Seq<bool>) -> Option<usize>
    decreases verdicts.len(),
{
    if verdicts.len() == 0 {
        None
    } else if first_failed(verdicts.drop_last()) is Some {
        first_failed(verdicts.drop_last())
    } else if verdicts.last() {
        None
    } else {
        Some((verdicts.len() - 1) as usize)
    }
}

/// `verdict` is right for a sample that was compressed from the store `before`
/// into the store `after`: it says whether the document comes back as the
/// sample.
pub open spec fn verdict_on<K: TokenCounter>(
    sample: Seq<u8>,
    counter: &K,
    before: Map<Seq<char>, Seq<u8>>,
    after: Map<Seq<char>, Seq<u8>>,
    verdict: bool,
) -> bool {
    exists|found: Seq<Piece>|
        #![trigger tiled(found)]
        budget_pieces(sample, Budget::Tokens(0), counter, found) && after == stored_all(
            before,
            regions(found),
        ) && verdict == (rebuilt(tiled(found), after) == Ok::<Seq<u8>, Fault>(sample))
}

/// The verdicts are right for the samples, one after the other, and `stores`
/// are the stores in between.
pub open spec fn verdicts_on<K: TokenCounter>(
    samples: Seq<&[u8]>,
    counter: &K,
    stores: Seq<Map<Seq<char>, Seq<u8>>>,
    verdicts: Seq<bool>,
) -> bool {
    &&& verdicts.len() <= samples.len()
    &&& stores.len() == verdicts.len() + 1
    &&& forall|i: int|
        0 <= i < verdicts.len() ==> verdict_on(
            samples[i]@,
            counter,
            stores[i],
            stores[i + 1],
            #[trigger] verdicts[i],
        )
}

/// `region` is moved into the store by some compression of one of the samples.
pub open spec fn offloads<K: TokenCounter>(
    samples: Seq<&[u8]>,
    counter: &K,
    region: Seq<u8>,
) -> bool {
    exists|i: int, found: Seq<Piece>|
        #![trigger budget_pieces(samples[i]@, Budget::Tokens(0), counter, found)]
        0 <= i < samples.len() && budget_pieces(samples[i]@, Budget::Tokens(0), counter, found)
            && regions(found).contains(region)
}

/// No two regions of the samples share a key without being the same bytes, nor
/// does one share a key with other bytes that the store already holds. (Two byte
/// strings that do are a collision of SHA-256.)
pub open spec fn nothing_collides<K: TokenCounter>(
    samples: Seq<&[u8]>,
    counter: &K,
    objects: Map<Seq<char>, Seq<u8>>,
) -> bool {
    &&& forall|region: Seq<u8>| #[trigger]
        offloads(samples, counter, region) && objects.dom().contains(content_key(region))
            ==> objects[content_key(region)] == region
    &&& forall|a: Seq<u8>, b: Seq<u8>| #[trigger]
        offloads(samples, counter, a) && #[trigger] offloads(samples, counter, b) && content_key(a)
            == content_key(b) ==> a == b
}

proof fn lemma_total_bytes_grow(samples: Seq<&[u8]>, a: int, b: int)
    requires
        0 <= a <= b,
    ensures
        total_bytes(samples, a) <= total_bytes(samples, b),
    decreases b - a,
{
    if a < b {
        lemma_total_bytes_grow(samples, a, b - 1);
    }
}

/// Compresses each sample as far as a budget goes, rebuilds it from `cas`, and
/// holds it against the sample.
pub fn attest<C: Cas, K: TokenCounter>(samples: &[&[u8]], cas: &mut C, counter: &K) -> (report:
    AttestReport)
    requires
        total_bytes(samples@, samples@.len() as int) <= usize::MAX,
    ensures
        exists|stores: Seq<Map<Seq<char>, Seq<u8>>>, verdicts: Seq<bool>|
            #![trigger verdicts_on(samples@, counter, stores, verdicts)]
            verdicts_on(samples@, counter, stores, verdicts) && verdicts.len() == samples@.len()
                && stores[0] == old(cas).objects() && stores.last() == final(cas).objects()
                && report.samples == samples@.len() && report.passed == passes_of(verdicts)
                && report.bytes_round_tripped == passed_bytes(samples@, verdicts)
                && report.first_failure == first_failed(verdicts),
        nothing_collides(samples@, counter, old(cas).objects()) ==> {
            &&& report.first_failure is None
            &&& report.passed == samples@.len()
            &&& report.bytes_round_tripped == total_bytes(samples@, samples@.len() as int)
        },
{
    let mut passed: usize = 0;
    let mut bytes_round_tripped: usize = 0;
    let mut first_failure: Option<usize> = None;
    let ghost mut stores: Seq<Map<Seq<char>, Seq<u8>>> = seq![cas.objects()];
    let ghost mut verdicts: Seq<bool> = Seq::empty();
    let mut i: usize = 0;
    while i < samples.len()
        invariant
            i <= samples@.len(),
            total_bytes(samples@, samples@.len() as int) <= usize::MAX,
            verdicts.len() == i,
            verdicts_on(samples@, counter, stores, verdicts),
            stores[0] == old(cas).objects(),
            stores.last() == cas.objects(),
            passed <= i,
            passed == passes_of(verdicts),
            bytes_round_tripped == passed_bytes(samples@, verdicts),
            bytes_round_tripped <= total_bytes(samples@, i as int),
            first_failure == first_failed(verdicts),
        decreases samples@.len() - i,
    {
        let sample = samples[i];
        let ghost before = cas.objects();
        let doc = compress_to_budget(sample, cas, Budget::Tokens(0), counter);
        let back = match doc.reconstruct(cas) {
            Ok(out) => same_bytes(out.as_slice(), sample),
            Err(_) => false,
        };
        proof {
            lemma_total_bytes_grow(samples@, i as int + 1, samples@.len() as int);
            let next = verdicts.push(back);
            assert(next.drop_last() =~= verdicts);
            let after = stores.push(cas.objects());
            assert(verdict_on(sample@, counter, before, cas.objects(), back));
            assert(verdicts_on(samples@, counter, after, next)) by {
                assert forall|k: int| 0 <= k < next.len() implies verdict_on(
                    samples@[k]@,
                    counter,
                    after[k],
                    after[k + 1],
                    #[trigger] next[k],
                ) by {
                    if k < i {
                        assert(next[k] == verdicts[k]);
                        assert(after[k] == stores[k]);
                        assert(after[k + 1] == stores[k + 1]);
                    }
                }
            }
            verdicts = next;
            stores = after;
        }
        if back {
            passed += 1;
            bytes_round_tripped += sample.len();
        } else if first_failure.is_none() {
            first_failure = Some(i);
        }
        i += 1;
    }
    proof {
        if nothing_collides(samples@, counter, old(cas).objects()) {
            law_honest_store_attests(samples@, counter, stores, verdicts);
        }
    }
    AttestReport { samples: samples.len(), passed, bytes_round_tripped, first_failure }
}

/// A report is good exactly if no sample failed.
pub proof fn law_report_is_good_iff_all_passed(verdicts: Seq<bool>)
    ensures
        (first_failed(verdicts) is None) <==> (forall|i: int|
            0 <= i < verdicts.len() ==> #[trigger] verdicts[i]),
        (first_failed(verdicts) is None) <==> passes_of(verdicts) == verdicts.len(),
        passes_of(verdicts) <= verdicts.len(),
    decreases verdicts.len(),
{
    if verdicts.len() > 0 {
        let before = verdicts.drop_last();
        law_report_is_good_iff_all_passed(before);
        assert(forall|i: int| 0 <= i < before.len() ==> #[trigger] before[i] == verdicts[i]);
        assert(verdicts[verdicts.len() - 1] == verdicts.last());
        if forall|i: int| 0 <= i < verdicts.len() ==> #[trigger] verdicts[i] {
            assert(forall|i: int| 0 <= i < before.len() ==> #[trigger] before[i]);
        }
        if first_failed(verdicts) is None {
            assert forall|i: int| 0 <= i < verdicts.len() implies #[trigger] verdicts[i] by {
                if i < before.len() {
                    assert(before[i]);
                }
            }
        }
    }
}

/// A sample passes wherever its regions collide with nothing: then the round
/// trip gives it back byte for byte.
pub proof fn law_round_trips_pass<K: TokenCounter>(
    sample: Seq<u8>,
    counter: &K,
    before: Map<Seq<char>, Seq<u8>>,
    after: Map<Seq<char>, Seq<u8>>,
    verdict: bool,
)
    requires
        sample.len() <= usize::MAX,
        verdict_on(sample, counter, before, after, verdict),
        forall|found: Seq<Piece>|
            #![trigger tiled(found)]
            budget_pieces(sample, Budget::Tokens(0), counter, found) ==> collision_free(
                before,
                regions(found),
            ),
    ensures
        verdict,
{
    let found = choose|found: Seq<Piece>|
        #![trigger tiled(found)]
        budget_pieces(sample, Budget::Tokens(0), counter, found) && after == stored_all(
            before,
            regions(found),
        ) && verdict == (rebuilt(tiled(found), after) == Ok::<Seq<u8>, Fault>(sample));
    law_budget_is_reversible(
        sample,
        Budget::Tokens(0),
        counter,
        found,
        before,
        Seq::empty(),
    );
}

/// A store into which a sample was compressed still collides with nothing.
proof fn lemma_still_nothing_collides<K: TokenCounter>(
    samples: Seq<&[u8]>,
    counter: &K,
    objects: Map<Seq<char>, Seq<u8>>,
    i: int,
    found: Seq<Piece>,
)
    requires
        nothing_collides(samples, counter, objects),
        0 <= i < samples.len(),
        budget_pieces(samples[i]@, Budget::Tokens(0), counter, found),
    ensures
        collision_free(objects, regions(found)),
        nothing_collides(samples, counter, stored_all(objects, regions(found))),
{
    let moved = regions(found);
    let held = stored_all(objects, moved);
    assert forall|k: int| 0 <= k < moved.len() implies offloads(
        samples,
        counter,
        #[trigger] moved[k],
    ) by {
        assert(moved.contains(moved[k]));
    }
    assert forall|region: Seq<u8>| #[trigger]
        offloads(samples, counter, region) && held.dom().contains(
            content_key(region),
        ) implies held[content_key(region)] == region by {
        let key = content_key(region);
        lemma_stored_origin(objects, moved, key);
        if objects.dom().contains(key) {
            law_store_only_grows(objects, moved, key);
        } else {
            let k = choose|k: int| 0 <= k < moved.len() && content_key(#[trigger] moved[k]) == key;
            lemma_regions_found(objects, moved, k);
        }
    }
}

/// An honest store attests: where no two of the regions collide, with each other
/// or with what the store held, every sample comes back byte for byte, and the
/// report is good.
pub proof fn law_honest_store_attests<K: TokenCounter>(
    samples: Seq<&[u8]>,
    counter: &K,
    stores: Seq<Map<Seq<char>, Seq<u8>>>,
    verdicts: Seq<bool>,
)
    requires
        total_bytes(samples, samples.len() as int) <= usize::MAX,
        verdicts_on(samples, counter, stores, verdicts),
        nothing_collides(samples, counter, stores[0]),
    ensures
        forall|i: int| 0 <= i < verdicts.len() ==> #[trigger] verdicts[i],
        first_failed(verdicts) is None,
        passes_of(verdicts) == verdicts.len(),
        passed_bytes(samples, verdicts) == total_bytes(samples, verdicts.len() as int),
        nothing_collides(samples, counter, stores.last()),
    decreases verdicts.len(),
{
    if verdicts.len() > 0 {
        let n = verdicts.len() - 1;
        let before = verdicts.drop_last();
        let earlier = stores.drop_last();
        assert forall|i: int| 0 <= i < before.len() implies verdict_on(
            samples[i]@,
            counter,
            earlier[i],
            earlier[i + 1],
            #[trigger] before[i],
        ) by {
            assert(before[i] == verdicts[i]);
        }
        law_honest_store_attests(samples, counter, earlier, before);
        assert(verdict_on(samples[n]@, counter, stores[n], stores[n + 1], verdicts[n]));
        let found = choose|found: Seq<Piece>|
            #![trigger tiled(found)]
            budget_pieces(samples[n]@, Budget::Tokens(0), counter, found) && stores[n + 1]
                == stored_all(stores[n], regions(found)) && verdicts[n] == (rebuilt(
                tiled(found),
                stores[n + 1],
            ) == Ok::<Seq<u8>, Fault>(samples[n]@));
        lemma_still_nothing_collides(samples, counter, stores[n], n, found);
        lemma_total_bytes_grow(samples, n + 1, samples.len() as int);
        law_budget_is_reversible(
            samples[n]@,
            Budget::Tokens(0),
            counter,
            found,
            stores[n],
            Seq::empty(),
        );
        assert forall|i: int| 0 <= i < verdicts.len() implies #[trigger] verdicts[i] by {
            if i < n {
                assert(before[i] == verdicts[i]);
            }
        }
    }
}

/// The counts of a report: every sample that passed, its bytes, and the first that
/// did not.
pub proof fn law_report_counts(samples: Seq<&[u8]>, verdicts: Seq<bool>, verdict: bool, i: int)
    ensures
        passes_of(verdicts) == verdicts.filter(|v: bool| v).len(),
        passed_bytes(samples, Seq::empty()) == 0,
        passed_bytes(samples, verdicts.push(verdict)) == passed_bytes(samples, verdicts) + (
        if verdict {
            samples[verdicts.len() as int]@.len()
        } else {
            0
        }),
        0 <= i < verdicts.len() && !verdicts[i] && (forall|k: int|
            0 <= k < i ==> #[trigger] verdicts[k]) ==> first_failed(verdicts) == Some(i as usize),
    decreases verdicts.len(),
{
    reveal(Seq::filter);
    assert(verdicts.push(verdict).drop_last() =~= verdicts);
    if verdicts.len() > 0 {
        let before = verdicts.drop_last();
        assert(forall|k: int| 0 <= k < before.len() ==> #[trigger] before[k] == verdicts[k]);
        law_report_counts(samples, before, verdict, i);
        law_report_is_good_iff_all_passed(before);
    }
}

/// What a verdict says: that a sample, compressed as far as it goes and rebuilt
/// from the store, is itself; each sample finds the store as the one before it
/// left it.
pub proof fn law_verdict<K: TokenCounter>(
    samples: Seq<&[u8]>,
    counter: &K,
    stores: Seq<Map<Seq<char>, Seq<u8>>>,
    verdicts: Seq<bool>,
    i: int,
)
    requires
        verdicts_on(samples, counter, stores, verdicts),
        0 <= i < verdicts.len(),
    ensures
        exists|found: Seq<Piece>|
            #![trigger tiled(found)]
            budget_pieces(samples[i]@, Budget::Tokens(0), counter, found) && stores[i + 1]
                == stored_all(stores[i], regions(found)) && verdicts[i] == (rebuilt(
                tiled(found),
                stores[i + 1],
            ) == Ok::<Seq<u8>, Fault>(samples[i]@)),
        total_bytes(samples, 0) == 0,
        total_bytes(samples, i + 1) == total_bytes(samples, i) + samples[i]@.len(),
{
    assert(verdict_on(samples[i]@, counter, stores[i], stores[i + 1], verdicts[i]));
}

} // verus!
