//! What a run over many records yields, and why it does not depend on how
//! the records are shared among workers.
use vstd::prelude::*;
use vstd::seq_lib::lemma_multiset_commutative;
use crate::primers::PrimerSet;
use crate::scanner::{Match, MatchView, Record, ScanConfig, match_views, scan_matches, scan_record};

verus! {

/// The matches of each record in turn, each record given as its id and
/// sequence.
pub open spec fn run_matches(
    records: Seq<(Seq<u8>, Seq<u8>)>,
    primers: Seq<(Seq<u8>, Seq<u8>)>,
    config: ScanConfig,
) -> Seq<MatchView>
    decreases records.len(),
{
    if records.len() == 0 {
        Seq::empty()
    } else {
        run_matches(records.drop_last(), primers, config) + scan_matches(
            records.last().0,
            records.last().1,
            primers,
            config,
        )
    }
}

/// Records taken as two batches yield the matches of the first batch and
/// then those of the second: each record is scanned on its own.
pub proof fn lemma_run_concat(
    a: Seq<(Seq<u8>, Seq<u8>)>,
    b: Seq<(Seq<u8>, Seq<u8>)>,
    primers: Seq<(Seq<u8>, Seq<u8>)>,
    config: ScanConfig,
)
    ensures
        run_matches(a + b, primers, config) == run_matches(a, primers, config) + run_matches(
            b,
            primers,
            config,
        ),
    decreases b.len(),
{
    if b.len() == 0 {
        assert(a + b =~= a);
        assert(run_matches(a, primers, config) + run_matches(b, primers, config) =~= run_matches(
            a,
            primers,
            config,
        ));
    } else {
        let b2 = b.drop_last();
        assert((a + b).drop_last() =~= a + b2);
        assert((a + b).last() == b.last());
        lemma_run_concat(a, b2, primers, config);
        let last = scan_matches(b.last().0, b.last().1, primers, config);
        assert(run_matches(a + b, primers, config) =~= run_matches(a, primers, config) + (
        run_matches(b2, primers, config) + last));
    }
}

/// The matches of a batch of records, counted as a multiset, do not depend
/// on the order in which the records are taken. However the records are
/// shared among any number of workers, each scanned once, the same matches
/// come out; and two runs on the same records yield the same matches.
pub proof fn lemma_run_order_free(
    a: Seq<(Seq<u8>, Seq<u8>)>,
    b: Seq<(Seq<u8>, Seq<u8>)>,
    primers: Seq<(Seq<u8>, Seq<u8>)>,
    config: ScanConfig,
)
    requires
        a.to_multiset() == b.to_multiset(),
    ensures
        run_matches(a, primers, config).to_multiset() == run_matches(
            b,
            primers,
            config,
        ).to_multiset(),
    decreases a.len(),
{
    a.to_multiset_ensures();
    b.to_multiset_ensures();
    if a.len() == 0 {
        assert(b.to_multiset().len() == 0);
        assert(b =~= a);
    } else {
        let x = a.last();
        let a2 = a.drop_last();
        assert(a =~= a2.push(x));
        a2.to_multiset_ensures();
        assert(a.contains(x)) by {
            assert(a[a.len() - 1] == x);
        }
        assert(a.to_multiset().count(x) > 0);
        assert(b.to_multiset().count(x) > 0);
        assert(b.contains(x));
        let k = choose|k: int| 0 <= k < b.len() && b[k] == x;
        let b2 = b.remove(k);
        assert(b2.to_multiset() =~= a2.to_multiset()) by {
            assert(b2.to_multiset() =~= b.to_multiset().remove(x));
            assert(a.to_multiset() =~= a2.to_multiset().insert(x));
        }
        lemma_run_order_free(a2, b2, primers, config);
        let b1 = b.subrange(0, k);
        let b3 = b.subrange(k + 1, b.len() as int);
        let one = seq![x];
        assert(b =~= b1 + one + b3);
        assert(b2 =~= b1 + b3);
        lemma_run_concat(b1 + one, b3, primers, config);
        lemma_run_concat(b1, one, primers, config);
        lemma_run_concat(b1, b3, primers, config);
        let sx = scan_matches(x.0, x.1, primers, config);
        assert(one.drop_last() =~= Seq::<(Seq<u8>, Seq<u8>)>::empty());
        assert(one.last() == x);
        assert(run_matches(one.drop_last(), primers, config) == Seq::<MatchView>::empty());
        assert(run_matches(one, primers, config) =~= sx);
        let r1 = run_matches(b1, primers, config);
        let r3 = run_matches(b3, primers, config);
        lemma_multiset_commutative(r1 + sx, r3);
        lemma_multiset_commutative(r1, sx);
        lemma_multiset_commutative(r1, r3);
        lemma_multiset_commutative(run_matches(a2, primers, config), sx);
        assert(run_matches(a, primers, config).to_multiset() =~= run_matches(
            b,
            primers,
            config,
        ).to_multiset());
    }
}

/// The records of a list as their ids and sequences.
pub open spec fn record_views(records: Seq<Record>) -> Seq<(Seq<u8>, Seq<u8>)> {
    records.map_values(|r: Record| r@)
}

/// Scans the records one after another, as a single worker does, and
/// returns the matches of each record in turn.
pub fn scan_records(records: &Vec<Record>, primers: &PrimerSet, config: &ScanConfig) -> (r: Vec<
    Match,
>)
    ensures
        match_views(r@) == run_matches(record_views(records@), primers@, *config),
{
    let mut out: Vec<Match> = Vec::new();
    let mut k: usize = 0;
    while k < records.len()
        invariant
            k <= records@.len(),
            match_views(out@) == run_matches(
                record_views(records@.subrange(0, k as int)),
                primers@,
                *config,
            ),
        decreases records@.len() - k,
    {
        let mut found = scan_record(&records[k], primers, config);
        let ghost before = out@;
        let ghost found_views = match_views(found@);
        out.append(&mut found);
        proof {
            let done = record_views(records@.subrange(0, k + 1));
            assert(done.drop_last() =~= record_views(records@.subrange(0, k as int)));
            assert(done.last() == records@[k as int]@);
            assert(match_views(out@) =~= match_views(before) + found_views);
        }
        k = k + 1;
    }
    assert(records@.subrange(0, k as int) =~= records@);
    out
}

} // verus!
