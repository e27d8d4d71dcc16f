//! Scanning one record against every pair of primers, under one of two
//! amplicon span policies and an optional id-prefix grouping.
use vstd::prelude::*;
use crate::matcher::{first_match, find_bytes};
use crate::primers::{Primer, PrimerSet, copy_bytes, copy_range};

verus! {

/// How the amplicon of a primer pair is cut from the record.
#[derive(Clone, Copy, Debug, PartialEq, Eq, Structural)]
pub enum SpanPolicy {
    /// From the start of the earlier occurrence to the end of the later one,
    /// both primers included; no overlap check.
    Inclusive,
    /// Only the gap strictly between two occurrences that do not overlap.
    StrictGap,
}

/// What a scan is told: the optional id-prefix length that groups primers,
/// and the span policy.
#[derive(Clone, Copy, Debug, PartialEq, Eq, Structural)]
pub struct ScanConfig {
    pub prefix_len: Option<usize>,
    pub policy: SpanPolicy,
}

/// One input record: an id, an optional description and a sequence.
pub struct Record {
    pub id: Vec<u8>,
    pub description: Option<Vec<u8>>,
    pub sequence: Vec<u8>,
}

impl View for Record {
    type V = (Seq<u8>, Seq<u8>);

    /// The record's id and sequence: all that a scan reads of it.
    open spec fn view(&self) -> (Seq<u8>, Seq<u8>) {
        (self.id@, self.sequence@)
    }
}

/// One amplicon found in a record between two primers, the one that comes
/// first in the record named first.
pub struct Match {
    pub record_id: Vec<u8>,
    pub first_primer_id: Vec<u8>,
    pub first_primer_seq: Vec<u8>,
    pub second_primer_id: Vec<u8>,
    pub second_primer_seq: Vec<u8>,
    pub amplicon: Vec<u8>,
    pub amplicon_length: usize,
}

/// A match as plain values.
pub struct MatchView {
    pub record_id: Seq<u8>,
    pub first_primer_id: Seq<u8>,
    pub first_primer_seq: Seq<u8>,
    pub second_primer_id: Seq<u8>,
    pub second_primer_seq: Seq<u8>,
    pub amplicon: Seq<u8>,
    pub amplicon_length: nat,
}

impl View for Match {
    type V = MatchView;

    open spec fn view(&self) -> MatchView {
        MatchView {
            record_id: self.record_id@,
            first_primer_id: self.first_primer_id@,
            first_primer_seq: self.first_primer_seq@,
            second_primer_id: self.second_primer_id@,
            second_primer_seq: self.second_primer_seq@,
            amplicon: self.amplicon@,
            amplicon_length: self.amplicon_length as nat,
        }
    }
}

/// The views of a list of matches.
pub open spec fn match_views(v: Seq<Match>) -> Seq<MatchView> {
    v.map_values(|m: Match| m@)
}

/// Two ids may be paired: with a prefix length `n`, both are at least `n`
/// long and agree on their first `n` bytes.
pub open spec fn same_group(id1: Seq<u8>, id2: Seq<u8>, prefix_len: Option<usize>) -> bool {
    match prefix_len {
        None => true,
        Some(n) => n <= id1.len() && n <= id2.len() && id1.subrange(0, n as int) == id2.subrange(
            0,
            n as int,
        ),
    }
}

/// The match that names `first` first and holds `amplicon`.
pub open spec fn match_of(
    record_id: Seq<u8>,
    first: (Seq<u8>, Seq<u8>),
    second: (Seq<u8>, Seq<u8>),
    amplicon: Seq<u8>,
) -> MatchView {
    MatchView {
        record_id,
        first_primer_id: first.0,
        first_primer_seq: first.1,
        second_primer_id: second.0,
        second_primer_seq: second.1,
        amplicon,
        amplicon_length: amplicon.len(),
    }
}

/// The amplicon of primers `p1` and `p2`, first found at `pos1` and `pos2`.
pub open spec fn span_of(
    record_id: Seq<u8>,
    sequence: Seq<u8>,
    p1: (Seq<u8>, Seq<u8>),
    p2: (Seq<u8>, Seq<u8>),
    pos1: int,
    pos2: int,
    policy: SpanPolicy,
) -> Option<MatchView> {
    match policy {
        SpanPolicy::Inclusive => if pos1 <= pos2 {
            Some(match_of(record_id, p1, p2, sequence.subrange(pos1, pos2 + p2.1.len())))
        } else {
            Some(match_of(record_id, p2, p1, sequence.subrange(pos2, pos1 + p1.1.len())))
        },
        SpanPolicy::StrictGap => if pos1 + p1.1.len() <= pos2 {
            Some(match_of(record_id, p1, p2, sequence.subrange(pos1 + p1.1.len(), pos2)))
        } else if pos2 + p2.1.len() <= pos1 {
            Some(match_of(record_id, p2, p1, sequence.subrange(pos2 + p2.1.len(), pos1)))
        } else {
            None
        },
    }
}

/// What a record yields for the primer pair `p1`, `p2`.
pub open spec fn pair_result(
    record_id: Seq<u8>,
    sequence: Seq<u8>,
    p1: (Seq<u8>, Seq<u8>),
    p2: (Seq<u8>, Seq<u8>),
    config: ScanConfig,
) -> Option<MatchView> {
    if !same_group(p1.0, p2.0, config.prefix_len) {
        None
    } else {
        match (first_match(sequence, p1.1), first_match(sequence, p2.1)) {
            (Some(pos1), Some(pos2)) => span_of(record_id, sequence, p1, p2, pos1, pos2, config.policy),
            _ => None,
        }
    }
}

/// An optional match as a list of zero or one.
pub open spec fn opt_seq(m: Option<MatchView>) -> Seq<MatchView> {
    match m {
        Some(v) => seq![v],
        None => Seq::empty(),
    }
}

/// The matches of primer `i` with the primers from `i + 1` up to `j`, excluded.
pub open spec fn row_matches(
    record_id: Seq<u8>,
    sequence: Seq<u8>,
    primers: Seq<(Seq<u8>, Seq<u8>)>,
    i: int,
    j: int,
    config: ScanConfig,
) -> Seq<MatchView>
    decreases j - i,
{
    if j <= i + 1 {
        Seq::empty()
    } else {
        row_matches(record_id, sequence, primers, i, j - 1, config) + opt_seq(
            pair_result(record_id, sequence, primers[i], primers[j - 1], config),
        )
    }
}

/// The matches of the primers before `i` with the primers after them.
pub open spec fn rows_before(
    record_id: Seq<u8>,
    sequence: Seq<u8>,
    primers: Seq<(Seq<u8>, Seq<u8>)>,
    i: int,
    config: ScanConfig,
) -> Seq<MatchView>
    decreases i,
{
    if i <= 0 {
        Seq::empty()
    } else {
        rows_before(record_id, sequence, primers, i - 1, config) + row_matches(
            record_id,
            sequence,
            primers,
            i - 1,
            primers.len() as int,
            config,
        )
    }
}

/// All matches of one record: the pairs `(i, j)` with `i < j` taken in
/// order of `i`, then of `j`.
pub open spec fn scan_matches(
    record_id: Seq<u8>,
    sequence: Seq<u8>,
    primers: Seq<(Seq<u8>, Seq<u8>)>,
    config: ScanConfig,
) -> Seq<MatchView> {
    rows_before(record_id, sequence, primers, primers.len() as int, config)
}

/// For a pair of primers that are both found and may be paired: the
/// strict-gap policy yields a match exactly when one occurrence ends no later
/// than the other starts; the inclusive policy always yields one, and its
/// amplicon is at least as long as either primer unless the occurrence that
/// starts later ends before the other one does.
pub proof fn lemma_span_policies(
    record_id: Seq<u8>,
    sequence: Seq<u8>,
    p1: (Seq<u8>, Seq<u8>),
    p2: (Seq<u8>, Seq<u8>),
    config: ScanConfig,
    pos1: int,
    pos2: int,
)
    requires
        first_match(sequence, p1.1) == Some(pos1),
        first_match(sequence, p2.1) == Some(pos2),
        same_group(p1.0, p2.0, config.prefix_len),
    ensures
        config.policy == SpanPolicy::StrictGap ==> (pair_result(
            record_id,
            sequence,
            p1,
            p2,
            config,
        ) is Some <==> (pos1 + p1.1.len() <= pos2 || pos2 + p2.1.len() <= pos1)),
        config.policy == SpanPolicy::Inclusive ==> pair_result(
            record_id,
            sequence,
            p1,
            p2,
            config,
        ) is Some,
        config.policy == SpanPolicy::Inclusive && (pos1 <= pos2 ==> pos1 + p1.1.len() <= pos2
            + p2.1.len()) && (pos2 < pos1 ==> pos2 + p2.1.len() <= pos1 + p1.1.len())
            ==> pair_result(record_id, sequence, p1, p2, config)->0.amplicon_length >= p1.1.len()
            && pair_result(record_id, sequence, p1, p2, config)->0.amplicon_length >= p2.1.len(),
{
    let choose1 = choose|i: int| crate::matcher::is_first_match(sequence, p1.1, i);
    let choose2 = choose|i: int| crate::matcher::is_first_match(sequence, p2.1, i);
    assert(crate::matcher::is_first_match(sequence, p1.1, choose1));
    assert(crate::matcher::is_first_match(sequence, p2.1, choose2));
}

/// Every match of a list of matches names two primers that may be paired.
pub open spec fn all_grouped(ms: Seq<MatchView>, prefix_len: Option<usize>) -> bool {
    forall|k: int|
        0 <= k < ms.len() ==> same_group(
            (#[trigger] ms[k]).first_primer_id,
            ms[k].second_primer_id,
            prefix_len,
        )
}

proof fn lemma_grouped_concat(a: Seq<MatchView>, b: Seq<MatchView>, prefix_len: Option<usize>)
    requires
        all_grouped(a, prefix_len),
        all_grouped(b, prefix_len),
    ensures
        all_grouped(a + b, prefix_len),
{
    assert forall|k: int| 0 <= k < (a + b).len() implies same_group(
        (#[trigger] (a + b)[k]).first_primer_id,
        (a + b)[k].second_primer_id,
        prefix_len,
    ) by {
        if k < a.len() {
            assert((a + b)[k] == a[k]);
        } else {
            assert((a + b)[k] == b[k - a.len()]);
        }
    }
}

proof fn lemma_row_grouped(
    record_id: Seq<u8>,
    sequence: Seq<u8>,
    primers: Seq<(Seq<u8>, Seq<u8>)>,
    i: int,
    j: int,
    config: ScanConfig,
)
    ensures
        all_grouped(row_matches(record_id, sequence, primers, i, j, config), config.prefix_len),
    decreases j - i,
{
    if j > i + 1 {
        lemma_row_grouped(record_id, sequence, primers, i, j - 1, config);
        let p1 = primers[i];
        let p2 = primers[j - 1];
        let pr = pair_result(record_id, sequence, p1, p2, config);
        if let Some(m) = pr {
            if let Some(n) = config.prefix_len {
                assert(p1.0.subrange(0, n as int) == p2.0.subrange(0, n as int));
            }
            assert(all_grouped(opt_seq(pr), config.prefix_len));
        } else {
            assert(all_grouped(opt_seq(pr), config.prefix_len));
        }
        lemma_grouped_concat(
            row_matches(record_id, sequence, primers, i, j - 1, config),
            opt_seq(pr),
            config.prefix_len,
        );
    }
}

proof fn lemma_rows_grouped(
    record_id: Seq<u8>,
    sequence: Seq<u8>,
    primers: Seq<(Seq<u8>, Seq<u8>)>,
    i: int,
    config: ScanConfig,
)
    ensures
        all_grouped(rows_before(record_id, sequence, primers, i, config), config.prefix_len),
    decreases i,
{
    if i > 0 {
        lemma_rows_grouped(record_id, sequence, primers, i - 1, config);
        lemma_row_grouped(record_id, sequence, primers, i - 1, primers.len() as int, config);
        lemma_grouped_concat(
            rows_before(record_id, sequence, primers, i - 1, config),
            row_matches(record_id, sequence, primers, i - 1, primers.len() as int, config),
            config.prefix_len,
        );
    }
}

/// With a prefix length `n`, every match of a record names two primers whose
/// ids both have at least `n` bytes and agree on the first `n`, whatever the
/// primer set.
pub proof fn lemma_prefix_grouping(
    record_id: Seq<u8>,
    sequence: Seq<u8>,
    primers: Seq<(Seq<u8>, Seq<u8>)>,
    config: ScanConfig,
)
    ensures
        all_grouped(scan_matches(record_id, sequence, primers, config), config.prefix_len),
{
    lemma_rows_grouped(record_id, sequence, primers, primers.len() as int, config);
}

/// Whether the first `n` bytes of `a` and `b` exist and agree.
pub fn prefixes_agree(a: &[u8], b: &[u8], n: usize) -> (r: bool)
    ensures
        r == (n <= a@.len() && n <= b@.len() && a@.subrange(0, n as int) == b@.subrange(
            0,
            n as int,
        )),
{
    if n > a.len() || n > b.len() {
        return false;
    }
    let mut k: usize = 0;
    while k < n
        invariant
            n <= a@.len(),
            n <= b@.len(),
            k <= n,
            a@.subrange(0, k as int) == b@.subrange(0, k as int),
        decreases n - k,
    {
        if a[k] != b[k] {
            assert(a@.subrange(0, n as int)[k as int] != b@.subrange(0, n as int)[k as int]);
            return false;
        }
        k = k + 1;
        assert(a@.subrange(0, k as int) =~= a@.subrange(0, k as int - 1).push(a@[k - 1]));
        assert(b@.subrange(0, k as int) =~= b@.subrange(0, k as int - 1).push(b@[k - 1]));
    }
    true
}

/// Whether two ids may be paired under `prefix_len`.
pub fn in_same_group(id1: &[u8], id2: &[u8], prefix_len: Option<usize>) -> (r: bool)
    ensures
        r == same_group(id1@, id2@, prefix_len),
{
    match prefix_len {
        None => true,
        Some(n) => prefixes_agree(id1, id2, n),
    }
}

/// Builds the match that names `first` first and holds `sequence[lo..hi]`.
fn make_match(
    record_id: &[u8],
    first: &Primer,
    second: &Primer,
    sequence: &[u8],
    lo: usize,
    hi: usize,
) -> (r: Match)
    requires
        lo <= hi <= sequence@.len(),
    ensures
        r@ == match_of(record_id@, first@, second@, sequence@.subrange(lo as int, hi as int)),
{
    let amplicon = copy_range(sequence, lo, hi);
    Match {
        record_id: copy_bytes(record_id),
        first_primer_id: copy_bytes(first.id.as_slice()),
        first_primer_seq: copy_bytes(first.sequence.as_slice()),
        second_primer_id: copy_bytes(second.id.as_slice()),
        second_primer_seq: copy_bytes(second.sequence.as_slice()),
        amplicon_length: amplicon.len(),
        amplicon,
    }
}

/// The match, if any, that `record` yields for primers `p1` and `p2`.
pub fn match_pair(record: &Record, p1: &Primer, p2: &Primer, config: &ScanConfig) -> (r: Option<
    Match,
>)
    ensures
        match r {
            Some(m) => pair_result(record.id@, record.sequence@, p1@, p2@, *config) == Some(m@),
            None => pair_result(record.id@, record.sequence@, p1@, p2@, *config) is None,
        },
{
    if !in_same_group(p1.id.as_slice(), p2.id.as_slice(), config.prefix_len) {
        return None;
    }
    let seq = record.sequence.as_slice();
    let pos1 = match find_bytes(seq, p1.sequence.as_slice()) {
        Some(p) => p,
        None => return None,
    };
    let pos2 = match find_bytes(seq, p2.sequence.as_slice()) {
        Some(p) => p,
        None => return None,
    };
    let len1 = p1.sequence.len();
    let len2 = p2.sequence.len();
    let slen = seq.len();
    assert(pos1 + len1 <= slen && pos2 + len2 <= slen);
    let rid = record.id.as_slice();
    match config.policy {
        SpanPolicy::Inclusive => {
            if pos1 <= pos2 {
                Some(make_match(rid, p1, p2, seq, pos1, pos2 + len2))
            } else {
                Some(make_match(rid, p2, p1, seq, pos2, pos1 + len1))
            }
        },
        SpanPolicy::StrictGap => {
            if pos1 + len1 <= pos2 {
                Some(make_match(rid, p1, p2, seq, pos1 + len1, pos2))
            } else if pos2 + len2 <= pos1 {
                Some(make_match(rid, p2, p1, seq, pos2 + len2, pos1))
            } else {
                None
            }
        },
    }
}

/// Every match of `record` against `primers`: each unordered pair of
/// distinct primers is taken once, in order of their positions.
pub fn scan_record(record: &Record, primers: &PrimerSet, config: &ScanConfig) -> (r: Vec<Match>)
    ensures
        match_views(r@) == scan_matches(record.id@, record.sequence@, primers@, *config),
{
    let ghost rid = record.id@;
    let ghost sq = record.sequence@;
    let ghost ps = primers@;
    let n = primers.len();
    let mut out: Vec<Match> = Vec::new();
    let mut i: usize = 0;
    while i < n
        invariant
            n == ps.len(),
            ps == primers@,
            rid == record.id@,
            sq == record.sequence@,
            i <= n,
            match_views(out@) == rows_before(rid, sq, ps, i as int, *config),
        decreases n - i,
    {
        let mut j: usize = i + 1;
        assert(match_views(out@) =~= rows_before(rid, sq, ps, i as int, *config) + row_matches(
            rid,
            sq,
            ps,
            i as int,
            j as int,
            *config,
        ));
        while j < n
            invariant
                n == ps.len(),
                ps == primers@,
                rid == record.id@,
                sq == record.sequence@,
                i < n,
                i + 1 <= j <= n,
                match_views(out@) == rows_before(rid, sq, ps, i as int, *config) + row_matches(
                    rid,
                    sq,
                    ps,
                    i as int,
                    j as int,
                    *config,
                ),
            decreases n - j,
        {
            let ghost before = out@;
            match match_pair(record, primers.primer(i), primers.primer(j), config) {
                Some(m) => {
                    out.push(m);
                },
                None => {},
            }
            proof {
                let pr = pair_result(rid, sq, ps[i as int], ps[j as int], *config);
                let done = rows_before(rid, sq, ps, i as int, *config);
                let row = row_matches(rid, sq, ps, i as int, j as int, *config);
                assert(match_views(out@) =~= match_views(before) + opt_seq(pr));
                assert(row_matches(rid, sq, ps, i as int, j + 1, *config) == row + opt_seq(pr));
                assert(match_views(out@) =~= done + row_matches(rid, sq, ps, i as int, j + 1, *config));
            }
            j = j + 1;
        }
        assert(rows_before(rid, sq, ps, i + 1, *config) == rows_before(rid, sq, ps, i as int, *config)
            + row_matches(rid, sq, ps, i as int, n as int, *config));
        i = i + 1;
    }
    out
}

} // verus!
