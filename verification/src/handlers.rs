//! Selecting which aggregates a statistics query displays.

use vstd::prelude::*;
use vstd::string::*;

use crate::dto::CommandStats;
use crate::text::{has_substring, lower_of, str_contains, to_lowercase};

verus! {

/// A command matches a filter when the lowercase filter occurs in the
/// lowercase command text.
pub open spec fn matches_filter(command: Seq<char>, filter: Seq<char>) -> bool {
    has_substring(lower_of(command), lower_of(filter))
}

/// The entries whose command text matches the filter, in their order.
pub open spec fn spec_filter_stats(
    stats: Seq<(String, CommandStats)>,
    filter: Seq<char>,
) -> Seq<(String, CommandStats)> {
    stats.filter(|p: (String, CommandStats)| matches_filter(p.0@, filter))
}

/// Filtering one more entry keeps it exactly when it matches.
proof fn lemma_filter_stats_push(
    stats: Seq<(String, CommandStats)>,
    e: (String, CommandStats),
    filter: Seq<char>,
)
    ensures
        spec_filter_stats(stats.push(e), filter) == if matches_filter(e.0@, filter) {
            spec_filter_stats(stats, filter).push(e)
        } else {
            spec_filter_stats(stats, filter)
        },
{
    reveal(Seq::filter);
    assert(stats.push(e).drop_last() =~= stats);
}

/// Keeps the entries whose command text contains the filter, compared
/// case-insensitively; without a filter, keeps everything.
pub fn filter_stats(stats: Vec<(String, CommandStats)>, filter: &Option<String>) -> (r: Vec<
    (String, CommandStats),
>)
    ensures
        match filter {
            None => r@ == stats@,
            Some(f) => r@ == spec_filter_stats(stats@, f@),
        },
{
    let f = match filter {
        None => {
            return stats;
        },
        Some(f) => f,
    };
    let needle = to_lowercase(f.as_str());
    let n = stats.len();
    let mut out: Vec<(String, CommandStats)> = Vec::new();
    let mut i: usize = 0;
    proof {
        assert(stats@.take(0) =~= Seq::<(String, CommandStats)>::empty());
        reveal(Seq::filter);
    }
    while i < n
        invariant
            n == stats@.len(),
            0 <= i <= n,
            needle@ == lower_of(f@),
            out@ == spec_filter_stats(stats@.take(i as int), f@),
        decreases n - i,
    {
        let hay = to_lowercase(stats[i].0.as_str());
        proof {
            lemma_filter_stats_push(stats@.take(i as int), stats@[i as int], f@);
            assert(stats@.take(i + 1) =~= stats@.take(i as int).push(stats@[i as int]));
        }
        if str_contains(hay.as_str(), needle.as_str()) {
            let entry = (stats[i].0.clone(), stats[i].1);
            proof {
                assert(entry == stats@[i as int]);
            }
            out.push(entry);
        }
        i += 1;
    }
    proof {
        assert(stats@.take(n as int) =~= stats@);
    }
    out
}

/// The entries stand in nondecreasing order of total duration.
pub open spec fn sorted_by_total(s: Seq<(String, CommandStats)>) -> bool {
    forall|i: int, j: int|
        0 <= i < j < s.len() ==> (#[trigger] s[i]).1.total_duration <= (
        #[trigger] s[j]).1.total_duration
}

/// Inserting an element into a sequence adds it to the multiset.
proof fn lemma_insert_to_multiset(s: Seq<(String, CommandStats)>, pos: int, e: (String, CommandStats))
    requires
        0 <= pos <= s.len(),
    ensures
        s.insert(pos, e).to_multiset() =~= s.to_multiset().insert(e),
{
    broadcast use vstd::seq_lib::lemma_multiset_commutative;

    let a = s.subrange(0, pos);
    let b = s.subrange(pos, s.len() as int);
    a.to_multiset_ensures();
    assert(s.insert(pos, e) == a.push(e) + b);
    assert(a + b =~= s);
    assert(s.insert(pos, e).to_multiset() =~= a.to_multiset().insert(e).add(b.to_multiset()));
    assert(s.to_multiset() =~= a.to_multiset().add(b.to_multiset()));
}

/// Orders the entries by their total duration, keeping exactly the same
/// entries.
#[verifier::loop_isolation(false)]
pub fn sort_stats_by_total(stats: Vec<(String, CommandStats)>) -> (r: Vec<(String, CommandStats)>)
    ensures
        sorted_by_total(r@),
        r@.to_multiset() == stats@.to_multiset(),
{
    let n = stats.len();
    let mut out: Vec<(String, CommandStats)> = Vec::new();
    let mut i: usize = 0;
    proof {
        assert(stats@.take(0) =~= Seq::<(String, CommandStats)>::empty());
        stats@.take(0).to_multiset_ensures();
        assert(out@.to_multiset() =~= stats@.take(0).to_multiset());
    }
    while i < n
        invariant
            0 <= i <= n,
            sorted_by_total(out@),
            out@.to_multiset() == stats@.take(i as int).to_multiset(),
        decreases n - i,
    {
        let e = (stats[i].0.clone(), stats[i].1);
        proof {
            assert(e == stats@[i as int]);
        }
        let m = out.len();
        let mut pos: usize = 0;
        while pos < m && out[pos].1.total_duration <= e.1.total_duration
            invariant
                0 <= pos <= m,
                forall|k: int|
                    0 <= k < pos ==> (#[trigger] out@[k]).1.total_duration <= e.1.total_duration,
            decreases m - pos,
        {
            pos += 1;
        }
        let ghost before = out@;
        proof {
            lemma_insert_to_multiset(out@, pos as int, e);
            stats@.take(i as int).to_multiset_ensures();
            assert(stats@.take(i + 1) =~= stats@.take(i as int).push(stats@[i as int]));
        }
        out.insert(pos, e);
        proof {
            assert forall|a: int, b: int| 0 <= a < b < out@.len() implies (
            #[trigger] out@[a]).1.total_duration <= (#[trigger] out@[b]).1.total_duration by {
                if b < pos {
                    assert(out@[a] == before[a] && out@[b] == before[b]);
                } else if b == pos {
                    assert(out@[a] == before[a]);
                } else if a < pos {
                    assert(out@[a] == before[a] && out@[b] == before[b - 1]);
                } else if a == pos {
                    assert(out@[b] == before[b - 1]);
                    assert(before[b - 1].1.total_duration >= before[pos as int].1.total_duration);
                } else {
                    assert(out@[a] == before[a - 1] && out@[b] == before[b - 1]);
                }
            }
        }
        i += 1;
    }
    proof {
        assert(stats@.take(n as int) =~= stats@);
    }
    out
}

} // verus!
