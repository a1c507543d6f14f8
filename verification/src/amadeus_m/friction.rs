//! Cognitive friction: where a run of decisions switches between the two
//! Collatz modes, and how many decisions each mode took.
use vstd::prelude::*;
use crate::amadeus_m::collatz::CollatzMode;

verus! {

/// A switch at decision `at`, from the mode before it to its own mode.
#[derive(Clone, Copy, Debug, PartialEq, Eq, Structural)]
pub struct ModeChange {
    pub at: usize,
    pub from: CollatzMode,
    pub to: CollatzMode,
}

/// The switches of a run and the decisions taken in each mode.
pub struct ModeCounts {
    pub switches: Vec<ModeChange>,
    pub total_originalist: usize,
    pub total_vanguardist: usize,
}

/// The switches among the first `n` decisions: each decision whose mode
/// differs from the one before it, in order.
pub open spec fn switches_upto(modes: Seq<CollatzMode>, n: int) -> Seq<ModeChange>
    decreases n,
{
    if n <= 1 {
        Seq::empty()
    } else {
        let rest = switches_upto(modes, n - 1);
        if modes[n - 1] != modes[n - 2] {
            rest.push(ModeChange { at: (n - 1) as usize, from: modes[n - 2], to: modes[n - 1] })
        } else {
            rest
        }
    }
}

/// How many of the first `n` decisions were taken in mode `m`.
pub open spec fn count_mode(modes: Seq<CollatzMode>, n: int, m: CollatzMode) -> nat
    decreases n,
{
    if n <= 0 {
        0
    } else {
        count_mode(modes, n - 1, m) + if modes[n - 1] == m { 1nat } else { 0nat }
    }
}

proof fn lemma_count_mode_bound(modes: Seq<CollatzMode>, n: int, m: CollatzMode)
    ensures
        count_mode(modes, n, m) <= if n < 0 { 0 } else { n },
    decreases n,
{
    if n > 0 {
        lemma_count_mode_bound(modes, n - 1, m);
    }
}

/// The switches and per-mode totals of a run of decisions (see
/// `switches_upto` and `count_mode`).
pub fn mode_switches(modes: &[CollatzMode]) -> (r: ModeCounts)
    ensures
        r.switches@ == switches_upto(modes@, modes@.len() as int),
        r.total_originalist == count_mode(modes@, modes@.len() as int, CollatzMode::Originalist),
        r.total_vanguardist == count_mode(modes@, modes@.len() as int, CollatzMode::Vanguardist),
{
    let n = modes.len();
    let mut switches: Vec<ModeChange> = Vec::new();
    let mut orig: usize = 0;
    let mut vang: usize = 0;
    let mut i: usize = 0;
    while i < n
        invariant
            n == modes@.len(),
            i <= n,
            switches@ == switches_upto(modes@, i as int),
            orig == count_mode(modes@, i as int, CollatzMode::Originalist),
            vang == count_mode(modes@, i as int, CollatzMode::Vanguardist),
        decreases n - i,
    {
        proof {
            lemma_count_mode_bound(modes@, i as int, CollatzMode::Originalist);
            lemma_count_mode_bound(modes@, i as int, CollatzMode::Vanguardist);
        }
        match modes[i] {
            CollatzMode::Originalist => orig = orig + 1,
            CollatzMode::Vanguardist => vang = vang + 1,
        }
        if i > 0 && modes[i] != modes[i - 1] {
            switches.push(ModeChange { at: i, from: modes[i - 1], to: modes[i] });
        }
        i += 1;
    }
    ModeCounts { switches, total_originalist: orig, total_vanguardist: vang }
}

/// Every decision is in one of the two modes.
pub proof fn lemma_counts_cover(modes: Seq<CollatzMode>, n: int)
    requires
        0 <= n <= modes.len(),
    ensures
        count_mode(modes, n, CollatzMode::Originalist) + count_mode(modes, n, CollatzMode::Vanguardist) == n,
    decreases n,
{
    if n > 0 {
        lemma_counts_cover(modes, n - 1);
    }
}

/// Consecutive switches alternate: each one leaves the mode the previous
/// one entered.
pub proof fn lemma_switches_alternate(modes: Seq<CollatzMode>, n: int, k: int)
    requires
        0 <= n <= modes.len(),
        modes.len() <= usize::MAX,
        0 < k < switches_upto(modes, n).len(),
    ensures
        switches_upto(modes, n)[k].from == switches_upto(modes, n)[k - 1].to,
        switches_upto(modes, n)[k - 1].at < switches_upto(modes, n)[k].at,
    decreases n,
{
    lemma_switch_facts(modes, n);
    lemma_constant_between(modes, n, k);
}

proof fn lemma_switch_facts(modes: Seq<CollatzMode>, n: int)
    requires
        0 <= n <= modes.len(),
        modes.len() <= usize::MAX,
    ensures
        forall|k: int| 0 <= k < switches_upto(modes, n).len() ==> {
            let c = #[trigger] switches_upto(modes, n)[k];
            &&& 1 <= c.at < n
            &&& c.from == modes[c.at - 1]
            &&& c.to == modes[c.at as int]
            &&& modes[c.at as int] != modes[c.at - 1]
        },
        forall|j: int, k: int| 0 <= j < k < switches_upto(modes, n).len() ==> #[trigger] switches_upto(modes, n)[j].at < #[trigger] switches_upto(modes, n)[k].at,
    decreases n,
{
    if n > 1 {
        lemma_switch_facts(modes, n - 1);
        let rest = switches_upto(modes, n - 1);
        let s = switches_upto(modes, n);
        if modes[n - 1] != modes[n - 2] {
            let c = ModeChange { at: (n - 1) as usize, from: modes[n - 2], to: modes[n - 1] };
            assert(s == rest.push(c));
            assert forall|k: int| 0 <= k < s.len() implies {
                let d = #[trigger] s[k];
                &&& 1 <= d.at < n
                &&& d.from == modes[d.at - 1]
                &&& d.to == modes[d.at as int]
                &&& modes[d.at as int] != modes[d.at - 1]
            } by {
                if k < rest.len() {
                    assert(s[k] == rest[k]);
                } else {
                    assert(s[k] == c);
                }
            }
            assert forall|j: int, k: int| 0 <= j < k < s.len() implies #[trigger] s[j].at < #[trigger] s[k].at by {
                assert(s[j] == rest[j]);
                if k < rest.len() {
                    assert(s[k] == rest[k]);
                } else {
                    assert(s[k] == c);
                }
            }
        } else {
            assert(s == rest);
        }
    }
}

/// Between two consecutive switches the mode does not change.
proof fn lemma_constant_between(modes: Seq<CollatzMode>, n: int, k: int)
    requires
        0 <= n <= modes.len(),
        modes.len() <= usize::MAX,
        0 < k < switches_upto(modes, n).len(),
    ensures
        modes[switches_upto(modes, n)[k].at - 1] == modes[switches_upto(modes, n)[k - 1].at as int],
    decreases n,
{
    lemma_switch_facts(modes, n);
    let s = switches_upto(modes, n);
    if n > 1 {
        let rest = switches_upto(modes, n - 1);
        if modes[n - 1] != modes[n - 2] && k == s.len() - 1 {
            // the last switch is at n - 1; the one before is the last of `rest`
            assert(s[k - 1] == rest[k - 1]);
            lemma_no_switch_after(modes, n - 1, rest[k - 1].at as int);
        } else {
            assert(k < rest.len());
            assert(s[k] == rest[k] && s[k - 1] == rest[k - 1]);
            lemma_constant_between(modes, n - 1, k);
        }
    }
}

/// After the last switch among the first `n` decisions, the mode stays that
/// of the switch up to decision `n - 1`.
proof fn lemma_no_switch_after(modes: Seq<CollatzMode>, n: int, a: int)
    requires
        0 <= n <= modes.len(),
        modes.len() <= usize::MAX,
        switches_upto(modes, n).len() > 0,
        a == switches_upto(modes, n).last().at,
    ensures
        modes[n - 1] == modes[a],
    decreases n,
{
    lemma_switch_facts(modes, n);
    let rest = switches_upto(modes, n - 1);
    if modes[n - 1] != modes[n - 2] {
        assert(a == n - 1);
    } else {
        assert(switches_upto(modes, n) == rest);
        lemma_no_switch_after(modes, n - 1, a);
    }
}

} // verus!
