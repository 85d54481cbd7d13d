//! One backend worker: stable identity, mutable health and load state, and a
//! bounded affinity index of recently served prompts for cache-aware routing.

use vstd::prelude::*;

verus! {

/// A backend inference server as the pool tracks it.
///
/// Identity is the stable `id`, never a position in the pool. `removed` marks
/// a worker whose removal is deferred because dispatches still reference it;
/// such a worker is excluded from every selection but keeps draining its
/// in-flight requests. `entries` is the affinity index: the prompts most
/// recently served here, oldest first, bounded by the configured node budget.
pub struct Worker {
    pub id: u64,
    pub url: String,
    pub healthy: bool,
    pub removed: bool,
    pub inflight: u64,
    pub fail_streak: u64,
    pub ok_streak: u64,
    pub entries: Vec<Vec<u8>>,
}

/// Length of the longest common prefix of two byte sequences.
pub open spec fn lcp(a: Seq<u8>, b: Seq<u8>) -> nat
    decreases a.len(),
{
    if a.len() == 0 || b.len() == 0 || a[0] != b[0] {
        0
    } else {
        1 + lcp(a.skip(1), b.skip(1))
    }
}

/// `lcp(a, b)` is a common-prefix length bounded by both sequences, and is
/// maximal: the very next positions, when they exist, disagree.
pub proof fn lemma_lcp_properties(a: Seq<u8>, b: Seq<u8>)
    ensures
        lcp(a, b) <= a.len(),
        lcp(a, b) <= b.len(),
        forall|i: int| 0 <= i < lcp(a, b) ==> a[i] == b[i],
        lcp(a, b) < a.len() && lcp(a, b) < b.len() ==> a[lcp(a, b) as int] != b[lcp(a, b) as int],
    decreases a.len(),
{
    if a.len() == 0 || b.len() == 0 || a[0] != b[0] {
    } else {
        lemma_lcp_properties(a.skip(1), b.skip(1));
        let l = lcp(a, b);
        assert forall|i: int| 0 <= i < l implies a[i] == b[i] by {
            if i > 0 {
                assert(a.skip(1)[i - 1] == a[i]);
                assert(b.skip(1)[i - 1] == b[i]);
            }
        }
        if l < a.len() && l < b.len() {
            assert(a.skip(1)[l - 1] == a[l as int]);
            assert(b.skip(1)[l - 1] == b[l as int]);
        }
    }
}

/// Any length with the three properties of `lemma_lcp_properties` is `lcp(a, b)`.
pub proof fn lemma_lcp_unique(a: Seq<u8>, b: Seq<u8>, n: nat)
    requires
        n <= a.len(),
        n <= b.len(),
        forall|i: int| 0 <= i < n ==> a[i] == b[i],
        n < a.len() && n < b.len() ==> a[n as int] != b[n as int],
    ensures
        n == lcp(a, b),
{
    lemma_lcp_properties(a, b);
    let l = lcp(a, b);
    if n < l {
        assert(a[n as int] == b[n as int]);
    } else if l < n {
        assert(a[l as int] == b[l as int]);
    }
}

/// Length of the longest common prefix of two byte strings.
pub fn longest_common_prefix(a: &[u8], b: &[u8]) -> (r: usize)
    ensures
        r == lcp(a@, b@),
{
    let mut i: usize = 0;
    while i < a.len() && i < b.len() && a[i] == b[i]
        invariant
            i <= a@.len(),
            i <= b@.len(),
            forall|j: int| 0 <= j < i ==> a@[j] == b@[j],
        decreases a@.len() - i,
    {
        i = i + 1;
    }
    proof {
        lemma_lcp_unique(a@, b@, i as nat);
    }
    i
}

/// The byte strings stored in an affinity index, in storage order.
pub open spec fn entry_views(es: Seq<Vec<u8>>) -> Seq<Seq<u8>> {
    es.map_values(|e: Vec<u8>| e@)
}

/// No byte string occurs twice in the index.
pub open spec fn distinct_entries(vs: Seq<Seq<u8>>) -> bool {
    forall|i: int, j: int| 0 <= i < j < vs.len() ==> vs[i] != vs[j]
}

/// The best affinity-index match for a prompt: the maximum, over the stored
/// entries, of the longest common prefix with the prompt. Zero on an empty
/// index.
pub open spec fn best_match_len(vs: Seq<Seq<u8>>, p: Seq<u8>) -> nat
    decreases vs.len(),
{
    if vs.len() == 0 {
        0
    } else {
        let rest = best_match_len(vs.drop_last(), p);
        let last = lcp(vs.last(), p);
        if last > rest {
            last
        } else {
            rest
        }
    }
}

/// The best match dominates the match of every single entry.
pub proof fn lemma_best_match_ge(vs: Seq<Seq<u8>>, p: Seq<u8>, j: int)
    requires
        0 <= j < vs.len(),
    ensures
        best_match_len(vs, p) >= lcp(vs[j], p),
    decreases vs.len(),
{
    if j < vs.len() - 1 {
        lemma_best_match_ge(vs.drop_last(), p, j);
    }
}

/// On a non-empty index the best match is attained by some entry.
pub proof fn lemma_best_match_attained(vs: Seq<Seq<u8>>, p: Seq<u8>)
    requires
        vs.len() > 0,
    ensures
        exists|j: int| 0 <= j < vs.len() && best_match_len(vs, p) == lcp(vs[j], p),
    decreases vs.len(),
{
    if vs.len() == 1 {
        assert(vs.last() == vs[0]);
        assert(vs.drop_last().len() == 0);
        assert(best_match_len(vs.drop_last(), p) == 0);
        assert(best_match_len(vs, p) == lcp(vs[0], p));
    } else {
        let rest = best_match_len(vs.drop_last(), p);
        let last = lcp(vs.last(), p);
        if last > rest {
            assert(best_match_len(vs, p) == lcp(vs[vs.len() - 1], p));
        } else {
            lemma_best_match_attained(vs.drop_last(), p);
            let j = choose|j: int| 0 <= j < vs.len() - 1 && rest == lcp(vs.drop_last()[j], p);
            assert(vs.drop_last()[j] == vs[j]);
            assert(best_match_len(vs, p) == lcp(vs[j], p));
        }
    }
}

/// How one prompt enters a bounded affinity index, most recent last.
///
/// A prompt already present moves to the most-recent end; a new prompt is
/// appended, evicting the least recently used entry (the front) once the
/// index is at its node budget. A budget of zero disables the index.
pub open spec fn spec_insert_entry(vs: Seq<Seq<u8>>, p: Seq<u8>, cap: nat) -> Seq<Seq<u8>> {
    if cap == 0 {
        vs
    } else if vs.contains(p) {
        let j = choose|j: int| 0 <= j < vs.len() && vs[j] == p;
        vs.remove(j).push(p)
    } else if vs.len() >= cap {
        vs.skip(1).push(p)
    } else {
        vs.push(p)
    }
}

/// Byte-for-byte equality of two byte strings.
pub fn bytes_eq(a: &[u8], b: &[u8]) -> (r: bool)
    ensures
        r == (a@ == b@),
{
    if a.len() != b.len() {
        proof {
            assert(a@.len() != b@.len());
        }
        return false;
    }
    let mut i: usize = 0;
    while i < a.len()
        invariant
            i <= a@.len(),
            a@.len() == b@.len(),
            forall|j: int| 0 <= j < i ==> a@[j] == b@[j],
        decreases a@.len() - i,
    {
        if a[i] != b[i] {
            return false;
        }
        i = i + 1;
    }
    proof {
        assert(a@ =~= b@);
    }
    true
}

impl Worker {
    /// The best affinity match this worker offers for a prompt.
    pub open spec fn match_len(self, p: Seq<u8>) -> nat {
        best_match_len(entry_views(self.entries@), p)
    }

    /// Length of the longest common prefix between the prompt and any entry
    /// of this worker's affinity index.
    pub fn best_match(&self, prompt: &[u8]) -> (r: usize)
        ensures
            r == self.match_len(prompt@),
    {
        let ghost vs = entry_views(self.entries@);
        let mut best: usize = 0;
        let mut k: usize = 0;
        while k < self.entries.len()
            invariant
                k <= vs.len(),
                vs == entry_views(self.entries@),
                vs.len() == self.entries@.len(),
                best == best_match_len(vs.take(k as int), prompt@),
                best <= prompt@.len(),
            decreases vs.len() - k,
        {
            let m = longest_common_prefix(self.entries[k].as_slice(), prompt);
            proof {
                lemma_lcp_properties(vs[k as int], prompt@);
                assert(vs.take(k + 1).drop_last() =~= vs.take(k as int));
                assert(vs.take(k + 1).last() == vs[k as int]);
            }
            if m > best {
                best = m;
            }
            k = k + 1;
        }
        proof {
            assert(vs.take(vs.len() as int) =~= vs);
        }
        best
    }

    /// Record a successfully served prompt in this worker's affinity index,
    /// evicting the least recently used entry when the node budget `cap` is
    /// full. Only the index changes; identity, health and load are untouched.
    #[verifier::loop_isolation(false)]
    pub fn record_prompt(&mut self, prompt: &Vec<u8>, cap: usize)
        requires
            distinct_entries(entry_views(old(self).entries@)),
        ensures
            entry_views(final(self).entries@) == spec_insert_entry(
                entry_views(old(self).entries@),
                prompt@,
                cap as nat,
            ),
            distinct_entries(entry_views(final(self).entries@)),
            old(self).entries@.len() <= cap ==> final(self).entries@.len() <= cap,
            final(self).id == old(self).id,
            final(self).url == old(self).url,
            final(self).healthy == old(self).healthy,
            final(self).removed == old(self).removed,
            final(self).inflight == old(self).inflight,
            final(self).fail_streak == old(self).fail_streak,
            final(self).ok_streak == old(self).ok_streak,
    {
        let ghost vs = entry_views(old(self).entries@);
        if cap == 0 {
            return;
        }
        let mut k: usize = 0;
        let n = self.entries.len();
        while k < n
            invariant
                k <= vs.len(),
                n == vs.len(),
                vs == entry_views(self.entries@),
                *self == *old(self),
                forall|j: int| 0 <= j < k ==> vs[j] != prompt@,
            decreases vs.len() - k,
        {
            if bytes_eq(self.entries[k].as_slice(), prompt.as_slice()) {
                proof {
                    assert(vs[k as int] == prompt@);
                    assert(vs.contains(prompt@));
                    let jc = choose|j: int| 0 <= j < vs.len() && vs[j] == prompt@;
                    assert(distinct_entries(vs));
                    assert(jc == k as int);
                }
                let e = self.entries.remove(k);
                self.entries.push(e);
                proof {
                    let after = entry_views(self.entries@);
                    let want = vs.remove(k as int).push(prompt@);
                    assert(after =~= want);
                    assert forall|i: int, j: int|
                        0 <= i < j < after.len() implies after[i] != after[j] by {
                        assert(forall|m: int|
                            0 <= m < vs.remove(k as int).len() ==> vs.remove(k as int)[m] != prompt@);
                    }
                }
                return;
            }
            k = k + 1;
        }
        proof {
            assert(!vs.contains(prompt@));
        }
        if self.entries.len() >= cap {
            let _evicted = self.entries.remove(0);
            self.entries.push(prompt.clone());
            proof {
                let after = entry_views(self.entries@);
                let want = vs.skip(1).push(prompt@);
                assert(vs.remove(0) =~= vs.skip(1));
                assert(after =~= want);
                assert forall|i: int, j: int|
                    0 <= i < j < after.len() implies after[i] != after[j] by {
                    assert(forall|m: int| 0 <= m < vs.skip(1).len() ==> vs.skip(1)[m] == vs[m + 1]);
                }
            }
        } else {
            self.entries.push(prompt.clone());
            proof {
                let after = entry_views(self.entries@);
                assert(after =~= vs.push(prompt@));
            }
        }
    }
}

} // verus!
