//! The subsequence relation between tokens, and the fuzzy index that answers
//! "which identities hold a token of which this query is a subsequence".
use vstd::prelude::*;

use crate::todo_list::Index;

verus! {

/// `f` picks, for each character of `q` in turn, a position of `s` holding
/// that character, the positions strictly increasing.
pub open spec fn is_embedding(q: Seq<char>, s: Seq<char>, f: Seq<int>) -> bool {
    &&& f.len() == q.len()
    &&& forall|i: int| 0 <= i < f.len() ==> 0 <= #[trigger] f[i] < s.len() && s[f[i]] == q[i]
    &&& forall|i: int, j: int| 0 <= i < j < f.len() ==> #[trigger] f[i] < #[trigger] f[j]
}

/// `q` is obtained from `s` by deleting zero or more characters without
/// reordering the rest.
pub open spec fn is_subsequence(q: Seq<char>, s: Seq<char>) -> bool {
    exists|f: Seq<int>| is_embedding(q, s, f)
}

/// The empty token is a subsequence of every token.
pub proof fn lemma_empty_is_subsequence(s: Seq<char>)
    ensures
        is_subsequence(Seq::empty(), s),
{
    assert(is_embedding(Seq::empty(), s, Seq::empty()));
}

/// Every token is a subsequence of itself.
pub proof fn lemma_subsequence_reflexive(s: Seq<char>)
    ensures
        is_subsequence(s, s),
{
    let f = Seq::new(s.len(), |i: int| i);
    assert(is_embedding(s, s, f));
}

proof fn lemma_nothing_in_empty(q: Seq<char>)
    requires
        q.len() > 0,
    ensures
        !is_subsequence(q, Seq::empty()),
{
    if is_subsequence(q, Seq::empty()) {
        let f = choose|f: Seq<int>| is_embedding(q, Seq::<char>::empty(), f);
        assert(f.len() > 0);
        assert(0 <= f[0] < Seq::<char>::empty().len());
    }
}

/// Dropping the first character of `s` loses no embedding that avoids it.
proof fn lemma_skip_head(q: Seq<char>, s: Seq<char>)
    requires
        s.len() > 0,
        q.len() == 0 || q[0] != s[0],
    ensures
        is_subsequence(q, s) == is_subsequence(q, s.drop_first()),
{
    let t = s.drop_first();
    if is_subsequence(q, s) {
        let f = choose|f: Seq<int>| is_embedding(q, s, f);
        let g = Seq::new(f.len(), |i: int| f[i] - 1);
        assert forall|i: int| 0 <= i < g.len() implies 0 <= #[trigger] g[i] < t.len() && t[g[i]]
            == q[i] by {
            if i > 0 {
                assert(f[0] < f[i]);
            }
            assert(f[0] != 0);
        }
        assert forall|i: int, j: int| 0 <= i < j < g.len() implies #[trigger] g[i] < #[trigger] g[j] by {
            assert(f[i] < f[j]);
        }
        assert(is_embedding(q, t, g));
    }
    if is_subsequence(q, t) {
        let g = choose|g: Seq<int>| is_embedding(q, t, g);
        let f = Seq::new(g.len(), |i: int| g[i] + 1);
        assert forall|i: int, j: int| 0 <= i < j < f.len() implies #[trigger] f[i] < #[trigger] f[j] by {
            assert(g[i] < g[j]);
        }
        assert forall|i: int| 0 <= i < f.len() implies 0 <= #[trigger] f[i] < s.len() && s[f[i]]
            == q[i] by {
            assert(0 <= g[i] < t.len());
        }
        assert(is_embedding(q, s, f));
    }
}

/// When the first characters agree, they may be matched with each other.
proof fn lemma_match_head(q: Seq<char>, s: Seq<char>)
    requires
        s.len() > 0,
        q.len() > 0,
        q[0] == s[0],
    ensures
        is_subsequence(q, s) == is_subsequence(q.drop_first(), s.drop_first()),
{
    let p = q.drop_first();
    let t = s.drop_first();
    if is_subsequence(q, s) {
        let f = choose|f: Seq<int>| is_embedding(q, s, f);
        let g = Seq::new(p.len(), |i: int| f[i + 1] - 1);
        assert forall|i: int| 0 <= i < g.len() implies 0 <= #[trigger] g[i] < t.len() && t[g[i]]
            == p[i] by {
            assert(f[0] < f[i + 1]);
            assert(0 <= f[0]);
            assert(0 <= f[i + 1] < s.len());
        }
        assert forall|i: int, j: int| 0 <= i < j < g.len() implies #[trigger] g[i] < #[trigger] g[j] by {
            assert(f[i + 1] < f[j + 1]);
        }
        assert(is_embedding(p, t, g));
    }
    if is_subsequence(p, t) {
        let g = choose|g: Seq<int>| is_embedding(p, t, g);
        let f = Seq::new(q.len(), |i: int| if i == 0 { 0 } else { g[i - 1] + 1 });
        assert forall|i: int| 0 <= i < f.len() implies 0 <= #[trigger] f[i] < s.len() && s[f[i]]
            == q[i] by {
            if i > 0 {
                assert(0 <= g[i - 1] < t.len());
            }
        }
        assert forall|i: int, j: int| 0 <= i < j < f.len() implies #[trigger] f[i] < #[trigger] f[j] by {
            if i > 0 {
                assert(g[i - 1] < g[j - 1]);
            } else {
                assert(0 <= g[j - 1]);
            }
        }
        assert(is_embedding(q, s, f));
    }
}

/// Tests whether `q` is a subsequence of `s`, matching each character of
/// `q` with the earliest position still available.
pub fn is_subsequence_of(q: &Vec<char>, s: &Vec<char>) -> (r: bool)
    ensures
        r == is_subsequence(q@, s@),
{
    let mut i: usize = 0;
    let mut j: usize = 0;
    assert(q@.skip(0) =~= q@);
    assert(s@.skip(0) =~= s@);
    while i < q.len() && j < s.len()
        invariant
            i <= q.len(),
            j <= s.len(),
            is_subsequence(q@, s@) == is_subsequence(q@.skip(i as int), s@.skip(j as int)),
        decreases s.len() - j,
    {
        let ghost qs = q@.skip(i as int);
        let ghost ss = s@.skip(j as int);
        assert(ss.drop_first() =~= s@.skip(j + 1));
        if q[i] == s[j] {
            proof {
                lemma_match_head(qs, ss);
                assert(qs.drop_first() =~= q@.skip(i + 1));
            }
            i = i + 1;
        } else {
            proof {
                lemma_skip_head(qs, ss);
            }
        }
        j = j + 1;
    }
    proof {
        if i == q.len() {
            assert(q@.skip(i as int) =~= Seq::empty());
            lemma_empty_is_subsequence(s@.skip(j as int));
        } else {
            assert(s@.skip(j as int) =~= Seq::empty());
            lemma_nothing_in_empty(q@.skip(i as int));
        }
    }
    i == q.len()
}

/// The characters of `s`, in order.
pub fn chars_of(s: &str) -> (r: Vec<char>)
    ensures
        r@ == s@,
{
    let mut r: Vec<char> = Vec::new();
    for c in it: s.chars()
        invariant
            it.seq() == s@,
            r@ == s@.take(it.index() as int),
    {
        r.push(c);
        proof {
            assert(r@ =~= s@.take(it.index() + 1));
        }
    }
    assert(r@ =~= s@);
    r
}

/// `r` holds an index of identity `id`.
pub open spec fn contains_id(r: Seq<Index>, id: int) -> bool {
    exists|m: int| 0 <= m < r.len() && (#[trigger] r[m]).0 == id
}

/// One token registered under an identity.
pub struct IndexedToken {
    pub index: Index,
    pub token: Vec<char>,
}

/// Tokens registered under identities. A query token matches an identity
/// when it is a subsequence of one of the tokens registered under it; the
/// relation is tested when the query is asked.
pub struct FuzzyIndex {
    entries: Vec<IndexedToken>,
}

impl View for FuzzyIndex {
    type V = Seq<(u64, Seq<char>)>;

    /// The registered (identity, token) pairs, in order of registration.
    closed spec fn view(&self) -> Seq<(u64, Seq<char>)> {
        self.entries@.map_values(|e: IndexedToken| (e.index.0, e.token@))
    }
}

impl FuzzyIndex {
    /// `q` matches `id`: it is a subsequence of a token registered under `id`.
    pub open spec fn matches(&self, q: Seq<char>, id: u64) -> bool {
        self.matches_within(q, id, self@.len() as int)
    }

    /// `q` matches `id` through one of the first `n` registered tokens.
    pub open spec fn matches_within(&self, q: Seq<char>, id: u64, n: int) -> bool {
        exists|k: int| 0 <= k < n && self@[k].0 == id && #[trigger] is_subsequence(q, self@[k].1)
    }

    /// Identities are registered in nondecreasing order.
    pub open spec fn wf(&self) -> bool {
        forall|i: int, j: int| 0 <= i < j < self@.len() ==> #[trigger] self@[i].0 <= #[trigger] self@[j].0
    }

    pub fn new() -> (r: FuzzyIndex)
        ensures
            r@ == Seq::<(u64, Seq<char>)>::empty(),
    {
        let r = FuzzyIndex { entries: Vec::new() };
        assert(r@ =~= Seq::<(u64, Seq<char>)>::empty());
        r
    }

    /// Registers `token` under `idx`.
    pub fn insert(&mut self, idx: Index, token: &str)
        ensures
            final(self)@ == old(self)@.push((idx.0, token@)),
    {
        let token = chars_of(token);
        self.entries.push(IndexedToken { index: idx, token });
        assert(self@ =~= old(self)@.push((idx.0, token@)));
    }

    /// The identities that `q` matches, in strictly increasing order.
    pub fn lookup(&self, q: &str) -> (r: Vec<Index>)
        requires
            self.wf(),
        ensures
            forall|i: int, j: int| 0 <= i < j < r@.len() ==> (#[trigger] r@[i]).0 < (#[trigger] r@[j]).0,
            forall|id: u64| #[trigger] self.matches(q@, id) <==> contains_id(r@, id as int),
    {
        let q = chars_of(q);
        let mut r: Vec<Index> = Vec::new();
        let mut k: usize = 0;
        while k < self.entries.len()
            invariant
                self.wf(),
                k <= self@.len(),
                self@.len() == self.entries@.len(),
                forall|i: int, j: int| 0 <= i < j < r@.len() ==> (#[trigger] r@[i]).0 < (#[trigger] r@[j]).0,
                forall|m: int| 0 <= m < r@.len() ==> exists|e: int| 0 <= e < k && self@[e].0 == (#[trigger] r@[m]).0,
                forall|id: u64| #[trigger] self.matches_within(q@, id, k as int) <==> contains_id(r@, id as int),
            decreases self.entries.len() - k,
        {
            let e = &self.entries[k];
            assert(self@[k as int] == (e.index.0, e.token@));
            let ghost r0 = r@;
            let hit = is_subsequence_of(&q, &e.token);
            let fresh = r.len() == 0 || r[r.len() - 1].0 != e.index.0;
            if hit && fresh {
                proof {
                    if r@.len() > 0 {
                        let last = r@[r@.len() - 1];
                        let w = choose|w: int| 0 <= w < k && self@[w].0 == last.0;
                        assert(self@[w].0 <= self@[k as int].0);
                    }
                }
                r.push(e.index);
            }
            proof {
                let idk = self@[k as int].0;
                assert forall|m: int| 0 <= m < r@.len() implies exists|e: int| 0 <= e < k + 1 && self@[e].0 == (#[trigger] r@[m]).0 by {
                    if m < r0.len() {
                        assert(r@[m] == r0[m]);
                    } else {
                        assert(self@[k as int].0 == r@[m].0);
                    }
                }
                assert forall|id: u64| #[trigger] self.matches_within(q@, id, k + 1) <==> contains_id(r@, id as int) by {
                    if contains_id(r0, id as int) {
                        let m = choose|m: int| 0 <= m < r0.len() && (#[trigger] r0[m]).0 == id;
                        assert(r@[m] == r0[m]);
                    }
                    if contains_id(r@, id as int) && !contains_id(r0, id as int) {
                        let m = choose|m: int| 0 <= m < r@.len() && (#[trigger] r@[m]).0 == id;
                        if m < r0.len() {
                            assert(r0[m] == r@[m]);
                        }
                        assert(is_subsequence(q@, self@[k as int].1));
                        assert(self.matches_within(q@, id, k + 1));
                    }
                    if self.matches_within(q@, id, k + 1) && !self.matches_within(q@, id, k as int) {
                        assert(is_subsequence(q@, self@[k as int].1) && idk == id);
                        if !fresh {
                            assert(r0[r0.len() - 1].0 == id);
                        } else {
                            assert(r@[r@.len() - 1].0 == id);
                        }
                    }
                    if self.matches_within(q@, id, k as int) {
                        let e = choose|e: int| 0 <= e < k && self@[e].0 == id && #[trigger] is_subsequence(q@, self@[e].1);
                        assert(self.matches_within(q@, id, k + 1));
                    }
                }
            }
            k = k + 1;
        }
        r
    }
}

/// A token registered alone under `id` is found by a query exactly when the
/// query is a subsequence of it; the empty query and the token itself are
/// always among those.
pub proof fn lemma_token_found_by_its_subsequences(ix: FuzzyIndex, id: u64, s: Seq<char>, q: Seq<char>)
    requires
        ix@ == seq![(id, s)],
    ensures
        ix.matches(q, id) <==> is_subsequence(q, s),
        ix.matches(Seq::empty(), id),
        ix.matches(s, id),
{
    assert(ix@[0] == (id, s));
    lemma_empty_is_subsequence(s);
    lemma_subsequence_reflexive(s);
    assert(is_subsequence(Seq::<char>::empty(), ix@[0].1));
    assert(is_subsequence(s, ix@[0].1));
    if is_subsequence(q, s) {
        assert(is_subsequence(q, ix@[0].1));
    }
}

} // verus!