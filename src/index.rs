use vstd::prelude::*;

verus! {

/// One image record: its identifier and the descriptor derived from its content.
pub struct Record {
    pub id: u64,
    pub signature: Vec<u8>,
}

/// One ranked search result.
#[derive(Clone, Copy, Debug, PartialEq, Eq, Structural)]
pub struct Match {
    pub id: u64,
    pub score: u64,
}

/// The abstract content of an index: identifier and descriptor, in storage order.
pub type Entries = Seq<(u64, Seq<u8>)>;

/// Number of positions below `n` at which the two descriptors agree.
pub open spec fn agree_upto(q: Seq<u8>, d: Seq<u8>, n: nat) -> nat
    decreases n,
{
    if n == 0 {
        0
    } else {
        agree_upto(q, d, (n - 1) as nat) + (if q[n - 1] == d[n - 1] {
            1nat
        } else {
            0nat
        })
    }
}

/// Similarity of a descriptor `d` to the query `q`: the number of positions, within
/// the shorter of the two, at which they agree.
pub open spec fn score(q: Seq<u8>, d: Seq<u8>) -> nat {
    agree_upto(q, d, if q.len() <= d.len() { q.len() } else { d.len() })
}

/// A descriptor never scores above the query's own length.
pub proof fn lemma_score_bound(q: Seq<u8>, d: Seq<u8>)
    ensures
        score(q, d) <= q.len(),
        score(q, q) == q.len(),
{
    lemma_agree_bound(q, d, if q.len() <= d.len() { q.len() } else { d.len() });
    lemma_agree_self(q, q.len());
}

proof fn lemma_agree_bound(q: Seq<u8>, d: Seq<u8>, n: nat)
    ensures
        agree_upto(q, d, n) <= n,
    decreases n,
{
    if n > 0 {
        lemma_agree_bound(q, d, (n - 1) as nat);
    }
}

proof fn lemma_agree_self(q: Seq<u8>, n: nat)
    ensures
        agree_upto(q, q, n) == n,
    decreases n,
{
    if n > 0 {
        lemma_agree_self(q, (n - 1) as nat);
    }
}

/// Number of `false` flags.
pub open spec fn count_false(s: Seq<bool>) -> nat
    decreases s.len(),
{
    if s.len() == 0 {
        0
    } else {
        count_false(s.drop_last()) + (if s.last() {
            0nat
        } else {
            1nat
        })
    }
}

proof fn lemma_count_false_flip(s: Seq<bool>, b: int)
    requires
        0 <= b < s.len(),
        !s[b],
    ensures
        count_false(s.update(b, true)) + 1 == count_false(s),
    decreases s.len(),
{
    let t = s.update(b, true);
    if b < s.len() - 1 {
        assert(t.drop_last() =~= s.drop_last().update(b, true));
        lemma_count_false_flip(s.drop_last(), b);
    } else {
        assert(t.drop_last() =~= s.drop_last());
    }
}

/// Whether some entry carries `id`.
pub open spec fn has_id(s: Entries, id: u64) -> bool {
    exists|i: int| 0 <= i < s.len() && s[i].0 == id
}

/// No identifier occurs twice.
pub open spec fn unique_ids(s: Entries) -> bool {
    forall|i: int, j: int| 0 <= i < s.len() && 0 <= j < s.len() && i != j ==> s[i].0 != s[j].0
}

/// The entries after inserting `id` with `sig`: an existing entry is replaced in
/// place, a new one is appended.
pub open spec fn upsert(s: Entries, id: u64, sig: Seq<u8>) -> Entries {
    if has_id(s, id) {
        let i = choose|i: int| 0 <= i < s.len() && s[i].0 == id;
        s.update(i, (id, sig))
    } else {
        s.push((id, sig))
    }
}

/// The entries after removing `id`; unchanged when `id` is absent.
pub open spec fn without(s: Entries, id: u64) -> Entries {
    if has_id(s, id) {
        let i = choose|i: int| 0 <= i < s.len() && s[i].0 == id;
        s.remove(i)
    } else {
        s
    }
}

/// The entries obtained by inserting `rs` one after the other into an empty index.
pub open spec fn built(rs: Entries) -> Entries
    decreases rs.len(),
{
    if rs.len() == 0 {
        Seq::empty()
    } else {
        upsert(built(rs.drop_last()), rs.last().0, rs.last().1)
    }
}

/// Whether `id` is among the results `r`.
pub open spec fn returns_id(r: Seq<Match>, id: u64) -> bool {
    exists|i: int| 0 <= i < r.len() && r[i].id == id
}

/// `m` names an entry of `s` together with its score against `q`.
pub open spec fn is_scored_entry(s: Entries, q: Seq<u8>, m: Match) -> bool {
    exists|j: int| 0 <= j < s.len() && s[j].0 == m.id && m.score == score(q, s[j].1)
}

/// `r` is a ranking of the entries `s` against the descriptor `q`, cut at `limit`:
/// every result is an entry with its true score, no entry comes twice, scores do not
/// increase along `r`, and every entry left out scores no higher than any result.
/// The list is only shorter than `limit` when it holds every entry.
pub open spec fn is_ranking(s: Entries, q: Seq<u8>, limit: nat, r: Seq<Match>) -> bool {
    &&& r.len() <= limit
    &&& r.len() <= s.len()
    &&& forall|i: int| 0 <= i < r.len() ==> is_scored_entry(s, q, #[trigger] r[i])
    &&& forall|i: int, k: int| 0 <= i < k < r.len() ==> r[i].id != r[k].id
    &&& forall|i: int, k: int| 0 <= i < k < r.len() ==> r[i].score >= r[k].score
    &&& forall|j: int, i: int|
        0 <= j < s.len() && !returns_id(r, s[j].0) && 0 <= i < r.len() ==> score(q, s[j].1)
            <= r[i].score
    &&& r.len() < limit ==> forall|j: int| 0 <= j < s.len() ==> returns_id(r, #[trigger] s[j].0)
}

/// The abstract content of a sequence of records.
pub open spec fn entries_of(rs: Seq<Record>) -> Entries {
    rs.map_values(|x: Record| (x.id, x.signature@))
}

/// The in-memory index: the searchable set of records, each identifier at most once.
pub struct Index {
    entries: Vec<Record>,
}

impl Index {
    pub closed spec fn view(&self) -> Entries {
        entries_of(self.entries@)
    }

    pub open spec fn wf(&self) -> bool {
        unique_ids(self@)
    }

    /// An empty index.
    pub fn new() -> (r: Index)
        ensures
            r.wf(),
            r@ == Seq::<(u64, Seq<u8>)>::empty(),
    {
        Index { entries: Vec::new() }
    }

    /// Number of records held.
    pub fn len(&self) -> (n: usize)
        ensures
            n == self@.len(),
    {
        self.entries.len()
    }

    /// Position of the record carrying `id`.
    pub fn position(&self, id: u64) -> (r: Option<usize>)
        ensures
            match r {
                Some(i) => i < self@.len() && self@[i as int].0 == id,
                None => !has_id(self@, id),
            },
    {
        let mut i: usize = 0;
        while i < self.entries.len()
            invariant
                i <= self.entries.len(),
                forall|j: int| 0 <= j < i ==> self@[j].0 != id,
            decreases self.entries.len() - i,
        {
            if self.entries[i].id == id {
                return Some(i);
            }
            i = i + 1;
        }
        None
    }

    /// Whether a record carries `id`.
    pub fn contains(&self, id: u64) -> (r: bool)
        ensures
            r == has_id(self@, id),
    {
        self.position(id).is_some()
    }

    /// Inserts the record `id` with descriptor `sig`, replacing an existing record
    /// with that identifier in place.
    pub fn insert(&mut self, id: u64, sig: Vec<u8>)
        requires
            old(self).wf(),
        ensures
            final(self).wf(),
            final(self)@ == upsert(old(self)@, id, sig@),
    {
        let ghost s = self@;
        let ghost sv = sig@;
        match self.position(id) {
            Some(i) => {
                proof {
                    let k = choose|k: int| 0 <= k < s.len() && s[k].0 == id;
                    assert(k == i as int);
                }
                self.entries[i] = Record { id, signature: sig };
                assert(self@ =~= s.update(i as int, (id, sv)));
            },
            None => {
                self.entries.push(Record { id, signature: sig });
                assert(self@ =~= s.push((id, sv)));
            },
        }
    }

    /// Removes the record `id`; reports whether there was one.
    pub fn remove(&mut self, id: u64) -> (found: bool)
        requires
            old(self).wf(),
        ensures
            final(self).wf(),
            found == has_id(old(self)@, id),
            final(self)@ == without(old(self)@, id),
    {
        let ghost s = self@;
        match self.position(id) {
            Some(i) => {
                proof {
                    let k = choose|k: int| 0 <= k < s.len() && s[k].0 == id;
                    assert(k == i as int);
                }
                let _ = self.entries.remove(i);
                assert(self@ =~= s.remove(i as int));
                assert forall|a: int, b: int|
                    0 <= a < self@.len() && 0 <= b < self@.len() && a != b implies self@[a].0
                    != self@[b].0 by {
                    let a2 = if a < i { a } else { a + 1 };
                    let b2 = if b < i { b } else { b + 1 };
                    assert(self@[a] == s[a2]);
                    assert(self@[b] == s[b2]);
                }
                true
            },
            None => false,
        }
    }

    /// The index holding `records`, inserted in order: a later record replaces an
    /// earlier one with the same identifier.
    pub fn build(records: Vec<Record>) -> (r: Index)
        ensures
            r.wf(),
            r@ == built(entries_of(records@)),
    {
        let ghost rs = entries_of(records@);
        let mut idx = Index::new();
        let mut i: usize = 0;
        while i < records.len()
            invariant
                i <= records@.len(),
                rs == entries_of(records@),
                idx.wf(),
                idx@ == built(rs.take(i as int)),
            decreases records.len() - i,
        {
            let sig = records[i].signature.clone();
            assert(sig@ =~= records@[i as int].signature@);
            idx.insert(records[i].id, sig);
            assert(rs.take(i + 1).drop_last() =~= rs.take(i as int));
            assert(rs.take(i + 1).last() == rs[i as int]);
            assert(rs[i as int] == (records@[i as int].id, records@[i as int].signature@));
            i = i + 1;
        }
        assert(rs.take(i as int) =~= rs);
        idx
    }

    /// The records ranked by similarity to `q`, best first, at most `limit` of them.
    pub fn query(&self, q: &Vec<u8>, limit: usize) -> (r: Vec<Match>)
        requires
            self.wf(),
        ensures
            is_ranking(self@, q@, limit as nat, r@),
    {
        let n = self.entries.len();
        let mut scores: Vec<u64> = Vec::new();
        let mut taken: Vec<bool> = Vec::new();
        let mut j: usize = 0;
        while j < n
            invariant
                n == self@.len(),
                j <= n,
                scores@.len() == j,
                taken@.len() == j,
                count_false(taken@) == j,
                forall|k: int| 0 <= k < j ==> !(#[trigger] taken@[k]),
                forall|k: int| 0 <= k < j ==> #[trigger] scores@[k] == score(q@, self@[k].1),
            decreases n - j,
        {
            let sc = score_of(q, &self.entries[j].signature);
            scores.push(sc);
            assert(taken@.push(false).drop_last() =~= taken@);
            taken.push(false);
            j = j + 1;
        }
        let mut r: Vec<Match> = Vec::new();
        let ghost mut picks: Seq<int> = Seq::empty();
        let mut done = false;
        while r.len() < limit && !done
            invariant
                done ==> forall|k: int| 0 <= k < n ==> #[trigger] taken@[k],
                n == self@.len(),
                self.wf(),
                scores@.len() == n,
                taken@.len() == n,
                forall|k: int| 0 <= k < n ==> #[trigger] scores@[k] == score(q@, self@[k].1),
                r@.len() <= limit,
                r@.len() + count_false(taken@) == n,
                picks.len() == r@.len(),
                forall|i: int|
                    0 <= i < r@.len() ==> 0 <= #[trigger] picks[i] < n && taken@[picks[i]]
                        && r@[i].id == self@[picks[i]].0 && r@[i].score == scores@[picks[i]],
                forall|k: int| 0 <= k < n && taken@[k] ==> returns_id(r@, #[trigger] self@[k].0),
                forall|i: int, k: int| 0 <= i < k < r@.len() ==> picks[i] != picks[k],
                forall|i: int, k: int| 0 <= i < k < r@.len() ==> r@[i].score >= r@[k].score,
                forall|k: int, i: int|
                    0 <= k < n && !taken@[k] && 0 <= i < r@.len() ==> scores@[k] <= r@[i].score,
            decreases count_false(taken@) + (if done { 0nat } else { 1nat }),
        {
            let mut best: Option<usize> = None;
            let mut k: usize = 0;
            while k < n
                invariant
                    n == self@.len(),
                    scores@.len() == n,
                    taken@.len() == n,
                    k <= n,
                    match best {
                        Some(b) => b < n && !taken@[b as int] && forall|m: int|
                            0 <= m < k && !taken@[m] ==> scores@[m] <= scores@[b as int],
                        None => forall|m: int| 0 <= m < k ==> taken@[m],
                    },
                decreases n - k,
            {
                if !taken[k] {
                    match best {
                        Some(b) => {
                            if scores[k] > scores[b] {
                                best = Some(k);
                            }
                        },
                        None => {
                            best = Some(k);
                        },
                    }
                }
                k = k + 1;
            }
            match best {
                None => {
                    done = true;
                },
                Some(b) => {
                    proof {
                        lemma_count_false_flip(taken@, b as int);
                    }
                    let ghost old_r = r@;
                    let ghost old_taken = taken@;
                    taken.set(b, true);
                    r.push(Match { id: self.entries[b].id, score: scores[b] });
                    proof {
                        picks = picks.push(b as int);
                        assert forall|k: int|
                            0 <= k < n && taken@[k] implies returns_id(r@, #[trigger] self@[k].0) by {
                            if k == b {
                                assert(r@[old_r.len() as int].id == self@[k].0);
                            } else {
                                assert(old_taken[k]);
                                let i = choose|i: int| 0 <= i < old_r.len() && old_r[i].id == self@[k].0;
                                assert(r@[i] == old_r[i]);
                            }
                        }
                        assert forall|i: int, k: int| 0 <= i < k < r@.len() implies picks[i] != picks[k] by {
                            if k == old_r.len() {
                                assert(old_taken[picks[i]]);
                            }
                        }
                    }
                },
            }
        }
        proof {
            let s = self@;
            assert forall|i: int, k: int| 0 <= i < k < r@.len() implies r@[i].id != r@[k].id by {
                assert(s[picks[i]].0 != s[picks[k]].0);
            }
            assert forall|i: int| 0 <= i < r@.len() implies is_scored_entry(self@, q@, #[trigger] r@[i]) by {
                let w = picks[i];
                assert(s[w].0 == r@[i].id);
                assert(scores@[w] == score(q@, s[w].1));
                assert(r@[i].score == score(q@, s[w].1));
            }
            assert forall|j: int, i: int|
                0 <= j < s.len() && !returns_id(r@, s[j].0) && 0 <= i < r@.len() implies score(q@, s[j].1)
                    <= r@[i].score by {
                if taken@[j] {
                    assert(returns_id(r@, s[j].0));
                }
                assert(scores@[j] == score(q@, s[j].1));
            }
            if r@.len() < limit {
                assert forall|j: int| 0 <= j < s.len() implies returns_id(r@, #[trigger] s[j].0) by {
                    assert(taken@[j]);
                }
            }
        }
        r
    }
}

/// Similarity of `d` to the query `q`.
pub fn score_of(q: &Vec<u8>, d: &Vec<u8>) -> (s: u64)
    ensures
        s == score(q@, d@),
{
    let m = if q.len() <= d.len() { q.len() } else { d.len() };
    let mut count: u64 = 0;
    let mut i: usize = 0;
    while i < m
        invariant
            m <= q@.len(),
            m <= d@.len(),
            m == (if q@.len() <= d@.len() { q@.len() } else { d@.len() }),
            i <= m,
            count == agree_upto(q@, d@, i as nat),
            count <= i,
        decreases m - i,
    {
        if q[i] == d[i] {
            count = count + 1;
        }
        i = i + 1;
    }
    count
}

proof fn lemma_upsert_holds(s: Entries, id: u64, sig: Seq<u8>)
    requires
        unique_ids(s),
    ensures
        unique_ids(upsert(s, id, sig)),
        exists|j: int|
            0 <= j < upsert(s, id, sig).len() && upsert(s, id, sig)[j] == (id, sig),
        forall|x: u64| has_id(upsert(s, id, sig), x) <==> (x == id || has_id(s, x)),
        upsert(s, id, sig).len() == s.len() + (if has_id(s, id) { 0int } else { 1int }),
{
    let t = upsert(s, id, sig);
    if has_id(s, id) {
        let i = choose|i: int| 0 <= i < s.len() && s[i].0 == id;
        assert(t[i] == (id, sig));
        assert forall|x: u64| has_id(t, x) <==> (x == id || has_id(s, x)) by {
            if has_id(s, x) {
                let k = choose|k: int| 0 <= k < s.len() && s[k].0 == x;
                assert(t[k].0 == x);
            }
            if has_id(t, x) {
                let k = choose|k: int| 0 <= k < t.len() && t[k].0 == x;
                assert(k == i || s[k].0 == x);
            }
        }
    } else {
        assert(t[s.len() as int] == (id, sig));
        assert forall|x: u64| has_id(t, x) <==> (x == id || has_id(s, x)) by {
            if has_id(s, x) {
                let k = choose|k: int| 0 <= k < s.len() && s[k].0 == x;
                assert(t[k].0 == x);
            }
            if has_id(t, x) {
                let k = choose|k: int| 0 <= k < t.len() && t[k].0 == x;
                assert(k == s.len() || s[k].0 == x);
            }
        }
    }
}

proof fn lemma_without_lacks(s: Entries, id: u64)
    requires
        unique_ids(s),
    ensures
        !has_id(without(s, id), id),
{
    if has_id(s, id) {
        let i = choose|i: int| 0 <= i < s.len() && s[i].0 == id;
        let t = s.remove(i);
        assert forall|k: int| 0 <= k < t.len() implies t[k].0 != id by {
            if k < i {
                assert(t[k] == s[k]);
            } else {
                assert(t[k] == s[k + 1]);
            }
        }
    }
}

/// Read after write: once `id` has been inserted with descriptor `sig`, a query with
/// that descriptor returns `id`, unless the whole result list is taken by records
/// that match `sig` at every position, as well as `id` itself does.
pub proof fn law_read_after_write(
    s: Entries,
    id: u64,
    sig: Seq<u8>,
    limit: nat,
    r: Seq<Match>,
)
    requires
        unique_ids(s),
        is_ranking(upsert(s, id, sig), sig, limit, r),
    ensures
        returns_id(r, id) || (r.len() == limit && forall|i: int|
            0 <= i < r.len() ==> #[trigger] r[i].score == sig.len()),
{
    let t = upsert(s, id, sig);
    lemma_upsert_holds(s, id, sig);
    let j = choose|j: int| 0 <= j < t.len() && t[j] == (id, sig);
    lemma_score_bound(sig, sig);
    if !returns_id(r, id) {
        assert(!returns_id(r, t[j].0));
        if r.len() < limit {
            assert(returns_id(r, t[j].0));
        }
        assert forall|i: int| 0 <= i < r.len() implies #[trigger] r[i].score == sig.len() by {
            assert(score(sig, t[j].1) <= r[i].score);
            assert(is_scored_entry(t, sig, r[i]));
            let k = choose|k: int|
                0 <= k < t.len() && t[k].0 == r[i].id && r[i].score == score(sig, t[k].1);
            lemma_score_bound(sig, t[k].1);
        }
    }
}

/// Delete then query: once `id` has been removed, no query returns it.
pub proof fn law_deleted_never_returned(
    s: Entries,
    id: u64,
    q: Seq<u8>,
    limit: nat,
    r: Seq<Match>,
)
    requires
        unique_ids(s),
        is_ranking(without(s, id), q, limit, r),
    ensures
        !returns_id(r, id),
{
    let t = without(s, id);
    lemma_without_lacks(s, id);
    if returns_id(r, id) {
        let i = choose|i: int| 0 <= i < r.len() && r[i].id == id;
        assert(is_scored_entry(t, q, r[i]));
        let k = choose|k: int|
            0 <= k < t.len() && t[k].0 == r[i].id && r[i].score == score(q, t[k].1);
        assert(has_id(t, id));
    }
}

/// Loading: records with pairwise distinct identifiers build an index that holds
/// exactly as many records, with exactly their identifiers.
pub proof fn law_loaded_size(rs: Entries)
    requires
        unique_ids(rs),
    ensures
        unique_ids(built(rs)),
        built(rs).len() == rs.len(),
        forall|x: u64| has_id(built(rs), x) <==> has_id(rs, x),
    decreases rs.len(),
{
    if rs.len() > 0 {
        let p = rs.drop_last();
        assert(unique_ids(p));
        law_loaded_size(p);
        lemma_upsert_holds(built(p), rs.last().0, rs.last().1);
        assert forall|x: u64| has_id(rs, x) <==> (x == rs.last().0 || has_id(p, x)) by {
            if has_id(rs, x) {
                let k = choose|k: int| 0 <= k < rs.len() && rs[k].0 == x;
                if k < p.len() {
                    assert(p[k].0 == x);
                }
            }
            if has_id(p, x) {
                let k = choose|k: int| 0 <= k < p.len() && p[k].0 == x;
                assert(rs[k].0 == x);
            }
            assert(rs[rs.len() - 1].0 == rs.last().0);
        }
        if has_id(p, rs.last().0) {
            let k = choose|k: int| 0 <= k < p.len() && p[k].0 == rs.last().0;
            assert(rs[k].0 == rs[rs.len() - 1].0);
        }
    }
}

} // verus!
