//! The server's per-session state and the uniform handshake gate: which
//! sessions have handshaken, how many gated calls each attempted before
//! its handshake, and the claim token each session was given.
use vstd::prelude::*;

use crate::text::same_text;

verus! {

/// The refusal every gated tool reports before the handshake.
pub open spec fn refusal_text() -> Seq<char> {
    "handshake incomplete — call read_signoff first — memory protocol: read_signoff is the first action of every session — call it, then retry. — if read_signoff itself reports the root unprovisioned, that is NOT a call-order problem: provision the root or report to the human (retrying cannot fix it)."@
}

/// [`refusal_text`].
pub fn handshake_refusal() -> (m: String)
    ensures
        m@ == refusal_text(),
{
    String::from_str(
        "handshake incomplete — call read_signoff first — memory protocol: read_signoff is the first action of every session — call it, then retry. — if read_signoff itself reports the root unprovisioned, that is NOT a call-order problem: provision the root or report to the human (retrying cannot fix it).",
    )
}

/// Process-local session state.
pub struct Sessions {
    /// The sessions that have handshaken, each once.
    pub handshaken: Vec<String>,
    /// Per session, the gated calls it attempted before its handshake.
    pub refused: Vec<(String, u64)>,
    /// Per session, the claim token its own `claim_orchestrator` stored.
    pub claim_tokens: Vec<(String, String)>,
}

/// The keys of a list of pairs.
pub open spec fn keys_of<V>(pairs: Seq<(String, V)>) -> Seq<Seq<char>> {
    pairs.map_values(|p: (String, V)| p.0@)
}

/// No key occurs twice.
pub open spec fn unique_keys(keys: Seq<Seq<char>>) -> bool {
    forall|i: int, j: int| 0 <= i < j < keys.len() ==> keys[i] != keys[j]
}

/// The map a list of pairs with unique keys stands for.
pub open spec fn pair_map<V>(pairs: Seq<(String, V)>) -> Map<Seq<char>, V> {
    Map::new(
        |k: Seq<char>| keys_of(pairs).contains(k),
        |k: Seq<char>| pairs[keys_of(pairs).index_of(k)].1,
    )
}

/// The mathematical view of the session state.
pub struct SessionsView {
    pub handshaken: Set<Seq<char>>,
    pub refused: Map<Seq<char>, u64>,
    pub tokens: Map<Seq<char>, String>,
}

impl Sessions {
    /// No session is listed twice in any of the three tables.
    pub open spec fn wf(&self) -> bool {
        &&& unique_keys(self.handshaken@.map_values(|s: String| s@))
        &&& unique_keys(keys_of(self.refused@))
        &&& unique_keys(keys_of(self.claim_tokens@))
    }

    /// The state as sets and maps.
    pub open spec fn view(&self) -> SessionsView {
        SessionsView {
            handshaken: self.handshaken@.map_values(|s: String| s@).to_set(),
            refused: pair_map(self.refused@),
            tokens: pair_map(self.claim_tokens@),
        }
    }

    /// A fresh process: no handshake, no refusal, no token.
    pub fn new() -> (r: Sessions)
        ensures
            r.wf(),
            r@.handshaken == Set::<Seq<char>>::empty(),
            r@.refused == Map::<Seq<char>, u64>::empty(),
            r@.tokens == Map::<Seq<char>, String>::empty(),
    {
        let r = Sessions { handshaken: Vec::new(), refused: Vec::new(), claim_tokens: Vec::new() };
        proof {
            assert(r.handshaken@.map_values(|s: String| s@).to_set() =~= Set::empty());
            assert(pair_map(r.refused@) =~= Map::empty());
            assert(pair_map(r.claim_tokens@) =~= Map::empty());
        }
        r
    }

    /// The position of `session` in the handshake table.
    fn find_handshaken(&self, session: &String) -> (r: Option<usize>)
        ensures
            match r {
                Some(i) => i < self.handshaken@.len() && self.handshaken@[i as int]@ == session@,
                None => !self.handshaken@.map_values(|s: String| s@).contains(session@),
            },
    {
        let mut i: usize = 0;
        while i < self.handshaken.len()
            invariant
                i <= self.handshaken@.len(),
                forall|j: int| 0 <= j < i ==> self.handshaken@[j]@ != session@,
            decreases self.handshaken.len() - i,
        {
            if same_text(&self.handshaken[i], session) {
                return Some(i);
            }
            i += 1;
        }
        proof {
            let hv = self.handshaken@.map_values(|s: String| s@);
            if hv.contains(session@) {
                let j = hv.index_of(session@);
                assert(hv[j] == self.handshaken@[j]@);
            }
        }
        None
    }

    /// Whether `session` has handshaken.
    pub fn is_handshaken(&self, session: &String) -> (r: bool)
        ensures
            r == self@.handshaken.contains(session@),
    {
        let r = self.find_handshaken(session).is_some();
        proof {
            let hv = self.handshaken@.map_values(|s: String| s@);
            assert(hv.to_set().contains(session@) == hv.contains(session@));
            if r {
                let i = choose|i: int| 0 <= i < self.handshaken@.len() && self.handshaken@[i]@ == session@;
                assert(hv[i] == session@);
            }
        }
        r
    }

    /// The position of `session` in a table of pairs.
    pub fn find_key<V>(pairs: &Vec<(String, V)>, session: &String) -> (r: Option<usize>)
        ensures
            match r {
                Some(i) => i < pairs@.len() && pairs@[i as int].0@ == session@,
                None => !keys_of(pairs@).contains(session@),
            },
    {
        let mut i: usize = 0;
        while i < pairs.len()
            invariant
                i <= pairs@.len(),
                forall|j: int| 0 <= j < i ==> pairs@[j].0@ != session@,
            decreases pairs.len() - i,
        {
            if same_text(&pairs[i].0, session) {
                return Some(i);
            }
            i += 1;
        }
        proof {
            if keys_of(pairs@).contains(session@) {
                let j = keys_of(pairs@).index_of(session@);
                assert(keys_of(pairs@)[j] == pairs@[j].0@);
            }
        }
        None
    }

    /// The uniform gate every disk-touching tool passes first: open for a
    /// session that has handshaken; otherwise the pinned refusal, and the
    /// attempt counted against the session (one more than before),
    /// nothing else changed.
    pub fn gate(&mut self, session: &String) -> (r: Result<(), String>)
        requires
            old(self).wf(),
            old(self)@.refused.contains_key(session@) ==> old(self)@.refused[session@] < u64::MAX,
        ensures
            final(self).wf(),
            (r is Ok) == old(self)@.handshaken.contains(session@),
            r is Ok ==> final(self)@ == old(self)@,
            r matches Err(m) ==> m@ == refusal_text(),
            r is Err ==> final(self)@.handshaken == old(self)@.handshaken && final(self)@.tokens
                == old(self)@.tokens && final(self)@.refused == old(self)@.refused.insert(
                session@,
                (refusals(old(self)@, session@) + 1) as u64,
            ),
    {
        if self.is_handshaken(session) {
            return Ok(());
        }
        let ghost before = self.refused@;
        match Self::find_key(&self.refused, session) {
            Some(i) => {
                proof {
                    lemma_index_of_unique(keys_of(before), i as int);
                    assert(keys_of(before)[i as int] == session@);
                }
                let n = self.refused[i].1;
                assert(n == refusals(self@, session@));
                self.refused.set(i, (session.clone(), n + 1));
                proof {
                    lemma_set_pair(before, i as int, session@, self.refused@);
                }
            },
            None => {
                self.refused.push((session.clone(), 1));
                proof {
                    lemma_push_pair(before, session@, self.refused@);
                }
            },
        }
        Err(handshake_refusal())
    }

    /// Record the handshake of `session`: granted at once when it already
    /// handshook (nothing changes); otherwise granted only when its record
    /// was persisted (`persisted`), and then the session is marked. The
    /// result is whether the session is handshaken afterwards.
    pub fn handshake(&mut self, session: &String, persisted: bool) -> (r: bool)
        requires
            old(self).wf(),
        ensures
            final(self).wf(),
            r == (old(self)@.handshaken.contains(session@) || persisted),
            final(self)@.handshaken == handshaken_after(old(self)@, session@, persisted),
            final(self)@.refused == old(self)@.refused,
            final(self)@.tokens == old(self)@.tokens,
    {
        if self.is_handshaken(session) {
            proof {
                assert(self@.handshaken.insert(session@) =~= self@.handshaken);
            }
            return true;
        }
        if !persisted {
            return false;
        }
        let ghost before = self.handshaken@.map_values(|s: String| s@);
        self.handshaken.push(session.clone());
        proof {
            let after = self.handshaken@.map_values(|s: String| s@);
            assert(after =~= before.push(session@));
            assert forall|x: Seq<char>| #[trigger] after.contains(x) <==> before.contains(x) || x
                == session@ by {
                if after.contains(x) {
                    let j = after.index_of(x);
                    if j < before.len() {
                        assert(before[j] == x);
                    }
                }
                if before.contains(x) {
                    let j = before.index_of(x);
                    assert(after[j] == x);
                }
                if x == session@ {
                    assert(after[before.len() as int] == x);
                }
            }
            assert(after.to_set() =~= before.to_set().insert(session@));
            assert forall|i: int, j: int| 0 <= i < j < after.len() implies after[i] != after[j] by {
                if j == after.len() - 1 {
                    assert(before[i] == after[i]);
                    assert(before.contains(after[i]));
                }
            }
        }
        true
    }

    /// Store the claim token `session` was handed, replacing any earlier
    /// one.
    pub fn store_claim_token(&mut self, session: &String, token: &String)
        requires
            old(self).wf(),
        ensures
            final(self).wf(),
            final(self)@.tokens.dom() == old(self)@.tokens.dom().insert(session@),
            final(self)@.tokens[session@]@ == token@,
            forall|k: Seq<char>|
                k != session@ && #[trigger] old(self)@.tokens.contains_key(k) ==> final(self)@.tokens[k]
                    == old(self)@.tokens[k],
            final(self)@.handshaken == old(self)@.handshaken,
            final(self)@.refused == old(self)@.refused,
    {
        let ghost before = self.claim_tokens@;
        match Self::find_key(&self.claim_tokens, session) {
            Some(i) => {
                self.claim_tokens.set(i, (session.clone(), token.clone()));
                proof {
                    lemma_set_pair(before, i as int, session@, self.claim_tokens@);
                }
            },
            None => {
                self.claim_tokens.push((session.clone(), token.clone()));
                proof {
                    lemma_push_pair(before, session@, self.claim_tokens@);
                }
            },
        }
    }

    /// The claim token stored for `session`, if any.
    pub fn claim_token(&self, session: &String) -> (r: Option<String>)
        requires
            self.wf(),
        ensures
            match r {
                Some(t) => self@.tokens.contains_key(session@) && self@.tokens[session@]@ == t@,
                None => !self@.tokens.contains_key(session@),
            },
    {
        match Self::find_key(&self.claim_tokens, session) {
            Some(i) => {
                proof {
                    lemma_index_of_unique(keys_of(self.claim_tokens@), i as int);
                }
                Some(self.claim_tokens[i].1.clone())
            },
            None => None,
        }
    }

    /// How many gated calls `session` attempted before its handshake.
    pub fn refused_count(&self, session: &String) -> (r: u64)
        requires
            self.wf(),
        ensures
            r == refusals(self@, session@),
    {
        match Self::find_key(&self.refused, session) {
            Some(i) => {
                proof {
                    lemma_index_of_unique(keys_of(self.refused@), i as int);
                }
                self.refused[i].1
            },
            None => 0,
        }
    }
}

/// The refused attempts counted against `session` (none when unlisted).
pub open spec fn refusals(v: SessionsView, session: Seq<char>) -> u64 {
    if v.refused.contains_key(session) {
        v.refused[session]
    } else {
        0
    }
}

/// Under unique keys, the position of the key at `i` is `i`.
pub proof fn lemma_index_of_unique(keys: Seq<Seq<char>>, i: int)
    requires
        unique_keys(keys),
        0 <= i < keys.len(),
    ensures
        keys.contains(keys[i]),
        keys.index_of(keys[i]) == i,
{
    assert(keys[i] == keys[i]);
    let k = keys.index_of(keys[i]);
    assert(0 <= k < keys.len() && keys[k] == keys[i]);
    if k < i {
        assert(keys[k] != keys[i]);
    } else if k > i {
        assert(keys[i] != keys[k]);
    }
}

/// Replacing the pair at a key's position (keeping the key) updates that
/// key's value alone.
pub proof fn lemma_set_pair<V>(before: Seq<(String, V)>, i: int, k: Seq<char>, after: Seq<(String, V)>)
    requires
        unique_keys(keys_of(before)),
        0 <= i < before.len(),
        before[i].0@ == k,
        after.len() == before.len(),
        after[i].0@ == k,
        forall|j: int| 0 <= j < before.len() && j != i ==> after[j] == before[j],
    ensures
        keys_of(after) == keys_of(before),
        unique_keys(keys_of(after)),
        pair_map(after) == pair_map(before).insert(k, after[i].1),
{
    let kb = keys_of(before);
    assert(keys_of(after) =~= kb) by {
        assert forall|j: int| 0 <= j < before.len() implies keys_of(after)[j] == kb[j] by {
            if j != i {
                assert(after[j] == before[j]);
            }
        }
    }
    lemma_index_of_unique(kb, i);
    assert forall|x: Seq<char>| #[trigger] kb.contains(x) implies pair_map(after)[x]
        == pair_map(before).insert(k, after[i].1)[x] by {
        let j = kb.index_of(x);
        assert(0 <= j < kb.len() && kb[j] == x);
        if x != k {
            assert(j != i);
            assert(after[j] == before[j]);
        }
    }
    assert(pair_map(after) =~= pair_map(before).insert(k, after[i].1));
}

/// Appending a pair with a new key adds that key and its value.
pub proof fn lemma_push_pair<V>(before: Seq<(String, V)>, k: Seq<char>, after: Seq<(String, V)>)
    requires
        unique_keys(keys_of(before)),
        !keys_of(before).contains(k),
        after.len() == before.len() + 1,
        after[before.len() as int].0@ == k,
        forall|j: int| 0 <= j < before.len() ==> after[j] == before[j],
    ensures
        keys_of(after) == keys_of(before).push(k),
        unique_keys(keys_of(after)),
        pair_map(after) == pair_map(before).insert(k, after[before.len() as int].1),
{
    let kb = keys_of(before);
    let ka = keys_of(after);
    let n = before.len() as int;
    assert(ka =~= kb.push(k)) by {
        assert forall|j: int| 0 <= j < n implies ka[j] == kb[j] by {
            assert(after[j] == before[j]);
        }
    }
    assert forall|i: int, j: int| 0 <= i < j < ka.len() implies ka[i] != ka[j] by {
        if j == n {
            assert(ka[i] == kb[i]);
            assert(kb.contains(kb[i]));
        } else {
            assert(ka[i] == kb[i] && ka[j] == kb[j]);
        }
    }
    lemma_index_of_unique(ka, n);
    assert forall|x: Seq<char>| #[trigger] ka.contains(x) implies pair_map(after)[x]
        == pair_map(before).insert(k, after[n].1)[x] by {
        if x != k {
            let j = ka.index_of(x);
            assert(0 <= j < ka.len() && ka[j] == x);
            assert(j != n);
            assert(kb[j] == x);
            lemma_index_of_unique(kb, j);
            lemma_index_of_unique(ka, j);
            assert(after[j] == before[j]);
        }
    }
    assert forall|x: Seq<char>| ka.contains(x) <==> #[trigger] kb.contains(x) || x == k by {
        if ka.contains(x) && x != k {
            let j = ka.index_of(x);
            assert(ka[j] == x);
            assert(kb[j] == x);
        }
        if kb.contains(x) {
            let j = kb.index_of(x);
            assert(ka[j] == x);
        }
        if x == k {
            assert(ka[n] == x);
        }
    }
    assert(pair_map(after) =~= pair_map(before).insert(k, after[n].1));
}

/// Removing the pair at a key's position removes that key alone.
pub proof fn lemma_remove_pair<V>(before: Seq<(String, V)>, i: int)
    requires
        unique_keys(keys_of(before)),
        0 <= i < before.len(),
    ensures
        unique_keys(keys_of(before.remove(i))),
        pair_map(before.remove(i)) == pair_map(before).remove(before[i].0@),
{
    let after = before.remove(i);
    let kb = keys_of(before);
    let ka = keys_of(after);
    let k = before[i].0@;
    assert(ka =~= kb.remove(i));
    assert forall|a: int, b: int| 0 <= a < b < ka.len() implies ka[a] != ka[b] by {
        let a2 = if a < i { a } else { a + 1 };
        let b2 = if b < i { b } else { b + 1 };
        assert(ka[a] == kb[a2] && ka[b] == kb[b2]);
    }
    lemma_index_of_unique(kb, i);
    assert forall|x: Seq<char>| #[trigger] ka.contains(x) <==> kb.contains(x) && x != k by {
        if ka.contains(x) {
            let j = ka.index_of(x);
            let j2 = if j < i { j } else { j + 1 };
            assert(kb[j2] == x);
            if x == k {
                assert(j2 != i);
            }
        }
        if kb.contains(x) && x != k {
            let j = kb.index_of(x);
            assert(j != i);
            let j1 = if j < i { j } else { j - 1 };
            assert(ka[j1] == x);
        }
    }
    assert forall|x: Seq<char>| #[trigger] ka.contains(x) implies pair_map(after)[x] == pair_map(
        before,
    )[x] by {
        let j = ka.index_of(x);
        let j2 = if j < i { j } else { j + 1 };
        assert(kb[j2] == x);
        lemma_index_of_unique(kb, j2);
        lemma_index_of_unique(ka, j);
        assert(after[j] == before[j2]);
    }
    assert(pair_map(after) =~= pair_map(before).remove(k));
}

/// The sessions handshaken after `handshake(session, persisted)`.
pub open spec fn handshaken_after(v: SessionsView, session: Seq<char>, persisted: bool) -> Set<
    Seq<char>,
> {
    if v.handshaken.contains(session) || persisted {
        v.handshaken.insert(session)
    } else {
        v.handshaken
    }
}

/// The handshake opens the way for its own session only: after
/// `handshake(session, persisted)` the check admits `session` exactly when
/// it had handshaken before or its record was persisted, and every other
/// session's gate is as it was. A refused gate call opens nothing.
pub proof fn lemma_handshake_opens_gate(
    v: SessionsView,
    session: Seq<char>,
    persisted: bool,
    other: Seq<char>,
)
    ensures
        handshaken_after(v, session, persisted).contains(session) == (v.handshaken.contains(
            session,
        ) || persisted),
        other != session ==> handshaken_after(v, session, persisted).contains(other)
            == v.handshaken.contains(other),
{
}

} // verus!
