use vstd::prelude::*;
use crate::session::{Session, same_session};

verus! {

pub type ScanId = String;

/// Scans kept by their ids.
pub struct ScanStore {
    sessions: Vec<(ScanId, Session)>,
}

/// Where in `s` the id `k` is kept.
spec fn index_of(s: Seq<(ScanId, Session)>, k: Seq<char>) -> int {
    choose|i: int| 0 <= i < s.len() && s[i].0@ == k
}

/// The scans of `s` by id.
spec fn store_map(s: Seq<(ScanId, Session)>) -> Map<Seq<char>, Session> {
    Map::new(
        |k: Seq<char>| exists|i: int| 0 <= i < s.len() && s[i].0@ == k,
        |k: Seq<char>| s[index_of(s, k)].1,
    )
}

/// No id is kept twice.
spec fn ids_unique(s: Seq<(ScanId, Session)>) -> bool {
    forall|i: int, j: int| 0 <= i < s.len() && 0 <= j < s.len() && i != j ==> s[i].0@ != s[j].0@
}

proof fn lemma_index_of(s: Seq<(ScanId, Session)>, i: int)
    requires
        ids_unique(s),
        0 <= i < s.len(),
    ensures
        index_of(s, s[i].0@) == i,
        store_map(s).contains_key(s[i].0@),
        store_map(s)[s[i].0@] == s[i].1,
{
    let k = s[i].0@;
    assert(0 <= i < s.len() && s[i].0@ == k);
    let j = index_of(s, k);
    assert(s[j].0@ == k);
}

impl View for ScanStore {
    type V = Map<Seq<char>, Session>;

    closed spec fn view(&self) -> Map<Seq<char>, Session> {
        store_map(self.sessions@)
    }
}

impl ScanStore {
    #[verifier::type_invariant]
    spec fn inv(&self) -> bool {
        ids_unique(self.sessions@)
    }

    /// A store with no scans.
    pub fn new() -> (s: Self)
        ensures
            s@ == Map::<Seq<char>, Session>::empty(),
    {
        let s = Self { sessions: Vec::new() };
        assert(s@ =~= Map::<Seq<char>, Session>::empty());
        s
    }

    /// Where `scan_id` is kept, if it is.
    fn find(&self, scan_id: &ScanId) -> (r: Option<usize>)
        ensures
            match r {
                Some(i) => i < self.sessions@.len() && self.sessions@[i as int].0@ == scan_id@,
                None => forall|i: int| 0 <= i < self.sessions@.len() ==> self.sessions@[i].0@ != scan_id@,
            },
    {
        let mut i: usize = 0;
        while i < self.sessions.len()
            invariant
                i <= self.sessions@.len(),
                forall|j: int| 0 <= j < i ==> self.sessions@[j].0@ != scan_id@,
            decreases self.sessions@.len() - i,
        {
            if self.sessions[i].0 == *scan_id {
                return Some(i);
            }
            i = i + 1;
        }
        None
    }

    /// Keeps `session` under `scan_id`, in place of any scan kept under it before.
    pub fn insert(&mut self, scan_id: ScanId, session: Session)
        ensures
            final(self)@ == old(self)@.insert(scan_id@, session),
    {
        proof {
            use_type_invariant(&*self);
        }
        let ghost old_s = self.sessions@;
        let ghost key = scan_id@;
        let found = self.find(&scan_id);
        let mut sessions: Vec<(ScanId, Session)> = Vec::new();
        std::mem::swap(&mut sessions, &mut self.sessions);
        match found {
            Some(i) => {
                sessions.set(i, (scan_id, session));
                proof {
                    let s = sessions@;
                    assert(s == old_s.update(i as int, (scan_id, session)));
                    assert(ids_unique(s));
                    assert forall|k: Seq<char>| #[trigger] store_map(s).contains_key(k) <==> (store_map(old_s).contains_key(k) || k == key) by {
                        if store_map(old_s).contains_key(k) {
                            let j = index_of(old_s, k);
                            assert(s[j].0@ == k);
                        }
                        if store_map(s).contains_key(k) {
                            let j = index_of(s, k);
                            if j != i {
                                assert(old_s[j].0@ == k);
                            }
                        }
                    }
                    assert forall|k: Seq<char>| #[trigger] store_map(s).contains_key(k) implies store_map(s)[k] == if k == key {
                        session
                    } else {
                        store_map(old_s)[k]
                    } by {
                        let j = index_of(s, k);
                        lemma_index_of(s, j);
                        if j != i {
                            lemma_index_of(old_s, j);
                        }
                    }
                    assert(store_map(s).dom() =~= store_map(old_s).insert(key, session).dom());
                    assert(store_map(s) =~= store_map(old_s).insert(key, session));
                }
            },
            None => {
                sessions.push((scan_id, session));
                proof {
                    let s = sessions@;
                    let n = old_s.len() as int;
                    assert(s == old_s.push((scan_id, session)));
                    assert(ids_unique(s));
                    assert forall|k: Seq<char>| #[trigger] store_map(s).contains_key(k) <==> (store_map(old_s).contains_key(k) || k == key) by {
                        if store_map(old_s).contains_key(k) {
                            let j = index_of(old_s, k);
                            assert(s[j].0@ == k);
                        }
                        if k == key {
                            assert(s[n].0@ == k);
                        }
                        if store_map(s).contains_key(k) {
                            let j = index_of(s, k);
                            if j != n {
                                assert(old_s[j].0@ == k);
                            }
                        }
                    }
                    assert forall|k: Seq<char>| #[trigger] store_map(s).contains_key(k) implies store_map(s)[k] == if k == key {
                        session
                    } else {
                        store_map(old_s)[k]
                    } by {
                        let j = index_of(s, k);
                        lemma_index_of(s, j);
                        if j != n {
                            lemma_index_of(old_s, j);
                        }
                    }
                    assert(store_map(s).dom() =~= store_map(old_s).insert(key, session).dom());
                    assert(store_map(s) =~= store_map(old_s).insert(key, session));
                }
            },
        }
        self.sessions = sessions;
    }

    /// A copy of the scan kept under `scan_id`, if any.
    pub fn get(&self, scan_id: &ScanId) -> (r: Option<Session>)
        ensures
            match r {
                Some(s) => self@.contains_key(scan_id@) && same_session(s@, self@[scan_id@]@),
                None => !self@.contains_key(scan_id@),
            },
    {
        proof {
            use_type_invariant(self);
        }
        match self.find(scan_id) {
            Some(i) => {
                proof {
                    lemma_index_of(self.sessions@, i as int);
                }
                Some(self.sessions[i].1.clone())
            },
            None => None,
        }
    }

    /// Takes the scan kept under `scan_id` out of the store, if any.
    pub fn remove(&mut self, scan_id: &ScanId) -> (r: Option<Session>)
        ensures
            final(self)@ == old(self)@.remove(scan_id@),
            r == (if old(self)@.contains_key(scan_id@) {
                Some(old(self)@[scan_id@])
            } else {
                None::<Session>
            }),
    {
        proof {
            use_type_invariant(&*self);
        }
        let ghost old_s = self.sessions@;
        let ghost key = scan_id@;
        match self.find(scan_id) {
            Some(i) => {
                proof {
                    lemma_index_of(old_s, i as int);
                }
                let mut sessions: Vec<(ScanId, Session)> = Vec::new();
                std::mem::swap(&mut sessions, &mut self.sessions);
                let (_, session) = sessions.remove(i);
                proof {
                    let s = sessions@;
                    assert(s == old_s.remove(i as int));
                    assert forall|a: int, b: int| 0 <= a < s.len() && 0 <= b < s.len() && a != b implies s[a].0@ != s[b].0@ by {
                        let oa = if a < i { a } else { a + 1 };
                        let ob = if b < i { b } else { b + 1 };
                        assert(s[a] == old_s[oa]);
                        assert(s[b] == old_s[ob]);
                    }
                    assert forall|k: Seq<char>| #[trigger] store_map(s).contains_key(k) <==> (store_map(old_s).contains_key(k) && k != key) by {
                        if store_map(old_s).contains_key(k) && k != key {
                            let j = index_of(old_s, k);
                            assert(j != i);
                            let nj = if j < i { j } else { j - 1 };
                            assert(s[nj] == old_s[j]);
                        }
                        if store_map(s).contains_key(k) {
                            let j = index_of(s, k);
                            let oj = if j < i { j } else { j + 1 };
                            assert(s[j] == old_s[oj]);
                            assert(oj != i);
                        }
                    }
                    assert forall|k: Seq<char>| #[trigger] store_map(s).contains_key(k) implies store_map(s)[k] == store_map(old_s)[k] by {
                        let j = index_of(s, k);
                        lemma_index_of(s, j);
                        let oj = if j < i { j } else { j + 1 };
                        assert(s[j] == old_s[oj]);
                        lemma_index_of(old_s, oj);
                    }
                    assert(store_map(s) =~= store_map(old_s).remove(key));
                }
                self.sessions = sessions;
                Some(session)
            },
            None => {
                proof {
                    assert(!store_map(old_s).contains_key(key));
                    assert(store_map(old_s) =~= store_map(old_s).remove(key));
                }
                None
            },
        }
    }
}

impl Default for ScanStore {
    fn default() -> (s: Self)
        ensures
            s@ == Map::<Seq<char>, Session>::empty(),
    {
        Self::new()
    }
}

/// Store law: after keeping `s` under `id`, looking `id` up finds `s`, taking
/// it out leaves what taking `id` out of the store before would have left, and
/// every other id finds what it found before.
pub proof fn lemma_store_insert_then_lookup(
    store: Map<Seq<char>, Session>,
    id: Seq<char>,
    s: Session,
    other: Seq<char>,
)
    ensures
        store.insert(id, s).contains_key(id),
        store.insert(id, s)[id] == s,
        store.insert(id, s).remove(id) == store.remove(id),
        other != id ==> store.insert(id, s).contains_key(other) == store.contains_key(other),
        other != id && store.contains_key(other) ==> store.insert(id, s)[other] == store[other],
        !store.remove(id).contains_key(id),
{
    assert(store.insert(id, s).remove(id) =~= store.remove(id));
}

} // verus!
