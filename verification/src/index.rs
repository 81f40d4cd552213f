use vstd::prelude::*;
use crate::book::{Book, EntryModel};

verus! {

/// The book an index holds under a key: the stored one, or the empty book for
/// a key the index has never seen. Both indices answer absent keys this way.
pub open spec fn book_or_empty<K>(m: Map<K, Seq<EntryModel>>, k: K) -> Seq<EntryModel> {
    if m.contains_key(k) {
        m[k]
    } else {
        Seq::empty()
    }
}

/// The map an association list of account-keyed books stands for.
pub open spec fn account_map(s: Seq<(String, Book)>) -> Map<Seq<char>, Seq<EntryModel>>
    decreases s.len(),
{
    if s.len() == 0 {
        Map::empty()
    } else {
        account_map(s.drop_last()).insert(s.last().0@, s.last().1@)
    }
}

/// No two entries of the list carry the same account key.
pub open spec fn account_keys_unique(s: Seq<(String, Book)>) -> bool {
    forall|i: int, j: int| 0 <= i < j < s.len() ==> s[i].0@ != s[j].0@
}

/// Some entry of the list carries the key `k`.
pub open spec fn account_has_key(s: Seq<(String, Book)>, k: Seq<char>) -> bool {
    exists|i: int| 0 <= i < s.len() && s[i].0@ == k
}

/// How the association list and the map it stands for correspond: same keys,
/// same books, and one map entry per list entry.
proof fn lemma_account_map_props(s: Seq<(String, Book)>)
    requires
        account_keys_unique(s),
    ensures
        account_map(s).dom().finite(),
        account_map(s).dom().len() == s.len(),
        forall|k: Seq<char>| #![trigger account_map(s).contains_key(k)]
            account_map(s).contains_key(k) <==> account_has_key(s, k),
        forall|i: int| #![trigger s[i]]
            0 <= i < s.len() ==> account_map(s).contains_key(s[i].0@) && account_map(s)[s[i].0@]
                == s[i].1@,
    decreases s.len(),
{
    broadcast use vstd::set::group_set_axioms, vstd::map::group_map_axioms;

    if s.len() == 0 {
        assert(account_map(s) =~= Map::<Seq<char>, Seq<EntryModel>>::empty());
        assert forall|k: Seq<char>|
            account_map(s).contains_key(k) <==> account_has_key(s, k) by {
            if account_has_key(s, k) {
                let i = choose|i: int| 0 <= i < s.len() && s[i].0@ == k;
            }
        }
    } else {
        let t = s.drop_last();
        let e = s.last();
        let m = account_map(s);
        assert(forall|i: int| 0 <= i < t.len() ==> #[trigger] t[i] == s[i]);
        assert(account_keys_unique(t));
        lemma_account_map_props(t);
        assert(m == account_map(t).insert(e.0@, e.1@));
        assert(!account_has_key(t, e.0@)) by {
            if account_has_key(t, e.0@) {
                let i = choose|i: int| 0 <= i < t.len() && t[i].0@ == e.0@;
                assert(s[i].0@ != s[s.len() - 1].0@);
            }
        }
        assert(!account_map(t).contains_key(e.0@));
        assert(m.dom() == account_map(t).dom().insert(e.0@));
        assert forall|k: Seq<char>|
            account_map(s).contains_key(k) <==> account_has_key(s, k) by {
            if account_has_key(s, k) {
                let i = choose|i: int| 0 <= i < s.len() && s[i].0@ == k;
                if i < s.len() - 1 {
                    assert(t[i].0@ == k);
                    assert(account_has_key(t, k));
                }
            }
            if account_map(s).contains_key(k) {
                if k == e.0@ {
                    assert(s[s.len() - 1].0@ == k);
                } else {
                    assert(account_has_key(t, k));
                    let i = choose|i: int| 0 <= i < t.len() && t[i].0@ == k;
                    assert(s[i].0@ == k);
                }
            }
        }
        assert forall|i: int|
            0 <= i < s.len() implies account_map(s).contains_key((#[trigger] s[i]).0@)
            && account_map(s)[s[i].0@] == s[i].1@ by {
            if i < s.len() - 1 {
                assert(t[i] == s[i]);
                assert(t[i].0@ != e.0@);
            }
        }
    }
}

/// Replacing the entry that holds a key rewrites exactly that key's book.
proof fn lemma_account_map_update(s: Seq<(String, Book)>, i: int, e: (String, Book))
    requires
        account_keys_unique(s),
        0 <= i < s.len(),
        e.0@ == s[i].0@,
    ensures
        account_map(s.update(i, e)) == account_map(s).insert(e.0@, e.1@),
    decreases s.len(),
{
    let t = s.drop_last();
    let last = s.last();
    let u = s.update(i, e);
    if i == s.len() - 1 {
        assert(u.drop_last() =~= t);
        assert(u.last() == e);
        assert(account_map(u) == account_map(t).insert(e.0@, e.1@));
        assert(account_map(t).insert(last.0@, last.1@).insert(e.0@, e.1@) =~= account_map(
            t).insert(e.0@, e.1@));
    } else {
        assert(u.drop_last() =~= t.update(i, e));
        assert(u.last() == last);
        assert(forall|j: int| 0 <= j < t.len() ==> #[trigger] t[j] == s[j]);
        assert(account_keys_unique(t));
        lemma_account_map_update(t, i, e);
        assert(e.0@ != last.0@) by {
            assert(s[i].0@ != s[s.len() - 1].0@);
        }
        assert(account_map(u) == account_map(t).insert(e.0@, e.1@).insert(last.0@, last.1@));
        assert(account_map(t).insert(e.0@, e.1@).insert(last.0@, last.1@) =~= account_map(
            t).insert(last.0@, last.1@).insert(e.0@, e.1@));
    }
}

/// Appending an entry adds exactly its key's book.
proof fn lemma_account_map_push(s: Seq<(String, Book)>, e: (String, Book))
    ensures
        account_map(s.push(e)) == account_map(s).insert(e.0@, e.1@),
{
    assert(s.push(e).drop_last() =~= s);
    assert(s.push(e).last() == e);
}

/// The index keyed by the account a submission was routed to. The persisted
/// substrate it stands for yields values by copy, so a book is fetched as a
/// copy and an update must be written back whole.
pub struct AccountIndex {
    entries: Vec<(String, Book)>,
}

impl View for AccountIndex {
    type V = Map<Seq<char>, Seq<EntryModel>>;

    closed spec fn view(&self) -> Map<Seq<char>, Seq<EntryModel>> {
        account_map(self.entries@)
    }
}

impl AccountIndex {
    /// Each key appears once, and every stored book is sorted.
    pub closed spec fn wf(self) -> bool {
        &&& account_keys_unique(self.entries@)
        &&& forall|i: int|
            0 <= i < self.entries@.len() ==> (#[trigger] self.entries@[i]).1.wf()
    }

    /// An empty index.
    pub fn new() -> (r: Self)
        ensures
            r@ == Map::<Seq<char>, Seq<EntryModel>>::empty(),
            r.wf(),
    {
        let r = AccountIndex { entries: Vec::new() };
        proof {
            assert(r.entries@.len() == 0);
        }
        r
    }

    /// How many keys hold at least one order.
    pub fn len(&self) -> (r: usize)
        requires
            self.wf(),
        ensures
            r == self@.dom().len(),
    {
        proof {
            lemma_account_map_props(self.entries@);
        }
        self.entries.len()
    }

    /// The book stored under `key`, as a copy; the empty book if the key is
    /// absent.
    pub fn get_book(&self, key: &String) -> (r: Book)
        requires
            self.wf(),
        ensures
            r.wf(),
            r@ == book_or_empty(self@, key@),
    {
        let n = self.entries.len();
        let mut i: usize = 0;
        while i < n
            invariant
                self.wf(),
                n == self.entries.len(),
                0 <= i <= n,
                forall|j: int| 0 <= j < i ==> (#[trigger] self.entries@[j]).0@ != key@,
            decreases n - i,
        {
            if self.entries[i].0 == *key {
                let r = self.entries[i].1.clone();
                proof {
                    lemma_account_map_props(self.entries@);
                }
                return r;
            }
            i = i + 1;
        }
        proof {
            lemma_account_map_props(self.entries@);
            assert(!account_has_key(self.entries@, key@)) by {
                if account_has_key(self.entries@, key@) {
                    let j = choose|j: int|
                        0 <= j < self.entries@.len() && self.entries@[j].0@ == key@;
                }
            }
        }
        Book::new()
    }

    /// Writes `book` back under `key`, replacing whatever book the key held.
    pub fn put_book(&mut self, key: &String, book: Book)
        requires
            old(self).wf(),
            book.wf(),
        ensures
            final(self).wf(),
            final(self)@ == old(self)@.insert(key@, book@),
    {
        let ghost s0 = self.entries@;
        let n = self.entries.len();
        let mut i: usize = 0;
        while i < n
            invariant
                old(self).wf(),
                book.wf(),
                self.entries@ == s0,
                s0 == old(self).entries@,
                n == self.entries.len(),
                0 <= i <= n,
                forall|j: int| 0 <= j < i ==> (#[trigger] self.entries@[j]).0@ != key@,
            decreases n - i,
        {
            if self.entries[i].0 == *key {
                self.entries.remove(i);
                self.entries.insert(i, (key.clone(), book));
                proof {
                    let e = self.entries@[i as int];
                    assert(self.entries@ =~= s0.update(i as int, e));
                    lemma_account_map_update(s0, i as int, e);
                    assert(forall|j: int|
                        0 <= j < self.entries@.len() && j != i ==> #[trigger] self.entries@[j]
                            == s0[j]);
                }
                return;
            }
            i = i + 1;
        }
        self.entries.push((key.clone(), book));
        proof {
            let e = self.entries@[s0.len() as int];
            assert(self.entries@ =~= s0.push(e));
            lemma_account_map_push(s0, e);
            assert(forall|j: int|
                0 <= j < s0.len() ==> #[trigger] self.entries@[j] == s0[j]);
        }
    }
}

/// An ordered pair of asset identifiers (sell asset, buy asset). The pair is
/// direction-sensitive: the reverse pair is a different key.
pub type PairId = (String, String);

/// The model of a pair key: both components as character sequences.
pub open spec fn pair_key(p: PairId) -> (Seq<char>, Seq<char>) {
    (p.0@, p.1@)
}

/// The map an association list of pair-keyed books stands for.
pub open spec fn pair_map(s: Seq<(PairId, Book)>) -> Map<(Seq<char>, Seq<char>), Seq<EntryModel>>
    decreases s.len(),
{
    if s.len() == 0 {
        Map::empty()
    } else {
        pair_map(s.drop_last()).insert(pair_key(s.last().0), s.last().1@)
    }
}

/// No two entries of the list carry the same pair key.
pub open spec fn pair_keys_unique(s: Seq<(PairId, Book)>) -> bool {
    forall|i: int, j: int| 0 <= i < j < s.len() ==> pair_key(s[i].0) != pair_key(s[j].0)
}

/// Some entry of the list carries the key `k`.
pub open spec fn pair_has_key(s: Seq<(PairId, Book)>, k: (Seq<char>, Seq<char>)) -> bool {
    exists|i: int| 0 <= i < s.len() && pair_key(s[i].0) == k
}

/// How the association list and the map it stands for correspond: same keys,
/// same books, and one map entry per list entry.
proof fn lemma_pair_map_props(s: Seq<(PairId, Book)>)
    requires
        pair_keys_unique(s),
    ensures
        pair_map(s).dom().finite(),
        pair_map(s).dom().len() == s.len(),
        forall|k: (Seq<char>, Seq<char>)| #![trigger pair_map(s).contains_key(k)]
            pair_map(s).contains_key(k) <==> pair_has_key(s, k),
        forall|i: int| #![trigger s[i]]
            0 <= i < s.len() ==> pair_map(s).contains_key(pair_key(s[i].0)) && pair_map(s)[
                pair_key(s[i].0)] == s[i].1@,
    decreases s.len(),
{
    broadcast use vstd::set::group_set_axioms, vstd::map::group_map_axioms;

    if s.len() == 0 {
        assert(pair_map(s) =~= Map::<(Seq<char>, Seq<char>), Seq<EntryModel>>::empty());
        assert forall|k: (Seq<char>, Seq<char>)|
            pair_map(s).contains_key(k) <==> pair_has_key(s, k) by {
            if pair_has_key(s, k) {
                let i = choose|i: int| 0 <= i < s.len() && pair_key(s[i].0) == k;
            }
        }
    } else {
        let t = s.drop_last();
        let e = s.last();
        let m = pair_map(s);
        assert(forall|i: int| 0 <= i < t.len() ==> #[trigger] t[i] == s[i]);
        assert(pair_keys_unique(t));
        lemma_pair_map_props(t);
        assert(m == pair_map(t).insert(pair_key(e.0), e.1@));
        assert(!pair_has_key(t, pair_key(e.0))) by {
            if pair_has_key(t, pair_key(e.0)) {
                let i = choose|i: int| 0 <= i < t.len() && pair_key(t[i].0) == pair_key(e.0);
                assert(pair_key(s[i].0) != pair_key(s[s.len() - 1].0));
            }
        }
        assert(!pair_map(t).contains_key(pair_key(e.0)));
        assert(m.dom() == pair_map(t).dom().insert(pair_key(e.0)));
        assert forall|k: (Seq<char>, Seq<char>)|
            pair_map(s).contains_key(k) <==> pair_has_key(s, k) by {
            if pair_has_key(s, k) {
                let i = choose|i: int| 0 <= i < s.len() && pair_key(s[i].0) == k;
                if i < s.len() - 1 {
                    assert(pair_key(t[i].0) == k);
                    assert(pair_has_key(t, k));
                }
            }
            if pair_map(s).contains_key(k) {
                if k == pair_key(e.0) {
                    assert(pair_key(s[s.len() - 1].0) == k);
                } else {
                    assert(pair_has_key(t, k));
                    let i = choose|i: int| 0 <= i < t.len() && pair_key(t[i].0) == k;
                    assert(pair_key(s[i].0) == k);
                }
            }
        }
        assert forall|i: int|
            0 <= i < s.len() implies pair_map(s).contains_key(pair_key((#[trigger] s[i]).0))
            && pair_map(s)[pair_key(s[i].0)] == s[i].1@ by {
            if i < s.len() - 1 {
                assert(t[i] == s[i]);
                assert(pair_key(t[i].0) != pair_key(e.0));
            }
        }
    }
}

/// Replacing the entry that holds a key rewrites exactly that key's book.
proof fn lemma_pair_map_update(s: Seq<(PairId, Book)>, i: int, e: (PairId, Book))
    requires
        pair_keys_unique(s),
        0 <= i < s.len(),
        pair_key(e.0) == pair_key(s[i].0),
    ensures
        pair_map(s.update(i, e)) == pair_map(s).insert(pair_key(e.0), e.1@),
    decreases s.len(),
{
    let t = s.drop_last();
    let last = s.last();
    let u = s.update(i, e);
    if i == s.len() - 1 {
        assert(u.drop_last() =~= t);
        assert(u.last() == e);
        assert(pair_map(u) == pair_map(t).insert(pair_key(e.0), e.1@));
        assert(pair_map(t).insert(pair_key(last.0), last.1@).insert(pair_key(e.0), e.1@)
            =~= pair_map(t).insert(pair_key(e.0), e.1@));
    } else {
        assert(u.drop_last() =~= t.update(i, e));
        assert(u.last() == last);
        assert(forall|j: int| 0 <= j < t.len() ==> #[trigger] t[j] == s[j]);
        assert(pair_keys_unique(t));
        lemma_pair_map_update(t, i, e);
        assert(pair_key(e.0) != pair_key(last.0)) by {
            assert(pair_key(s[i].0) != pair_key(s[s.len() - 1].0));
        }
        assert(pair_map(u) == pair_map(t).insert(pair_key(e.0), e.1@).insert(
            pair_key(last.0), last.1@));
        assert(pair_map(t).insert(pair_key(e.0), e.1@).insert(pair_key(last.0), last.1@)
            =~= pair_map(t).insert(pair_key(last.0), last.1@).insert(pair_key(e.0), e.1@));
    }
}

/// Appending an entry adds exactly its key's book.
proof fn lemma_pair_map_push(s: Seq<(PairId, Book)>, e: (PairId, Book))
    ensures
        pair_map(s.push(e)) == pair_map(s).insert(pair_key(e.0), e.1@),
{
    assert(s.push(e).drop_last() =~= s);
    assert(s.push(e).last() == e);
}

/// The index keyed by the (sell asset, buy asset) pair a submission was routed
/// to. Like the account index, books move in and out by copy.
pub struct PairIndex {
    entries: Vec<(PairId, Book)>,
}

impl View for PairIndex {
    type V = Map<(Seq<char>, Seq<char>), Seq<EntryModel>>;

    closed spec fn view(&self) -> Map<(Seq<char>, Seq<char>), Seq<EntryModel>> {
        pair_map(self.entries@)
    }
}

impl PairIndex {
    /// Each key appears once, and every stored book is sorted.
    pub closed spec fn wf(self) -> bool {
        &&& pair_keys_unique(self.entries@)
        &&& forall|i: int|
            0 <= i < self.entries@.len() ==> (#[trigger] self.entries@[i]).1.wf()
    }

    /// An empty index.
    pub fn new() -> (r: Self)
        ensures
            r@ == Map::<(Seq<char>, Seq<char>), Seq<EntryModel>>::empty(),
            r.wf(),
    {
        let r = PairIndex { entries: Vec::new() };
        proof {
            assert(r.entries@.len() == 0);
        }
        r
    }

    /// How many pairs hold at least one order.
    pub fn len(&self) -> (r: usize)
        requires
            self.wf(),
        ensures
            r == self@.dom().len(),
    {
        proof {
            lemma_pair_map_props(self.entries@);
        }
        self.entries.len()
    }

    /// The book stored under `key`, as a copy; the empty book if the pair is
    /// absent.
    pub fn get_book(&self, key: &PairId) -> (r: Book)
        requires
            self.wf(),
        ensures
            r.wf(),
            r@ == book_or_empty(self@, pair_key(*key)),
    {
        let n = self.entries.len();
        let mut i: usize = 0;
        while i < n
            invariant
                self.wf(),
                n == self.entries.len(),
                0 <= i <= n,
                forall|j: int|
                    0 <= j < i ==> pair_key((#[trigger] self.entries@[j]).0) != pair_key(*key),
            decreases n - i,
        {
            if self.entries[i].0.0 == key.0 && self.entries[i].0.1 == key.1 {
                let r = self.entries[i].1.clone();
                proof {
                    lemma_pair_map_props(self.entries@);
                }
                return r;
            }
            i = i + 1;
        }
        proof {
            lemma_pair_map_props(self.entries@);
            assert(!pair_has_key(self.entries@, pair_key(*key))) by {
                if pair_has_key(self.entries@, pair_key(*key)) {
                    let j = choose|j: int|
                        0 <= j < self.entries@.len() && pair_key(self.entries@[j].0) == pair_key(
                            *key);
                }
            }
        }
        Book::new()
    }

    /// Writes `book` back under `key`, replacing whatever book the pair held.
    pub fn put_book(&mut self, key: &PairId, book: Book)
        requires
            old(self).wf(),
            book.wf(),
        ensures
            final(self).wf(),
            final(self)@ == old(self)@.insert(pair_key(*key), book@),
    {
        let ghost s0 = self.entries@;
        let n = self.entries.len();
        let mut i: usize = 0;
        while i < n
            invariant
                old(self).wf(),
                book.wf(),
                self.entries@ == s0,
                s0 == old(self).entries@,
                n == self.entries.len(),
                0 <= i <= n,
                forall|j: int|
                    0 <= j < i ==> pair_key((#[trigger] self.entries@[j]).0) != pair_key(*key),
            decreases n - i,
        {
            if self.entries[i].0.0 == key.0 && self.entries[i].0.1 == key.1 {
                self.entries.remove(i);
                self.entries.insert(i, ((key.0.clone(), key.1.clone()), book));
                proof {
                    let e = self.entries@[i as int];
                    assert(self.entries@ =~= s0.update(i as int, e));
                    lemma_pair_map_update(s0, i as int, e);
                    assert(forall|j: int|
                        0 <= j < self.entries@.len() && j != i ==> #[trigger] self.entries@[j]
                            == s0[j]);
                }
                return;
            }
            i = i + 1;
        }
        self.entries.push(((key.0.clone(), key.1.clone()), book));
        proof {
            let e = self.entries@[s0.len() as int];
            assert(self.entries@ =~= s0.push(e));
            lemma_pair_map_push(s0, e);
            assert(forall|j: int|
                0 <= j < s0.len() ==> #[trigger] self.entries@[j] == s0[j]);
        }
    }
}

} // verus!
