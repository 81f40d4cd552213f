use vstd::prelude::*;
use crate::order::{Order, OrderModel};

verus! {

/// One stored entry as the model sees it: the order id and the order's fields.
pub type EntryModel = (u64, OrderModel);

/// The model of a sequence of stored entries.
pub open spec fn entries_model(s: Seq<(u64, Order)>) -> Seq<EntryModel> {
    s.map_values(|p: (u64, Order)| (p.0, p.1@))
}

/// The entries are strictly ascending by id; in particular no id repeats.
pub open spec fn sorted_by_id(s: Seq<EntryModel>) -> bool {
    forall|i: int, j: int| 0 <= i < j < s.len() ==> s[i].0 < s[j].0
}

/// Some entry carries the id `id`.
pub open spec fn has_id(s: Seq<EntryModel>, id: u64) -> bool {
    exists|i: int| 0 <= i < s.len() && s[i].0 == id
}

/// Some entry is exactly `(id, o)`.
pub open spec fn has_entry(s: Seq<EntryModel>, id: u64, o: OrderModel) -> bool {
    exists|i: int| 0 <= i < s.len() && s[i] == (id, o)
}

/// Every id in the book lies in `1 ..= bound`.
pub open spec fn ids_bounded(s: Seq<EntryModel>, bound: u64) -> bool {
    forall|i: int| 0 <= i < s.len() ==> 1 <= (#[trigger] s[i]).0 <= bound
}

/// What a book becomes when `(id, o)` is written into it: the entry is placed
/// at the unique position that keeps the book sorted, replacing an entry that
/// already carries `id`.
pub open spec fn insert_entry(s: Seq<EntryModel>, id: u64, o: OrderModel) -> Seq<EntryModel>
    decreases s.len(),
{
    if s.len() == 0 {
        seq![(id, o)]
    } else if s[0].0 < id {
        seq![s[0]] + insert_entry(s.drop_first(), id, o)
    } else if s[0].0 == id {
        seq![(id, o)] + s.drop_first()
    } else {
        seq![(id, o)] + s
    }
}

/// Prepending an entry whose id lies below every id of a sorted book keeps
/// the book sorted.
proof fn lemma_cons_sorted(h: EntryModel, t: Seq<EntryModel>)
    requires
        sorted_by_id(t),
        forall|i: int| 0 <= i < t.len() ==> h.0 < (#[trigger] t[i]).0,
    ensures
        sorted_by_id(seq![h] + t),
{
    let r = seq![h] + t;
    assert(r[0] == h);
    assert(forall|i: int| 0 <= i < t.len() ==> #[trigger] r[i + 1] == t[i]);
    assert forall|x: int, y: int| 0 <= x < y < r.len() implies r[x].0 < r[y].0 by {
        if x == 0 {
            assert(r[y] == t[y - 1]);
        } else {
            assert(r[x] == t[x - 1]);
            assert(r[y] == t[y - 1]);
        }
    }
}

/// What a book with one entry in front holds: the front entry, and whatever
/// the rest holds.
proof fn lemma_cons_has(h: EntryModel, t: Seq<EntryModel>, id: u64, o: OrderModel)
    ensures
        has_entry(seq![h] + t, id, o) <==> (h == (id, o) || has_entry(t, id, o)),
        has_id(seq![h] + t, id) <==> (h.0 == id || has_id(t, id)),
{
    let r = seq![h] + t;
    assert(r[0] == h);
    assert(forall|i: int| 0 <= i < t.len() ==> #[trigger] r[i + 1] == t[i]);
    if has_entry(r, id, o) {
        let i = choose|i: int| 0 <= i < r.len() && r[i] == (id, o);
        if i > 0 {
            assert(t[i - 1] == (id, o));
        }
    }
    if has_entry(t, id, o) {
        let i = choose|i: int| 0 <= i < t.len() && t[i] == (id, o);
        assert(r[i + 1] == (id, o));
    }
    if h == (id, o) {
        assert(r[0] == (id, o));
    }
    if has_id(r, id) {
        let i = choose|i: int| 0 <= i < r.len() && r[i].0 == id;
        if i > 0 {
            assert(t[i - 1].0 == id);
        }
    }
    if has_id(t, id) {
        let i = choose|i: int| 0 <= i < t.len() && t[i].0 == id;
        assert(r[i + 1].0 == id);
    }
    if h.0 == id {
        assert(r[0].0 == id);
    }
}

/// Writing into a sorted book keeps it sorted, grows it by one entry unless
/// the id was already present, and changes membership in exactly one point:
/// the entries afterwards are the new entry together with every old entry
/// whose id differs from the new id.
pub proof fn lemma_insert_entry_props(s: Seq<EntryModel>, id: u64, o: OrderModel)
    requires
        sorted_by_id(s),
    ensures
        sorted_by_id(insert_entry(s, id, o)),
        insert_entry(s, id, o).len() == s.len() + (if has_id(s, id) { 0int } else { 1int }),
        forall|id2: u64, o2: OrderModel|
            #![trigger has_entry(insert_entry(s, id, o), id2, o2)]
            #![trigger has_entry(s, id2, o2)]
            has_entry(insert_entry(s, id, o), id2, o2) <==> ((id2 == id && o2 == o) || (
            has_entry(s, id2, o2) && id2 != id)),
        forall|id2: u64|
            #![trigger has_id(insert_entry(s, id, o), id2)]
            #![trigger has_id(s, id2)]
            has_id(insert_entry(s, id, o), id2) <==> (id2 == id || has_id(s, id2)),
    decreases s.len(),
{
    let r = insert_entry(s, id, o);
    if s.len() == 0 {
        assert(r == seq![(id, o)]);
        assert(r[0] == (id, o));
        assert(!has_id(s, id)) by {
            if has_id(s, id) {
                let i = choose|i: int| 0 <= i < s.len() && s[i].0 == id;
            }
        }
        assert forall|id2: u64, o2: OrderModel|
            has_entry(r, id2, o2) <==> ((id2 == id && o2 == o) || (has_entry(s, id2, o2)
                && id2 != id)) by {
            if has_entry(r, id2, o2) {
                let i = choose|i: int| 0 <= i < r.len() && r[i] == (id2, o2);
                assert(r[i] == r[0]);
            }
            if has_entry(s, id2, o2) {
                let i = choose|i: int| 0 <= i < s.len() && s[i] == (id2, o2);
            }
        }
        assert forall|id2: u64| has_id(r, id2) <==> (id2 == id || has_id(s, id2)) by {
            if has_id(r, id2) {
                let i = choose|i: int| 0 <= i < r.len() && r[i].0 == id2;
                assert(r[i] == r[0]);
            }
            if has_id(s, id2) {
                let i = choose|i: int| 0 <= i < s.len() && s[i].0 == id2;
            }
        }
    } else if s[0].0 < id {
        let t = s.drop_first();
        let h = s[0];
        assert(s =~= seq![h] + t);
        assert(forall|i: int| 0 <= i < t.len() ==> #[trigger] t[i] == s[i + 1]);
        assert forall|x: int, y: int| 0 <= x < y < t.len() implies t[x].0 < t[y].0 by {
            assert(t[x] == s[x + 1]);
            assert(t[y] == s[y + 1]);
        }
        assert(sorted_by_id(t));
        lemma_insert_entry_props(t, id, o);
        let rt = insert_entry(t, id, o);
        assert(r == seq![h] + rt);
        // The old head lies below the new id and below every id of `rt`.
        assert forall|j: int| 0 <= j < rt.len() implies h.0 < (#[trigger] rt[j]).0 by {
            assert(rt[j] == (rt[j].0, rt[j].1));
            assert(has_entry(rt, rt[j].0, rt[j].1));
            assert(has_entry(rt, rt[j].0, rt[j].1) <==> ((rt[j].0 == id && rt[j].1 == o)
                || (has_entry(t, rt[j].0, rt[j].1) && rt[j].0 != id)));
            if !(rt[j].0 == id && rt[j].1 == o) {
                let k = choose|k: int| 0 <= k < t.len() && t[k] == (rt[j].0, rt[j].1);
                assert(h.0 < t[k].0);
            }
        }
        lemma_cons_sorted(h, rt);
        lemma_cons_has(h, t, id, o);
        assert(has_id(s, id) == has_id(t, id));
        assert forall|id2: u64, o2: OrderModel|
            has_entry(r, id2, o2) <==> ((id2 == id && o2 == o) || (has_entry(s, id2, o2)
                && id2 != id)) by {
            lemma_cons_has(h, rt, id2, o2);
            lemma_cons_has(h, t, id2, o2);
            assert(has_entry(rt, id2, o2) <==> ((id2 == id && o2 == o) || (has_entry(
                t, id2, o2) && id2 != id)));
        }
        assert forall|id2: u64| has_id(r, id2) <==> (id2 == id || has_id(s, id2)) by {
            lemma_cons_has(h, rt, id2, o);
            lemma_cons_has(h, t, id2, o);
            assert(has_id(rt, id2) <==> (id2 == id || has_id(t, id2)));
        }
    } else if s[0].0 == id {
        let t = s.drop_first();
        let h = s[0];
        assert(s =~= seq![h] + t);
        assert(forall|i: int| 0 <= i < t.len() ==> #[trigger] t[i] == s[i + 1]);
        assert(r == seq![(id, o)] + t);
        assert forall|x: int, y: int| 0 <= x < y < t.len() implies t[x].0 < t[y].0 by {
            assert(t[x] == s[x + 1]);
            assert(t[y] == s[y + 1]);
        }
        assert(sorted_by_id(t));
        assert forall|i: int| 0 <= i < t.len() implies id < (#[trigger] t[i]).0 by {
            assert(t[i] == s[i + 1]);
        }
        lemma_cons_sorted((id, o), t);
        assert(has_id(s, id)) by {
            assert(s[0].0 == id);
        }
        assert forall|id2: u64, o2: OrderModel|
            has_entry(r, id2, o2) <==> ((id2 == id && o2 == o) || (has_entry(s, id2, o2)
                && id2 != id)) by {
            lemma_cons_has((id, o), t, id2, o2);
            lemma_cons_has(h, t, id2, o2);
            if has_entry(t, id2, o2) && id2 == id {
                let k = choose|k: int| 0 <= k < t.len() && t[k] == (id2, o2);
                assert(id < t[k].0);
            }
        }
        assert forall|id2: u64| has_id(r, id2) <==> (id2 == id || has_id(s, id2)) by {
            lemma_cons_has((id, o), t, id2, o);
            lemma_cons_has(h, t, id2, o);
            if has_id(t, id2) && id2 == id {
                let k = choose|k: int| 0 <= k < t.len() && t[k].0 == id2;
                assert(id < t[k].0);
            }
        }
    } else {
        // The head's id already lies above `id`: the new entry goes in front.
        assert(r == seq![(id, o)] + s);
        assert forall|i: int| 0 <= i < s.len() implies id < (#[trigger] s[i]).0 by {
            if i > 0 {
                assert(s[0].0 < s[i].0);
            }
        }
        lemma_cons_sorted((id, o), s);
        assert(!has_id(s, id)) by {
            if has_id(s, id) {
                let i = choose|i: int| 0 <= i < s.len() && s[i].0 == id;
                assert(id < s[i].0);
            }
        }
        assert forall|id2: u64, o2: OrderModel|
            has_entry(r, id2, o2) <==> ((id2 == id && o2 == o) || (has_entry(s, id2, o2)
                && id2 != id)) by {
            lemma_cons_has((id, o), s, id2, o2);
            if has_entry(s, id2, o2) && id2 == id {
                let k = choose|k: int| 0 <= k < s.len() && s[k] == (id2, o2);
                assert(id < s[k].0);
            }
        }
        assert forall|id2: u64| has_id(r, id2) <==> (id2 == id || has_id(s, id2)) by {
            lemma_cons_has((id, o), s, id2, o);
            if has_id(s, id2) && id2 == id {
                let k = choose|k: int| 0 <= k < s.len() && s[k].0 == id2;
                assert(id < s[k].0);
            }
        }
    }
}

/// Writing an id above every id already present appends the entry at the end.
pub proof fn lemma_insert_entry_append(s: Seq<EntryModel>, id: u64, o: OrderModel)
    requires
        sorted_by_id(s),
        forall|i: int| 0 <= i < s.len() ==> (#[trigger] s[i]).0 < id,
    ensures
        insert_entry(s, id, o) == s.push((id, o)),
    decreases s.len(),
{
    if s.len() == 0 {
        assert(insert_entry(s, id, o) =~= s.push((id, o)));
    } else {
        let t = s.drop_first();
        assert(forall|i: int| 0 <= i < t.len() ==> #[trigger] t[i] == s[i + 1]);
        lemma_insert_entry_append(t, id, o);
        assert(insert_entry(s, id, o) =~= s.push((id, o)));
    }
}

/// The inner book of one index key: the `(id, order)` entries kept strictly
/// ascending by id. Values move by copy: a book fetched from an index is a
/// clone, and must be written back for an update to be seen.
pub struct Book {
    entries: Vec<(u64, Order)>,
}

impl View for Book {
    type V = Seq<EntryModel>;

    closed spec fn view(&self) -> Seq<EntryModel> {
        entries_model(self.entries@)
    }
}

impl Book {
    /// The book's entries are strictly ascending by id.
    pub open spec fn wf(self) -> bool {
        sorted_by_id(self@)
    }

    /// An empty book.
    pub fn new() -> (r: Self)
        ensures
            r@ == Seq::<EntryModel>::empty(),
            r.wf(),
    {
        let r = Book { entries: Vec::new() };
        proof {
            assert(r@ =~= Seq::<EntryModel>::empty());
        }
        r
    }

    /// How many orders the book holds.
    pub fn len(&self) -> (r: usize)
        ensures
            r == self@.len(),
    {
        self.entries.len()
    }

    /// Writes `(id, order)` into the book at its sorted position.
    #[verifier::rlimit(50)]
    pub fn insert(&mut self, id: u64, order: Order)
        requires
            old(self).wf(),
        ensures
            final(self).wf(),
            final(self)@ == insert_entry(old(self)@, id, order@),
    {
        let ghost s0 = self@;
        proof {
            assert(s0.subrange(0, s0.len() as int) =~= s0);
            assert(s0.subrange(0, 0) + insert_entry(s0, id, order@) =~= insert_entry(
                s0, id, order@));
        }
        let mut i: usize = 0;
        while i < self.entries.len() && self.entries[i].0 < id
            invariant
                old(self).wf(),
                self.entries@ == old(self).entries@,
                s0 == self@,
                0 <= i <= self.entries.len(),
                s0.len() == self.entries.len(),
                forall|j: int| 0 <= j < i ==> (#[trigger] s0[j]).0 < id,
                insert_entry(s0, id, order@) == s0.subrange(0, i as int) + insert_entry(
                    s0.subrange(i as int, s0.len() as int), id, order@),
            decreases self.entries.len() - i,
        {
            proof {
                let tail = s0.subrange(i as int, s0.len() as int);
                assert(tail[0] == s0[i as int]);
                assert(tail[0].0 < id);
                assert(tail.drop_first() =~= s0.subrange(i as int + 1, s0.len() as int));
                assert(insert_entry(tail, id, order@) == seq![tail[0]] + insert_entry(
                    tail.drop_first(), id, order@));
                assert(s0.subrange(0, i as int) + (seq![tail[0]] + insert_entry(
                    tail.drop_first(), id, order@)) =~= s0.subrange(0, i as int + 1)
                    + insert_entry(s0.subrange(i as int + 1, s0.len() as int), id, order@));
            }
            i = i + 1;
        }
        proof {
            lemma_insert_entry_props(s0, id, order@);
        }
        if i < self.entries.len() && self.entries[i].0 == id {
            let ghost tail = s0.subrange(i as int, s0.len() as int);
            self.entries.remove(i);
            self.entries.insert(i, (id, order));
            proof {
                assert(tail[0].0 == id);
                assert(insert_entry(tail, id, order@) == seq![(id, order@)]
                    + tail.drop_first());
                assert(tail.drop_first() =~= s0.subrange(i as int + 1, s0.len() as int));
                assert(self@ =~= s0.subrange(0, i as int) + (seq![(id, order@)]
                    + s0.subrange(i as int + 1, s0.len() as int)));
            }
        } else {
            let ghost tail = s0.subrange(i as int, s0.len() as int);
            self.entries.insert(i, (id, order));
            proof {
                if tail.len() == 0 {
                    assert(insert_entry(tail, id, order@) == seq![(id, order@)]);
                } else {
                    assert(tail[0] == s0[i as int]);
                    assert(tail[0].0 > id);
                    assert(insert_entry(tail, id, order@) == seq![(id, order@)] + tail);
                }
                assert(self@ =~= s0.subrange(0, i as int) + insert_entry(tail, id, order@));
            }
        }
    }

    /// Hands the entries out, sorted ascending by id.
    pub fn into_entries(self) -> (r: Vec<(u64, Order)>)
        ensures
            entries_model(r@) == self@,
    {
        self.entries
    }
}

impl Clone for Book {
    /// An equal copy; books move between an index and its callers by copy.
    fn clone(&self) -> (r: Self)
        ensures
            r@ == self@,
    {
        let mut entries: Vec<(u64, Order)> = Vec::new();
        let mut i: usize = 0;
        while i < self.entries.len()
            invariant
                0 <= i <= self.entries.len(),
                entries@.len() == i,
                forall|j: int| 0 <= j < i ==> #[trigger] entries@[j] == self.entries@[j],
            decreases self.entries.len() - i,
        {
            let id = self.entries[i].0;
            let order = self.entries[i].1.clone();
            entries.push((id, order));
            i = i + 1;
        }
        let r = Book { entries };
        proof {
            assert(r.entries@ =~= self.entries@);
        }
        r
    }
}


} // verus!

