use vstd::prelude::*;

use crate::model::{ids_ascending_below, is_dump, is_listing, RecordView, StoreView};

verus! {

/// A record's text and completion flag.
pub struct TodoItem {
    text: String,
    completed: bool,
}

/// The one way an operation on the store fails: the targeted record, or any
/// record of the caller, does not exist.
#[derive(Debug, Clone, Copy, PartialEq, Eq, Structural)]
pub enum TodoError {
    NotFound,
}

/// A record together with its owner and identifier.
struct Entry {
    owner: String,
    id: u64,
    item: TodoItem,
}

/// The record store. Records are kept in the order they were added, so their
/// identifiers strictly increase along `entries`; `records` is the map that
/// they stand for.
pub struct TodoList {
    entries: Vec<Entry>,
    next_id: u64,
    records: Ghost<Map<(Seq<char>, u64), RecordView>>,
}

spec fn key_of(e: Entry) -> (Seq<char>, u64) {
    (e.owner@, e.id)
}

spec fn record_of(e: Entry) -> RecordView {
    RecordView { text: e.item.text@, completed: e.item.completed }
}

impl View for TodoList {
    type V = StoreView;

    closed spec fn view(&self) -> StoreView {
        StoreView { records: self.records@, next_id: self.next_id as nat }
    }
}

impl TodoList {
    /// The store's internal consistency: identifiers increase along the
    /// entries and lie below the counter, and the entries hold exactly the
    /// records of the map.
    pub closed spec fn wf(&self) -> bool {
        let e = self.entries@;
        let m = self.records@;
        &&& forall|i: int| 0 <= i < e.len() ==> (#[trigger] e[i]).id < self.next_id
        &&& forall|i: int, j: int| 0 <= i < j < e.len() ==> (#[trigger] e[i]).id < (#[trigger] e[j]).id
        &&& forall|i: int|
            0 <= i < e.len() ==> m.contains_key(key_of(#[trigger] e[i])) && m[key_of(e[i])]
                == record_of(e[i])
        &&& forall|k: (Seq<char>, u64)|
            #[trigger] m.contains_key(k) ==> exists|i: int| 0 <= i < e.len() && key_of(#[trigger] e[i]) == k
    }

    /// An empty store whose counter starts at zero.
    pub fn new() -> (r: TodoList)
        ensures
            r.wf(),
            r@ == StoreView::init(),
    {
        TodoList { entries: Vec::new(), next_id: 0, records: Ghost(Map::empty()) }
    }

    /// The identifier that the next added record will be given.
    pub fn next_id(&self) -> (r: u64)
        ensures
            r == self@.next_id,
    {
        self.next_id
    }

    /// Appends a record whose identifier exceeds every one in use and lies
    /// below the counter.
    fn push_entry(&mut self, owner: String, id: u64, text: String, completed: bool)
        requires
            old(self).wf(),
            id < old(self).next_id,
            forall|i: int| 0 <= i < old(self).entries@.len() ==> (#[trigger] old(self).entries@[i]).id < id,
        ensures
            final(self).wf(),
            final(self).next_id == old(self).next_id,
            final(self).entries@ == old(self).entries@.push(
                (Entry { owner, id, item: TodoItem { text, completed } }),
            ),
            final(self)@.records == old(self)@.records.insert(
                (owner@, id),
                RecordView { text: text@, completed },
            ),
    {
        let ghost k = (owner@, id);
        let ghost rec = RecordView { text: text@, completed };
        let ghost old_entries = self.entries@;
        self.entries.push(Entry { owner, id, item: TodoItem { text, completed } });
        self.records = Ghost(self.records@.insert(k, rec));
        proof {
            let e = self.entries@;
            let m = self.records@;
            assert(key_of(e[old_entries.len() as int]) == k);
            assert forall|i: int| 0 <= i < e.len() implies m.contains_key(key_of(#[trigger] e[i]))
                && m[key_of(e[i])] == record_of(e[i]) by {
                if i < old_entries.len() {
                    assert(e[i] == old_entries[i]);
                }
            }
            assert forall|q: (Seq<char>, u64)| #[trigger] m.contains_key(q) implies exists|i: int|
                0 <= i < e.len() && key_of(#[trigger] e[i]) == q by {
                if q != k {
                    let i = choose|i: int| 0 <= i < old_entries.len() && key_of(old_entries[i]) == q;
                    assert(e[i] == old_entries[i]);
                }
            }
            assert forall|i: int, j: int| 0 <= i < j < e.len() implies (#[trigger] e[i]).id < (
            #[trigger] e[j]).id by {
                assert(e[i] == old_entries[i]);
                if j < old_entries.len() {
                    assert(e[j] == old_entries[j]);
                }
            }
            assert forall|i: int| 0 <= i < e.len() implies (#[trigger] e[i]).id < self.next_id by {
                if i < old_entries.len() {
                    assert(e[i] == old_entries[i]);
                }
            }
        }
    }

    /// Adds a record with `text`, not completed, under `owner`, and returns
    /// the identifier it was given: the counter's value, which then moves on.
    pub fn add_todo(&mut self, owner: &String, text: String) -> (id: u64)
        requires
            old(self).wf(),
            old(self)@.next_id < u64::MAX,
        ensures
            final(self).wf(),
            id == old(self)@.next_id,
            final(self)@ == old(self)@.added(owner@, text@),
    {
        let id = self.next_id;
        self.next_id = id + 1;
        self.push_entry(owner.clone(), id, text, false);
        id
    }

    /// Every record of `owner` as (identifier, text, completed), each once;
    /// empty where `owner` holds none.
    pub fn list_todos(&self, owner: &String) -> (r: Vec<(u64, String, bool)>)
        requires
            self.wf(),
        ensures
            is_listing(r@, self@.owned(owner@)),
    {
        let mut out: Vec<(u64, String, bool)> = Vec::new();
        let ghost mut idx: Seq<int> = Seq::empty();
        let mut i: usize = 0;
        while i < self.entries.len()
            invariant
                self.wf(),
                i <= self.entries@.len(),
                out@.len() == idx.len(),
                forall|j: int|
                    0 <= j < idx.len() ==> 0 <= #[trigger] idx[j] < i && self.entries@[idx[j]].owner@
                        == owner@ && out@[j].0 == self.entries@[idx[j]].id && out@[j].1@
                        == self.entries@[idx[j]].item.text@ && out@[j].2
                        == self.entries@[idx[j]].item.completed,
                forall|j1: int, j2: int| 0 <= j1 < j2 < idx.len() ==> #[trigger] idx[j1] < #[trigger] idx[j2],
                forall|k: int|
                    0 <= k < i && (#[trigger] self.entries@[k]).owner@ == owner@ ==> exists|j: int|
                        0 <= j < idx.len() && idx[j] == k,
            decreases self.entries@.len() - i,
        {
            let ghost prev = idx;
            let e = &self.entries[i];
            if e.owner == *owner {
                out.push((e.id, e.item.text.clone(), e.item.completed));
                proof {
                    idx = idx.push(i as int);
                    assert(idx[idx.len() - 1] == i);
                }
            }
            proof {
                assert forall|k: int|
                    0 <= k <= i && (#[trigger] self.entries@[k]).owner@ == owner@ implies exists|j: int|
                        0 <= j < idx.len() && idx[j] == k by {
                    if k < i {
                        let j = choose|j: int| 0 <= j < prev.len() && prev[j] == k;
                        assert(idx[j] == prev[j]);
                    } else {
                        assert(idx[idx.len() - 1] == k);
                    }
                }
            }
            i = i + 1;
        }
        proof {
            let e = self.entries@;
            let m = self@.owned(owner@);
            let r = out@;
            assert forall|j: int| 0 <= j < r.len() implies #[trigger] m.contains_key(r[j].0) && m[r[j].0]
                == (RecordView { text: r[j].1@, completed: r[j].2 }) by {
                assert(key_of(e[idx[j]]) == (owner@, r[j].0));
            }
            assert forall|id: u64| #[trigger] m.contains_key(id) implies exists|j: int|
                0 <= j < r.len() && r[j].0 == id by {
                assert(self.records@.contains_key((owner@, id)));
                let k = choose|k: int| 0 <= k < e.len() && key_of(#[trigger] e[k]) == (owner@, id);
                assert(e[k].owner@ == owner@);
                let j = choose|j: int| 0 <= j < idx.len() && idx[j] == k;
                assert(r[j].0 == id);
            }
            assert forall|j1: int, j2: int| 0 <= j1 < r.len() && 0 <= j2 < r.len() && j1 != j2 implies r[j1].0
                != r[j2].0 by {
                if j1 < j2 {
                    assert(idx[j1] < idx[j2]);
                    assert(e[idx[j1]].id < e[idx[j2]].id);
                } else {
                    assert(idx[j2] < idx[j1]);
                    assert(e[idx[j2]].id < e[idx[j1]].id);
                }
            }
        }
        out
    }

    /// Every record of the store as (owner, identifier, text, completed), in
    /// increasing order of identifier: with the counter, the store's
    /// persistent form.
    pub fn records(&self) -> (r: Vec<(String, u64, String, bool)>)
        requires
            self.wf(),
        ensures
            is_dump(r@, self@),
    {
        let mut out: Vec<(String, u64, String, bool)> = Vec::new();
        let mut i: usize = 0;
        while i < self.entries.len()
            invariant
                self.wf(),
                i <= self.entries@.len(),
                out@.len() == i,
                forall|j: int|
                    0 <= j < i ==> (#[trigger] out@[j]).0@ == self.entries@[j].owner@ && out@[j].1
                        == self.entries@[j].id && out@[j].2@ == self.entries@[j].item.text@
                        && out@[j].3 == self.entries@[j].item.completed,
            decreases self.entries@.len() - i,
        {
            let e = &self.entries[i];
            out.push((e.owner.clone(), e.id, e.item.text.clone(), e.item.completed));
            i = i + 1;
        }
        proof {
            let e = self.entries@;
            let r = out@;
            assert forall|i: int, j: int| 0 <= i < j < r.len() implies (#[trigger] r[i]).1 < (
            #[trigger] r[j]).1 by {
                assert(e[i].id < e[j].id);
            }
            assert forall|i: int| 0 <= i < r.len() implies (#[trigger] r[i]).1 < self@.next_id by {
                assert(e[i].id < self.next_id);
            }
            assert forall|i: int| 0 <= i < r.len() implies #[trigger] self@.records.contains_key(
                (r[i].0@, r[i].1),
            ) && self@.records[(r[i].0@, r[i].1)] == (RecordView {
                text: r[i].2@,
                completed: r[i].3,
            }) by {
                assert(key_of(e[i]) == (r[i].0@, r[i].1));
            }
            assert forall|k: (Seq<char>, u64)| #[trigger] self@.records.contains_key(k) implies exists|
                i: int,
            | 0 <= i < r.len() && (r[i].0@, r[i].1) == k by {
                let i = choose|i: int| 0 <= i < e.len() && key_of(#[trigger] e[i]) == k;
                assert((r[i].0@, r[i].1) == k);
            }
        }
        out
    }

    /// Rebuilds a store from its persistent form: the records, as `records`
    /// gives them, and the counter. Fails where the identifiers do not
    /// strictly increase or do not all lie below `next_id`.
    pub fn from_records(records: &Vec<(String, u64, String, bool)>, next_id: u64) -> (r: Option<
        TodoList,
    >)
        ensures
            r is Some <==> ids_ascending_below(records@, next_id as nat),
            r matches Some(l) ==> l.wf() && l@.next_id == next_id && is_dump(records@, l@),
    {
        let mut list = TodoList { entries: Vec::new(), next_id, records: Ghost(Map::empty()) };
        let mut i: usize = 0;
        while i < records.len()
            invariant
                list.wf(),
                list.next_id == next_id,
                i <= records@.len(),
                list.entries@.len() == i,
                forall|j: int| 0 <= j < i ==> (#[trigger] list.entries@[j]).id == records@[j].1,
                is_dump(records@.take(i as int), list@),
            decreases records@.len() - i,
        {
            let ghost pre = records@.take(i as int);
            let ghost m0 = list.records@;
            let (owner, id, text, completed) = &records[i];
            if *id >= next_id || (i > 0 && records[i - 1].1 >= *id) {
                proof {
                    if *id >= next_id {
                        assert(records@[i as int].1 >= next_id);
                    } else {
                        assert(records@[i - 1].1 >= records@[i as int].1);
                    }
                }
                return None;
            }
            proof {
                assert forall|j: int| 0 <= j < list.entries@.len() implies (
                #[trigger] list.entries@[j]).id < *id by {
                    assert(pre[j] == records@[j]);
                    if j < i - 1 {
                        assert(pre[i - 1] == records@[i - 1]);
                    }
                }
            }
            list.push_entry(owner.clone(), *id, text.clone(), *completed);
            i = i + 1;
            proof {
                let t = records@.take(i as int);
                let m = list.records@;
                let k = (owner@, *id);
                assert(t[i - 1] == records@[i - 1]);
                assert forall|a: int, b: int| 0 <= a < b < t.len() implies (#[trigger] t[a]).1 < (
                #[trigger] t[b]).1 by {
                    assert(t[a] == records@[a]);
                    assert(t[b] == records@[b]);
                    if b < i - 1 {
                        assert(pre[a] == t[a] && pre[b] == t[b]);
                    } else if a < i - 2 {
                        assert(pre[a] == t[a] && pre[i - 2] == t[i - 2]);
                    }
                }
                assert forall|a: int| 0 <= a < t.len() implies (#[trigger] t[a]).1 < list@.next_id by {
                    if a < i - 1 {
                        assert(pre[a] == t[a]);
                    }
                }
                assert forall|a: int| 0 <= a < t.len() implies #[trigger] m.contains_key((t[a].0@, t[a].1))
                    && m[(t[a].0@, t[a].1)] == (RecordView { text: t[a].2@, completed: t[a].3 }) by {
                    if a < i - 1 {
                        assert(pre[a] == t[a]);
                        assert(m0.contains_key((pre[a].0@, pre[a].1)));
                        assert(t[a].1 < *id);
                    } else {
                        assert(t[a] == records@[i - 1]);
                        assert(t[a].0@ == owner@ && t[a].1 == *id && t[a].2@ == text@);
                    }
                }
                assert forall|q: (Seq<char>, u64)| #[trigger] m.contains_key(q) implies exists|a: int|
                    0 <= a < t.len() && (t[a].0@, t[a].1) == q by {
                    if q != k {
                        assert(m0.contains_key(q));
                        let a = choose|a: int| 0 <= a < pre.len() && (pre[a].0@, pre[a].1) == q;
                        assert(t[a] == pre[a]);
                    } else {
                        assert((t[i - 1].0@, t[i - 1].1) == q);
                    }
                }
            }
        }
        proof {
            assert(records@.take(records@.len() as int) =~= records@);
        }
        Some(list)
    }

    /// The position of the record `(owner, id)` among the entries, if any.
    fn find(&self, owner: &String, id: u64) -> (r: Option<usize>)
        requires
            self.wf(),
        ensures
            match r {
                Some(p) => p < self.entries@.len() && key_of(self.entries@[p as int]) == (owner@, id),
                None => !self@.records.contains_key((owner@, id)),
            },
    {
        let mut i: usize = 0;
        while i < self.entries.len()
            invariant
                self.wf(),
                i <= self.entries@.len(),
                forall|j: int| 0 <= j < i ==> key_of(#[trigger] self.entries@[j]) != (owner@, id),
            decreases self.entries@.len() - i,
        {
            let e = &self.entries[i];
            if e.id == id && e.owner == *owner {
                return Some(i);
            }
            i = i + 1;
        }
        None
    }

    /// Whether `owner` holds any record.
    fn owns_any(&self, owner: &String) -> (r: bool)
        requires
            self.wf(),
        ensures
            r == self@.has_records(owner@),
    {
        let mut i: usize = 0;
        while i < self.entries.len()
            invariant
                self.wf(),
                i <= self.entries@.len(),
                forall|j: int| 0 <= j < i ==> (#[trigger] self.entries@[j]).owner@ != owner@,
            decreases self.entries@.len() - i,
        {
            if self.entries[i].owner == *owner {
                proof {
                    assert(self@.records.contains_key(key_of(self.entries@[i as int])));
                }
                return true;
            }
            i = i + 1;
        }
        false
    }

    /// Marks the record `id` of `owner` as completed. Fails, changing
    /// nothing, where `owner` has no record with that identifier.
    pub fn set_completed(&mut self, owner: &String, id: u64) -> (r: Result<(), TodoError>)
        requires
            old(self).wf(),
        ensures
            final(self).wf(),
            r is Ok <==> old(self)@.records.contains_key((owner@, id)),
            r is Ok ==> final(self)@ == old(self)@.completed(owner@, id),
            r is Err ==> r == Err::<(), TodoError>(TodoError::NotFound) && final(self)@ == old(self)@,
    {
        match self.find(owner, id) {
            None => Err(TodoError::NotFound),
            Some(p) => {
                let ghost old_entries = self.entries@;
                let ghost k = (owner@, id);
                self.entries[p].item.completed = true;
                self.records = Ghost(
                    self.records@.insert(
                        k,
                        RecordView { text: self.records@[k].text, completed: true },
                    ),
                );
                proof {
                    let e = self.entries@;
                    let m = self.records@;
                    assert forall|i: int| 0 <= i < e.len() implies m.contains_key(
                        key_of(#[trigger] e[i]),
                    ) && m[key_of(e[i])] == record_of(e[i]) by {
                        if i != p {
                            assert(e[i] == old_entries[i]);
                            assert(old_entries[i].id != old_entries[p as int].id);
                        }
                    }
                    assert forall|q: (Seq<char>, u64)| #[trigger] m.contains_key(q) implies exists|
                        i: int,
                    | 0 <= i < e.len() && key_of(#[trigger] e[i]) == q by {
                        let i = choose|i: int| 0 <= i < old_entries.len() && key_of(old_entries[i]) == q;
                        assert(key_of(e[i]) == key_of(old_entries[i]));
                    }
                    assert forall|i: int, j: int| 0 <= i < j < e.len() implies (#[trigger] e[i]).id < (
                    #[trigger] e[j]).id by {
                        assert(e[i].id == old_entries[i].id && e[j].id == old_entries[j].id);
                    }
                    assert forall|i: int| 0 <= i < e.len() implies (#[trigger] e[i]).id < self.next_id by {
                        assert(e[i].id == old_entries[i].id);
                    }
                }
                Ok(())
            },
        }
    }

    /// Removes the record `id` of `owner`. Fails, changing nothing, where
    /// `owner` holds no record at all; where `owner` holds records but none
    /// with that identifier, nothing changes and the call succeeds.
    pub fn delete_todo(&mut self, owner: &String, id: u64) -> (r: Result<(), TodoError>)
        requires
            old(self).wf(),
        ensures
            final(self).wf(),
            r is Ok <==> old(self)@.has_records(owner@),
            r is Ok ==> final(self)@ == old(self)@.deleted(owner@, id),
            r is Err ==> r == Err::<(), TodoError>(TodoError::NotFound) && final(self)@ == old(self)@,
    {
        if !self.owns_any(owner) {
            return Err(TodoError::NotFound);
        }
        match self.find(owner, id) {
            None => {
                proof {
                    assert(self.records@.remove((owner@, id)) =~= self.records@);
                }
            },
            Some(p) => {
                let ghost old_entries = self.entries@;
                let ghost k = (owner@, id);
                self.entries.remove(p);
                self.records = Ghost(self.records@.remove(k));
                proof {
                    let e = self.entries@;
                    let m = self.records@;
                    assert forall|i: int| 0 <= i < e.len() implies m.contains_key(
                        key_of(#[trigger] e[i]),
                    ) && m[key_of(e[i])] == record_of(e[i]) by {
                        if i < p {
                            assert(e[i] == old_entries[i]);
                            assert(old_entries[i].id < old_entries[p as int].id);
                        } else {
                            assert(e[i] == old_entries[i + 1]);
                            assert(old_entries[p as int].id < old_entries[i + 1].id);
                        }
                    }
                    assert forall|q: (Seq<char>, u64)| #[trigger] m.contains_key(q) implies exists|
                        i: int,
                    | 0 <= i < e.len() && key_of(#[trigger] e[i]) == q by {
                        let i = choose|i: int| 0 <= i < old_entries.len() && key_of(old_entries[i]) == q;
                        if i < p {
                            assert(e[i] == old_entries[i]);
                        } else {
                            assert(i != p);
                            assert(e[i - 1] == old_entries[i]);
                        }
                    }
                    assert forall|i: int, j: int| 0 <= i < j < e.len() implies (#[trigger] e[i]).id < (
                    #[trigger] e[j]).id by {
                        let oi = if i < p { i } else { i + 1 };
                        let oj = if j < p { j } else { j + 1 };
                        assert(e[i] == old_entries[oi] && e[j] == old_entries[oj]);
                    }
                    assert forall|i: int| 0 <= i < e.len() implies (#[trigger] e[i]).id < self.next_id by {
                        let oi = if i < p { i } else { i + 1 };
                        assert(e[i] == old_entries[oi]);
                    }
                }
            },
        }
        Ok(())
    }
}

} // verus!
