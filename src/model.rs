use vstd::prelude::*;

verus! {

/// What a record holds: its text and its completion flag.
pub struct RecordView {
    pub text: Seq<char>,
    pub completed: bool,
}

/// The abstract state of the store: every record under its composite key
/// (owner, identifier), and the next identifier to hand out.
pub struct StoreView {
    pub records: Map<(Seq<char>, u64), RecordView>,
    pub next_id: nat,
}

impl StoreView {
    /// The store as it is created: no records, counter at zero.
    pub open spec fn init() -> StoreView {
        StoreView { records: Map::empty(), next_id: 0 }
    }

    /// Every identifier in use was issued before, that is, lies below the counter.
    pub open spec fn wf(self) -> bool {
        forall|k: (Seq<char>, u64)| #[trigger] self.records.contains_key(k) ==> k.1 < self.next_id
    }

    /// The records of one owner, by identifier.
    pub open spec fn owned(self, owner: Seq<char>) -> Map<u64, RecordView> {
        Map::new(
            |id: u64| self.records.contains_key((owner, id)),
            |id: u64| self.records[(owner, id)],
        )
    }

    /// Whether the owner holds at least one record.
    pub open spec fn has_records(self, owner: Seq<char>) -> bool {
        exists|id: u64| #[trigger] self.records.contains_key((owner, id))
    }

    /// The state after `owner` adds a record with `text`: it gets the current
    /// counter value as identifier, and the counter moves on by one.
    pub open spec fn added(self, owner: Seq<char>, text: Seq<char>) -> StoreView {
        StoreView {
            records: self.records.insert(
                (owner, self.next_id as u64),
                RecordView { text, completed: false },
            ),
            next_id: self.next_id + 1,
        }
    }

    /// The state after the record `(owner, id)` is marked completed.
    pub open spec fn completed(self, owner: Seq<char>, id: u64) -> StoreView {
        StoreView {
            records: self.records.insert(
                (owner, id),
                RecordView { text: self.records[(owner, id)].text, completed: true },
            ),
            next_id: self.next_id,
        }
    }

    /// The state after the record `(owner, id)` is removed, if it was there.
    pub open spec fn deleted(self, owner: Seq<char>, id: u64) -> StoreView {
        StoreView { records: self.records.remove((owner, id)), next_id: self.next_id }
    }
}

/// One call on the store, as its caller makes it.
pub enum Action {
    Add { owner: Seq<char>, text: Seq<char> },
    Complete { owner: Seq<char>, id: u64 },
    Delete { owner: Seq<char>, id: u64 },
}

/// The state after one call. A call that fails leaves the state as it was.
pub open spec fn step(s: StoreView, a: Action) -> StoreView {
    match a {
        Action::Add { owner, text } => s.added(owner, text),
        Action::Complete { owner, id } => if s.records.contains_key((owner, id)) {
            s.completed(owner, id)
        } else {
            s
        },
        Action::Delete { owner, id } => if s.has_records(owner) {
            s.deleted(owner, id)
        } else {
            s
        },
    }
}

/// The state after the calls `acts`, in order.
pub open spec fn run(s: StoreView, acts: Seq<Action>) -> StoreView
    decreases acts.len(),
{
    if acts.len() == 0 {
        s
    } else {
        run(step(s, acts[0]), acts.drop_first())
    }
}

/// The identifiers that the `Add` calls among `acts` are given, in order.
pub open spec fn issued(s: StoreView, acts: Seq<Action>) -> Seq<nat>
    decreases acts.len(),
{
    if acts.len() == 0 {
        Seq::empty()
    } else {
        let rest = issued(step(s, acts[0]), acts.drop_first());
        match acts[0] {
            Action::Add { .. } => seq![s.next_id].add(rest),
            _ => rest,
        }
    }
}

/// `r` lists exactly the records of `m`, each once, in some order.
pub open spec fn is_listing(r: Seq<(u64, String, bool)>, m: Map<u64, RecordView>) -> bool {
    &&& forall|i: int|
        0 <= i < r.len() ==> #[trigger] m.contains_key(r[i].0) && m[r[i].0] == (RecordView {
            text: r[i].1@,
            completed: r[i].2,
        })
    &&& forall|id: u64| #[trigger] m.contains_key(id) ==> exists|i: int| 0 <= i < r.len() && r[i].0 == id
    &&& forall|i: int, j: int| 0 <= i < r.len() && 0 <= j < r.len() && i != j ==> r[i].0 != r[j].0
}

/// The identifiers of `r` strictly increase and stay below `next_id`.
pub open spec fn ids_ascending_below(r: Seq<(String, u64, String, bool)>, next_id: nat) -> bool {
    &&& forall|i: int, j: int| 0 <= i < j < r.len() ==> (#[trigger] r[i]).1 < (#[trigger] r[j]).1
    &&& forall|i: int| 0 <= i < r.len() ==> (#[trigger] r[i]).1 < next_id
}

/// `r` holds every record of `s` once, as (owner, identifier, text,
/// completed), in increasing order of identifier.
pub open spec fn is_dump(r: Seq<(String, u64, String, bool)>, s: StoreView) -> bool {
    &&& ids_ascending_below(r, s.next_id)
    &&& forall|i: int|
        0 <= i < r.len() ==> #[trigger] s.records.contains_key((r[i].0@, r[i].1)) && s.records[(
        r[i].0@,
        r[i].1,
    )] == (RecordView { text: r[i].2@, completed: r[i].3 })
    &&& forall|k: (Seq<char>, u64)| #[trigger]
        s.records.contains_key(k) ==> exists|i: int| 0 <= i < r.len() && (r[i].0@, r[i].1) == k
}

} // verus!
