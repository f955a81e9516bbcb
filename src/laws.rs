use vstd::prelude::*;

use crate::model::{
    ids_ascending_below, is_dump, is_listing, issued, run, step, Action, RecordView, StoreView,
};

verus! {

/// A new store is well formed, and lists nothing for any owner: every
/// listing of an owner's records is empty.
pub proof fn lemma_initial_store_lists_nothing(owner: Seq<char>)
    ensures
        StoreView::init().wf(),
        StoreView::init().owned(owner) == Map::<u64, RecordView>::empty(),
        forall|r: Seq<(u64, String, bool)>| #[trigger]
            is_listing(r, StoreView::init().owned(owner)) ==> r.len() == 0,
{
    assert(StoreView::init().owned(owner) =~= Map::<u64, RecordView>::empty());
    assert forall|r: Seq<(u64, String, bool)>| #[trigger]
        is_listing(r, StoreView::init().owned(owner)) implies r.len() == 0 by {
        if r.len() > 0 {
            assert(StoreView::init().owned(owner).contains_key(r[0].0));
        }
    }
}

/// Every call keeps the store well formed: identifiers in use stay below the
/// counter.
pub proof fn lemma_step_preserves_wf(s: StoreView, a: Action)
    requires
        s.wf(),
    ensures
        step(s, a).wf(),
{
}

/// After `owner` adds `text`, the owner's records are the earlier ones plus
/// one new record `(id, text, not completed)`, where `id` is the counter's
/// value, which no record of any owner carried before.
pub proof fn lemma_add_then_list(s: StoreView, owner: Seq<char>, text: Seq<char>)
    requires
        s.wf(),
        s.next_id < u64::MAX,
    ensures
        !s.owned(owner).contains_key(s.next_id as u64),
        s.added(owner, text).owned(owner) == s.owned(owner).insert(
            s.next_id as u64,
            RecordView { text, completed: false },
        ),
        forall|k: (Seq<char>, u64)| #[trigger] s.records.contains_key(k) ==> k.1 != s.next_id as u64,
{
    assert(s.added(owner, text).owned(owner) =~= s.owned(owner).insert(
        s.next_id as u64,
        RecordView { text, completed: false },
    ));
}

/// The calls `acts` hand out strictly increasing identifiers, none below the
/// counter at the start: so no identifier is handed out twice, nor one that
/// was handed out before, whatever was deleted in between.
pub proof fn lemma_ids_never_reused(s: StoreView, acts: Seq<Action>)
    ensures
        forall|i: int, j: int|
            0 <= i < j < issued(s, acts).len() ==> issued(s, acts)[i] < issued(s, acts)[j],
        forall|i: int| 0 <= i < issued(s, acts).len() ==> s.next_id <= #[trigger] issued(s, acts)[i],
        forall|i: int| 0 <= i < issued(s, acts).len() ==> #[trigger] issued(s, acts)[i] < run(s, acts).next_id,
        s.next_id <= run(s, acts).next_id,
    decreases acts.len(),
{
    if acts.len() > 0 {
        let t = step(s, acts[0]);
        let rest = acts.drop_first();
        lemma_ids_never_reused(t, rest);
        let r = issued(t, rest);
        match acts[0] {
            Action::Add { .. } => {
                let all = seq![s.next_id].add(r);
                assert(issued(s, acts) == all);
                assert forall|i: int, j: int| 0 <= i < j < all.len() implies all[i] < all[j] by {
                    if i == 0 {
                        assert(all[j] == r[j - 1]);
                    } else {
                        assert(all[i] == r[i - 1] && all[j] == r[j - 1]);
                    }
                }
                assert forall|i: int| 0 <= i < all.len() implies s.next_id <= #[trigger] all[i]
                    && all[i] < run(s, acts).next_id by {
                    if i > 0 {
                        assert(all[i] == r[i - 1]);
                    }
                }
            },
            _ => {
                assert(issued(s, acts) == r);
            },
        }
    }
}

/// Completing an existing record twice succeeds both times and leaves it
/// completed; the second call changes nothing.
pub proof fn lemma_complete_idempotent(s: StoreView, owner: Seq<char>, id: u64)
    requires
        s.records.contains_key((owner, id)),
    ensures
        s.completed(owner, id).records.contains_key((owner, id)),
        s.completed(owner, id).records[(owner, id)].completed,
        s.completed(owner, id).completed(owner, id) == s.completed(owner, id),
{
    let c = s.completed(owner, id);
    assert(c.completed(owner, id).records =~= c.records);
}

/// An owner with no records gets `NotFound` from both `complete` and
/// `delete`, whatever the identifier.
pub proof fn lemma_no_records_not_found(s: StoreView, owner: Seq<char>, id: u64)
    requires
        s.owned(owner) == Map::<u64, RecordView>::empty(),
    ensures
        !s.records.contains_key((owner, id)),
        !s.has_records(owner),
{
    if s.records.contains_key((owner, id)) {
        assert(s.owned(owner).contains_key(id));
    }
    if s.has_records(owner) {
        let i = choose|i: u64| #[trigger] s.records.contains_key((owner, i));
        assert(s.owned(owner).contains_key(i));
    }
}

/// Records are isolated per owner: what owner `b` does never changes the
/// records of another owner `a`, and the identifier that `a` is given by an
/// add names no record of `b`.
pub proof fn lemma_owners_isolated(s: StoreView, a: Seq<char>, b: Seq<char>, act: Action)
    requires
        s.wf(),
        s.next_id < u64::MAX,
        a != b,
        match act {
            Action::Add { owner, .. } => owner == b,
            Action::Complete { owner, .. } => owner == b,
            Action::Delete { owner, .. } => owner == b,
        },
    ensures
        step(s, act).owned(a) == s.owned(a),
        forall|text: Seq<char>|
            !(#[trigger] s.added(a, text)).records.contains_key((b, s.next_id as u64)),
{
    assert(step(s, act).owned(a) =~= s.owned(a));
}

/// A store's persistent form round-trips: a dump of a store is always
/// accepted back, and it determines the store, so any store with the same
/// counter of which it is the dump is that same store.
pub proof fn lemma_dump_round_trip(r: Seq<(String, u64, String, bool)>, s: StoreView, t: StoreView)
    requires
        is_dump(r, s),
        is_dump(r, t),
        s.next_id == t.next_id,
    ensures
        ids_ascending_below(r, s.next_id),
        s == t,
{
    assert forall|k: (Seq<char>, u64)| #[trigger] s.records.contains_key(k) implies t.records.contains_key(k)
        && s.records[k] == t.records[k] by {
        let i = choose|i: int| 0 <= i < r.len() && (r[i].0@, r[i].1) == k;
        assert(t.records.contains_key((r[i].0@, r[i].1)));
    }
    assert forall|k: (Seq<char>, u64)| #[trigger] t.records.contains_key(k) implies s.records.contains_key(k) by {
        let i = choose|i: int| 0 <= i < r.len() && (r[i].0@, r[i].1) == k;
        assert(s.records.contains_key((r[i].0@, r[i].1)));
    }
    assert(s.records =~= t.records);
}

} // verus!
