use crate::models::{precedes, Memo, MemoId, MemoView};
use vstd::prelude::*;

verus! {

/// Why a store operation failed.
#[derive(Clone, Copy, Debug, PartialEq, Eq, Structural)]
pub enum StoreError {
    /// A memo with the same identifier is already stored.
    DuplicateId,
    /// No memo with the identifier is stored.
    NotFound,
    /// Reading the content or the store's medium failed.
    IoFailure,
}

/// Each record sorts strictly before every later one.
pub open spec fn in_listing_order(s: Seq<MemoView>) -> bool {
    forall|i: int, j: int| 0 <= i < j < s.len() ==> precedes(#[trigger] s[i], #[trigger] s[j])
}

/// No two records share an identifier.
pub open spec fn ids_distinct(s: Seq<MemoView>) -> bool {
    forall|i: int, j: int|
        0 <= i < s.len() && 0 <= j < s.len() && i != j ==> #[trigger] s[i].id != #[trigger] s[j].id
}

/// The records of a store: in listing order, with distinct identifiers.
pub open spec fn valid_records(s: Seq<MemoView>) -> bool {
    in_listing_order(s) && ids_distinct(s)
}

/// Some record has identifier `id`.
pub open spec fn has_id(s: Seq<MemoView>, id: u128) -> bool {
    exists|i: int| 0 <= i < s.len() && #[trigger] s[i].id == id
}

/// The position of the record with identifier `id`.
pub open spec fn position_of(s: Seq<MemoView>, id: u128) -> int {
    choose|i: int| 0 <= i < s.len() && #[trigger] s[i].id == id
}

/// The record with identifier `id`, if there is one.
pub open spec fn lookup(s: Seq<MemoView>, id: u128) -> Option<MemoView> {
    if has_id(s, id) {
        Some(s[position_of(s, id)])
    } else {
        None
    }
}

/// The view of a memo that may be absent.
pub open spec fn view_of(o: Option<Memo>) -> Option<MemoView> {
    match o {
        Some(m) => Some(m@),
        None => None,
    }
}

/// The views of a sequence of memos.
pub open spec fn views_of(s: Seq<Memo>) -> Seq<MemoView> {
    s.map_values(|m: Memo| m@)
}

/// A place that keeps memos, keyed by identifier and listed by creation time.
pub trait MemoRepository {
    /// The memos held, in listing order.
    spec fn records(&self) -> Seq<MemoView>;

    /// The representation invariant of the implementation.
    spec fn inv(&self) -> bool;

    /// Adds `memo`, unless a memo with its identifier is already held.
    fn insert(&mut self, memo: Memo) -> (r: Result<(), StoreError>)
        requires
            old(self).inv(),
        ensures
            final(self).inv(),
            inserted(old(self).records(), memo@, final(self).records()),
            r == if has_id(old(self).records(), memo@.id) {
                Err(StoreError::DuplicateId)
            } else {
                Ok::<(), StoreError>(())
            },
    ;

    /// Deletes the memo with identifier `id`.
    fn remove(&mut self, id: MemoId) -> (r: Result<(), StoreError>)
        requires
            old(self).inv(),
        ensures
            final(self).inv(),
            removed(old(self).records(), id.0, final(self).records()),
            r == if has_id(old(self).records(), id.0) {
                Ok::<(), StoreError>(())
            } else {
                Err(StoreError::NotFound)
            },
    ;

    /// The memo with identifier `id`, if one is held.
    fn find_by_id(&self, id: MemoId) -> (r: Option<Memo>)
        requires
            self.inv(),
        ensures
            view_of(r) == lookup(self.records(), id.0),
    ;

    /// All memos, in ascending order of creation.
    fn list(&self) -> (r: Vec<Memo>)
        requires
            self.inv(),
        ensures
            views_of(r@) == self.records(),
            valid_records(self.records()),
    ;
}

/// `s2` is a state that `insert` of `m` may leave, starting from `s1`.
pub open spec fn inserted(s1: Seq<MemoView>, m: MemoView, s2: Seq<MemoView>) -> bool {
    &&& valid_records(s2)
    &&& has_id(s1, m.id) ==> s2 == s1
    &&& !has_id(s1, m.id) ==> s2.to_multiset() == s1.to_multiset().insert(m)
}

/// `s2` is a state that `remove` of `id` may leave, starting from `s1`.
pub open spec fn removed(s1: Seq<MemoView>, id: u128, s2: Seq<MemoView>) -> bool {
    &&& valid_records(s2)
    &&& has_id(s1, id) ==> s2 == s1.remove(position_of(s1, id))
    &&& !has_id(s1, id) ==> s2 == s1
}

/// In valid records, a record that is there is what `lookup` gives for its identifier.
pub proof fn lemma_lookup_member(s: Seq<MemoView>, m: MemoView)
    requires
        valid_records(s),
        s.contains(m),
    ensures
        lookup(s, m.id) == Some(m),
{
    let i = choose|i: int| 0 <= i < s.len() && s[i] == m;
    assert(s[i].id == m.id);
    let p = position_of(s, m.id);
    assert(s[p].id == m.id);
    assert(p == i);
}

/// Inserting memos with distinct identifiers one after another into an empty store
/// succeeds each time; afterwards looking up each identifier gives exactly its memo,
/// and the listing holds all of them, each once, in ascending order of creation.
pub proof fn lemma_insert_sequence(ms: Seq<MemoView>, states: Seq<Seq<MemoView>>)
    requires
        ids_distinct(ms),
        states.len() == ms.len() + 1,
        states[0] == Seq::<MemoView>::empty(),
        forall|k: int| 0 <= k < ms.len() ==> inserted(#[trigger] states[k], ms[k], states[k + 1]),
    ensures
        forall|k: int| 0 <= k < ms.len() ==> !has_id(#[trigger] states[k], ms[k].id),
        states.last().to_multiset() == ms.to_multiset(),
        in_listing_order(states.last()),
        forall|k: int| 0 <= k < ms.len() ==> lookup(states.last(), #[trigger] ms[k].id) == Some(
            ms[k],
        ),
    decreases ms.len(),
{
    broadcast use vstd::seq_lib::group_to_multiset_ensures;

    if ms.len() == 0 {
        assert(ms =~= Seq::<MemoView>::empty());
        assert(states.last() == Seq::<MemoView>::empty());
    } else {
        let n = ms.len() - 1;
        let front = ms.drop_last();
        let earlier = states.drop_last();
        assert forall|k: int| 0 <= k < front.len() implies inserted(
            #[trigger] earlier[k],
            front[k],
            earlier[k + 1],
        ) by {
            assert(inserted(states[k], ms[k], states[k + 1]));
        }
        assert forall|i: int, j: int|
            0 <= i < front.len() && 0 <= j < front.len() && i != j implies #[trigger] front[i].id
            != #[trigger] front[j].id by {
            assert(ms[i].id != ms[j].id);
        }
        lemma_insert_sequence(front, earlier);
        let s = states[n];
        assert(earlier.last() == s);
        assert(s.to_multiset() == front.to_multiset());
        if has_id(s, ms[n].id) {
            let i = choose|i: int| 0 <= i < s.len() && #[trigger] s[i].id == ms[n].id;
            assert(s.contains(s[i]));
            assert(front.to_multiset().count(s[i]) > 0);
            assert(front.contains(s[i]));
            let j = choose|j: int| 0 <= j < front.len() && front[j] == s[i];
            assert(ms[j].id != ms[n].id);
        }
        assert(inserted(states[n], ms[n], states[n + 1]));
        assert(ms =~= front.push(ms[n]));
        assert(states.last().to_multiset() == ms.to_multiset());
        assert forall|k: int| 0 <= k < ms.len() implies !has_id(#[trigger] states[k], ms[k].id) by {
            if k < n {
                assert(earlier[k] == states[k]);
                assert(front[k] == ms[k]);
            }
        }
        assert forall|k: int| 0 <= k < ms.len() implies lookup(
            states.last(),
            #[trigger] ms[k].id,
        ) == Some(ms[k]) by {
            assert(ms.contains(ms[k]));
            assert(states.last().to_multiset().count(ms[k]) > 0);
            lemma_lookup_member(states.last(), ms[k]);
        }
    }
}

/// After `insert` of a memo and then `remove` of its identifier, looking the
/// identifier up gives nothing.
pub proof fn lemma_insert_then_remove(
    s0: Seq<MemoView>,
    m: MemoView,
    s1: Seq<MemoView>,
    s2: Seq<MemoView>,
)
    requires
        valid_records(s0),
        inserted(s0, m, s1),
        removed(s1, m.id, s2),
    ensures
        lookup(s2, m.id) is None,
        s2.len() + 1 == s1.len(),
{
    broadcast use vstd::seq_lib::group_to_multiset_ensures;

    if !has_id(s0, m.id) {
        assert(s1.to_multiset().count(m) > 0);
        assert(s1.contains(m));
    }
    assert(has_id(s1, m.id));
    let p = position_of(s1, m.id);
    assert(s1[p].id == m.id);
    if has_id(s2, m.id) {
        let i = choose|i: int| 0 <= i < s2.len() && #[trigger] s2[i].id == m.id;
        let i0 = if i < p { i } else { i + 1 };
        assert(s2[i] == s1[i0]);
        assert(s1[i0].id != s1[p].id);
    }
}

} // verus!
