use crate::codec::{
    all_encodable, decodable, decode_records, decoded, encode_records, store_bytes,
};
use crate::models::{precedes, Memo, MemoId, MemoView};
use crate::repository::{
    has_id, ids_distinct, in_listing_order, lookup, position_of, valid_records, views_of, MemoRepository,
    StoreError,
};
use vstd::prelude::*;

verus! {

/// A memo store held in memory: the memos in a vector, in listing order.
#[derive(Debug)]
pub struct MemoStore {
    memos: Vec<Memo>,
}

impl View for MemoStore {
    type V = Seq<MemoView>;

    closed spec fn view(&self) -> Seq<MemoView> {
        views_of(self.memos@)
    }
}

/// `precedes` is a strict total order on memos with distinct identifiers.
proof fn lemma_precedes_order(a: MemoView, b: MemoView, c: MemoView)
    ensures
        !precedes(a, a),
        precedes(a, b) && precedes(b, c) ==> precedes(a, c),
        a.id != b.id && !precedes(a, b) ==> precedes(b, a),
        precedes(a, b) ==> !precedes(b, a),
{
}

impl MemoStore {
    /// An empty store.
    pub fn new() -> (r: MemoStore)
        ensures
            r@ == Seq::<MemoView>::empty(),
            r.inv(),
    {
        let r = MemoStore { memos: Vec::new() };
        assert(r@ =~= Seq::<MemoView>::empty());
        r
    }

    /// The number of memos held.
    pub fn len(&self) -> (r: usize)
        ensures
            r == self@.len(),
    {
        self.memos.len()
    }

    /// The stored form of the store: the records of its memos in listing order.
    pub fn to_bytes(&self) -> (r: Vec<u8>)
        ensures
            r@ == store_bytes(self@),
            all_encodable(self@),
    {
        encode_records(&self.memos)
    }

    /// A store holding the memos whose stored form is `b`. Fails with `IoFailure`
    /// where `b` is the stored form of no sequence of memos, and with `DuplicateId`
    /// where two of those memos share an identifier.
    pub fn from_bytes(b: &[u8]) -> (r: Result<MemoStore, StoreError>)
        ensures
            !decodable(b@) ==> r == Err::<MemoStore, StoreError>(StoreError::IoFailure),
            decodable(b@) && !ids_distinct(decoded(b@)) ==> r == Err::<MemoStore, StoreError>(
                StoreError::DuplicateId,
            ),
            decodable(b@) && ids_distinct(decoded(b@)) ==> r is Ok,
            r matches Ok(st) ==> st.inv() && st@.to_multiset() == decoded(b@).to_multiset(),
    {
        match decode_records(b) {
            None => Err(StoreError::IoFailure),
            Some(memos) => MemoStore::from_memos(&memos),
        }
    }

    /// A store made by inserting `memos` one after another into an empty store. Where
    /// their identifiers are distinct every insert succeeds, and the store then holds
    /// exactly those memos, each found by its identifier, in listing order; otherwise
    /// it fails with `DuplicateId`.
    pub fn from_memos(memos: &Vec<Memo>) -> (r: Result<MemoStore, StoreError>)
        ensures
            ids_distinct(views_of(memos@)) ==> r is Ok,
            !ids_distinct(views_of(memos@)) ==> r == Err::<MemoStore, StoreError>(
                StoreError::DuplicateId,
            ),
            r matches Ok(st) ==> {
                &&& st.inv()
                &&& in_listing_order(st@)
                &&& st@.to_multiset() == views_of(memos@).to_multiset()
                &&& forall|k: int|
                    0 <= k < memos@.len() ==> lookup(st@, #[trigger] memos@[k]@.id) == Some(
                        memos@[k]@,
                    )
            },
    {
        broadcast use vstd::seq_lib::group_to_multiset_ensures;

        let ghost all = views_of(memos@);
        let mut store = MemoStore::new();
        let mut i: usize = 0;
        assert(all.take(0) =~= Seq::<MemoView>::empty());
        assert(store@.to_multiset().len() == 0);
        assert(store@.to_multiset() =~= all.take(0).to_multiset());
        while i < memos.len()
            invariant
                all == views_of(memos@),
                0 <= i <= memos@.len(),
                store.inv(),
                store@.to_multiset() == all.take(i as int).to_multiset(),
                ids_distinct(all.take(i as int)),
            decreases memos@.len() - i,
        {
            let m = memos[i].clone();
            let ghost mv = m@;
            let ghost before = store@;
            assert(mv == all[i as int]);
            assert(all.take(i + 1) =~= all.take(i as int).push(mv));
            match store.insert(m) {
                Ok(()) => {
                    proof {
                        vstd::seq_lib::to_multiset_build(all.take(i as int), mv);
                        assert(store@.to_multiset() == before.to_multiset().insert(mv));
                        assert forall|j: int, k: int|
                            0 <= j < i + 1 && 0 <= k < i + 1 && j != k implies #[trigger] all.take(
                            i + 1,
                        )[j].id != #[trigger] all.take(i + 1)[k].id by {
                            if j == i || k == i {
                                let o = if j == i { k } else { j };
                                let x = all.take(i as int)[o];
                                assert(all.take(i as int).contains(x));
                                vstd::seq_lib::to_multiset_contains(all.take(i as int), x);
                                vstd::seq_lib::to_multiset_contains(before, x);
                                assert(before.to_multiset() == all.take(i as int).to_multiset());
                                assert(before.to_multiset().count(x) > 0);
                                assert(before.contains(x));
                                let w = choose|w: int| 0 <= w < before.len() && before[w] == x;
                                assert(before[w].id != mv.id);
                            }
                        }
                    }
                },
                Err(e) => {
                    proof {
                        let w = choose|w: int| 0 <= w < before.len() && #[trigger] before[w].id
                            == mv.id;
                        let x = before[w];
                        assert(before.contains(x));
                        vstd::seq_lib::to_multiset_contains(before, x);
                        assert(before.to_multiset() == all.take(i as int).to_multiset());
                        vstd::seq_lib::to_multiset_contains(all.take(i as int), x);
                        assert(all.take(i as int).contains(x));
                        let j = choose|j: int| 0 <= j < i && all.take(i as int)[j] == x;
                        assert(all[j].id == all[i as int].id);
                    }
                    return Err(e);
                },
            }
            i += 1;
        }
        assert(all.take(memos@.len() as int) =~= all);
        proof {
            assert forall|k: int| 0 <= k < memos@.len() implies lookup(
                store@,
                #[trigger] memos@[k]@.id,
            ) == Some(memos@[k]@) by {
                assert(all[k] == memos@[k]@);
                assert(all.contains(all[k]));
                vstd::seq_lib::to_multiset_contains(all, all[k]);
                vstd::seq_lib::to_multiset_contains(store@, all[k]);
                crate::repository::lemma_lookup_member(store@, all[k]);
            }
        }
        Ok(store)
    }

    /// The position of the memo with identifier `id`, if there is one.
    fn index_of(&self, id: MemoId) -> (r: Option<usize>)
        requires
            self.inv(),
        ensures
            r is None <==> !has_id(self@, id.0),
            r matches Some(i) ==> i < self@.len() && i == position_of(self@, id.0),
    {
        let n = self.memos.len();
        let mut i: usize = 0;
        while i < n
            invariant
                n == self.memos.len(),
                n == self@.len(),
                0 <= i <= n,
                valid_records(self@),
                forall|j: int| 0 <= j < i ==> #[trigger] self@[j].id != id.0,
            decreases n - i,
        {
            let here = self.memos[i].id();
            assert(self@[i as int] == self.memos@[i as int]@);
            if here.0 == id.0 {
                proof {
                    let p = position_of(self@, id.0);
                    assert(self@[i as int].id == id.0);
                    assert(self@[p].id == id.0);
                    assert(p == i);
                }
                return Some(i);
            }
            i += 1;
        }
        None
    }
}

impl MemoRepository for MemoStore {
    open spec fn records(&self) -> Seq<MemoView> {
        self@
    }

    open spec fn inv(&self) -> bool {
        valid_records(self@)
    }

    fn insert(&mut self, memo: Memo) -> (r: Result<(), StoreError>) {
        if self.index_of(memo.id()).is_some() {
            return Err(StoreError::DuplicateId);
        }
        let ghost old_view = self@;
        let ghost m = memo@;
        let n = self.memos.len();
        let mut p: usize = 0;
        while p < n && self.memos[p].precedes(&memo)
            invariant
                n == self.memos.len(),
                n == self@.len(),
                self@ == old_view,
                m == memo@,
                0 <= p <= n,
                forall|j: int| 0 <= j < p ==> precedes(#[trigger] self@[j], m),
            decreases n - p,
        {
            assert(self@[p as int] == self.memos@[p as int]@);
            p += 1;
        }
        proof {
            if p < n {
                assert(self@[p as int] == self.memos@[p as int]@);
                lemma_precedes_order(self@[p as int], m, m);
            }
        }
        self.memos.insert(p, memo);
        proof {
            let s = self@;
            assert(s =~= old_view.insert(p as int, m));
            assert forall|j: int| p < j < s.len() implies precedes(m, #[trigger] s[j]) by {
                if j > p + 1 {
                    assert(in_listing_order(old_view));
                    assert(precedes(old_view[p as int], old_view[j - 1]));
                    lemma_precedes_order(m, old_view[p as int], old_view[j - 1]);
                }
            }
            assert forall|i: int, j: int| 0 <= i < j < s.len() implies precedes(
                #[trigger] s[i],
                #[trigger] s[j],
            ) by {
                if i < p && j > p {
                    lemma_precedes_order(s[i], m, s[j]);
                }
            }
            assert(!has_id(old_view, m.id));
            assert forall|i: int, j: int|
                0 <= i < s.len() && 0 <= j < s.len() && i != j implies #[trigger] s[i].id
                != #[trigger] s[j].id by {
                if i == p {
                    assert(old_view[if j < p { j } else { j - 1 }].id != m.id);
                } else if j == p {
                    assert(old_view[if i < p { i } else { i - 1 }].id != m.id);
                }
            }
            assert(s.remove(p as int) =~= old_view);
            vstd::seq_lib::to_multiset_remove(s, p as int);
            vstd::seq_lib::to_multiset_contains(s, m);
            assert(s.to_multiset() =~= old_view.to_multiset().insert(m));
        }
        Ok(())
    }

    fn remove(&mut self, id: MemoId) -> (r: Result<(), StoreError>) {
        match self.index_of(id) {
            None => Err(StoreError::NotFound),
            Some(i) => {
                let ghost old_view = self@;
                let _gone = self.memos.remove(i);
                proof {
                    let s = self@;
                    assert(s =~= old_view.remove(i as int));
                    assert forall|a: int, b: int| 0 <= a < b < s.len() implies precedes(
                        #[trigger] s[a],
                        #[trigger] s[b],
                    ) by {
                        let a0 = if a < i { a } else { a + 1 };
                        let b0 = if b < i { b } else { b + 1 };
                        assert(precedes(old_view[a0], old_view[b0]));
                    }
                    assert forall|a: int, b: int|
                        0 <= a < s.len() && 0 <= b < s.len() && a != b implies #[trigger] s[a].id
                        != #[trigger] s[b].id by {
                        let a0 = if a < i { a } else { a + 1 };
                        let b0 = if b < i { b } else { b + 1 };
                        assert(old_view[a0].id != old_view[b0].id);
                    }
                }
                Ok(())
            }
        }
    }

    fn find_by_id(&self, id: MemoId) -> (r: Option<Memo>) {
        match self.index_of(id) {
            None => None,
            Some(i) => {
                assert(self@[i as int] == self.memos@[i as int]@);
                Some(self.memos[i].clone())
            }
        }
    }

    fn list(&self) -> (r: Vec<Memo>) {
        let n = self.memos.len();
        let mut out: Vec<Memo> = Vec::new();
        let mut i: usize = 0;
        while i < n
            invariant
                n == self.memos.len(),
                0 <= i <= n,
                views_of(out@) =~= self@.subrange(0, i as int),
            decreases n - i,
        {
            let m = self.memos[i].clone();
            let ghost before = out@;
            out.push(m);
            proof {
                assert(self@[i as int] == self.memos@[i as int]@);
                assert(out@ == before.push(m));
                assert(views_of(out@) =~= views_of(before).push(m@));
                assert(self@.subrange(0, i + 1) =~= self@.subrange(0, i as int).push(m@));
            }
            i += 1;
        }
        assert(self@.subrange(0, n as int) =~= self@);
        out
    }
}

/// Two valid record sequences that hold the same memos are the same sequence: the
/// listing order leaves no choice.
pub proof fn lemma_valid_records_unique(s1: Seq<MemoView>, s2: Seq<MemoView>)
    requires
        valid_records(s1),
        valid_records(s2),
        s1.to_multiset() == s2.to_multiset(),
    ensures
        s1 == s2,
    decreases s1.len(),
{
    broadcast use vstd::seq_lib::group_to_multiset_ensures;

    if s1.len() == 0 {
        assert(s2.to_multiset().len() == 0);
        assert(s2 =~= s1);
    } else {
        vstd::seq_lib::to_multiset_len(s1);
        vstd::seq_lib::to_multiset_len(s2);
        assert(s2.len() == s1.len());
        let (a, b) = (s1[0], s2[0]);
        vstd::seq_lib::to_multiset_contains(s1, b);
        vstd::seq_lib::to_multiset_contains(s2, a);
        assert(s1.contains(s1[0]));
        assert(s2.contains(s2[0]));
        if a != b {
            let j = choose|j: int| 0 <= j < s2.len() && s2[j] == a;
            let k = choose|k: int| 0 <= k < s1.len() && s1[k] == b;
            assert(precedes(s2[0], s2[j]));
            assert(precedes(s1[0], s1[k]));
            lemma_precedes_order(a, b, a);
        }
        vstd::seq_lib::to_multiset_remove(s1, 0);
        vstd::seq_lib::to_multiset_remove(s2, 0);
        assert(s1.remove(0) =~= s1.drop_first());
        assert(s2.remove(0) =~= s2.drop_first());
        lemma_valid_records_unique(s1.drop_first(), s2.drop_first());
        assert forall|i: int| 0 <= i < s1.len() implies s1[i] == s2[i] by {
            if i > 0 {
                assert(s1[i] == s1.drop_first()[i - 1]);
                assert(s2[i] == s2.drop_first()[i - 1]);
            }
        }
        assert(s1 =~= s2);
    }
}

/// Loading the stored form of a store's records succeeds and gives back exactly
/// those records, in the same order.
pub proof fn lemma_reload(s: Seq<MemoView>, loaded: Seq<MemoView>)
    requires
        valid_records(s),
        all_encodable(s),
        valid_records(loaded),
        loaded.to_multiset() == decoded(store_bytes(s)).to_multiset(),
    ensures
        decodable(store_bytes(s)),
        ids_distinct(decoded(store_bytes(s))),
        loaded == s,
{
    crate::codec::lemma_round_trip(s);
    lemma_valid_records_unique(loaded, s);
}

} // verus!
