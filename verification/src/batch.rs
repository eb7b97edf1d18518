//! Batch operations: many single-key operations in one call.
//!
//! A batch is atomic per key — each key's value and version are updated
//! together — but not across keys.  A missing key is never an error: in
//! `get_many` it is omitted from the result, in `delete_many` it is
//! skipped.

use crate::store::Store;
use vstd::map::*;
use vstd::prelude::*;

verus! {

/// The map after the pairs are applied in order, each write taking the
/// next version token, starting from `nv`.
pub open spec fn set_many_map(
    m: Map<Seq<char>, (Seq<u8>, u64)>,
    nv: u64,
    pairs: Seq<(Seq<char>, Seq<u8>)>,
) -> Map<Seq<char>, (Seq<u8>, u64)>
    decreases pairs.len(),
{
    if pairs.len() == 0 {
        m
    } else {
        set_many_map(m.insert(pairs[0].0, (pairs[0].1, nv)), (nv + 1) as u64, pairs.drop_first())
    }
}

/// The result of a batch read: one `(key, Some(value))` entry for each
/// requested key that is present, in request order; absent keys are
/// omitted, never reported as `None` entries.
pub open spec fn get_many_view(
    m: Map<Seq<char>, (Seq<u8>, u64)>,
    keys: Seq<Seq<char>>,
) -> Seq<(Seq<char>, Option<Seq<u8>>)>
    decreases keys.len(),
{
    if keys.len() == 0 {
        Seq::empty()
    } else {
        let rest = get_many_view(m, keys.drop_first());
        if m.contains_key(keys[0]) {
            seq![(keys[0], Some(m[keys[0]].0))] + rest
        } else {
            rest
        }
    }
}

/// Applies each pair's set in order.  Each key written takes a fresh
/// version token; a key that appears twice is written twice.
pub fn set_many(store: &mut Store, pairs: &Vec<(String, Vec<u8>)>)
    requires
        old(store).inv(),
        old(store).version_bound() + pairs@.len() <= u64::MAX,
    ensures
        final(store).inv(),
        final(store)@ == set_many_map(
            old(store)@,
            old(store).version_bound(),
            pairs@.map_values(|p: (String, Vec<u8>)| (p.0@, p.1@)),
        ),
        final(store).version_bound() == old(store).version_bound() + pairs@.len(),
        final(store).namespace() == old(store).namespace(),
{
    let ghost all = pairs@.map_values(|p: (String, Vec<u8>)| (p.0@, p.1@));
    proof {
        assert(all.skip(0) =~= all);
    }
    let mut i: usize = 0;
    while i < pairs.len()
        invariant
            store.inv(),
            i <= pairs@.len(),
            all == pairs@.map_values(|p: (String, Vec<u8>)| (p.0@, p.1@)),
            store.version_bound() == old(store).version_bound() + i,
            store.version_bound() + (pairs@.len() - i) <= u64::MAX,
            set_many_map(store@, store.version_bound(), all.skip(i as int)) == set_many_map(
                old(store)@,
                old(store).version_bound(),
                all,
            ),
            store.namespace() == old(store).namespace(),
        decreases pairs@.len() - i,
    {
        let pair = &pairs[i];
        store.set(pair.0.as_str(), pair.1.as_slice());
        proof {
            assert(all.skip(i as int)[0] == (pair.0@, pair.1@));
            assert(all.skip(i as int).drop_first() =~= all.skip(i as int + 1));
        }
        i = i + 1;
    }
    proof {
        assert(all.skip(pairs@.len() as int) =~= Seq::<(Seq<char>, Seq<u8>)>::empty());
    }
}

/// Returns the present requested keys with their values, in request
/// order; absent keys are omitted from the result.
pub fn get_many(store: &Store, keys: &Vec<String>) -> (r: Vec<(String, Option<Vec<u8>>)>)
    requires
        store.inv(),
    ensures
        r@.map_values(|p: (String, Option<Vec<u8>>)| (p.0@, view_of_opt(p.1))) == get_many_view(
            store@,
            keys@.map_values(|k: String| k@),
        ),
{
    let ghost all = keys@.map_values(|k: String| k@);
    let mut r: Vec<(String, Option<Vec<u8>>)> = Vec::new();
    proof {
        assert(all.skip(0) =~= all);
        assert(r@.map_values(|p: (String, Option<Vec<u8>>)| (p.0@, view_of_opt(p.1))) =~= Seq::<(
            Seq<char>,
            Option<Seq<u8>>,
        )>::empty());
        assert(Seq::<(Seq<char>, Option<Seq<u8>>)>::empty() + get_many_view(store@, all)
            =~= get_many_view(store@, all));
    }
    let mut i: usize = 0;
    while i < keys.len()
        invariant
            store.inv(),
            i <= keys@.len(),
            all == keys@.map_values(|k: String| k@),
            r@.map_values(|p: (String, Option<Vec<u8>>)| (p.0@, view_of_opt(p.1)))
                + get_many_view(store@, all.skip(i as int)) == get_many_view(store@, all),
        decreases keys@.len() - i,
    {
        let ghost pre = r@.map_values(|p: (String, Option<Vec<u8>>)| (p.0@, view_of_opt(p.1)));
        let key = &keys[i];
        proof {
            assert(all.skip(i as int)[0] == key@);
            assert(all.skip(i as int).drop_first() =~= all.skip(i as int + 1));
        }
        match store.record(key.as_str()) {
            Some(p) => {
                r.push((key.clone(), Some(p.0)));
                proof {
                    let post = r@.map_values(
                        |p: (String, Option<Vec<u8>>)| (p.0@, view_of_opt(p.1)),
                    );
                    assert(post =~= pre + seq![(key@, Some(store@[key@].0))]);
                    assert(pre + (seq![(key@, Some(store@[key@].0))] + get_many_view(
                        store@,
                        all.skip(i as int + 1),
                    )) =~= post + get_many_view(store@, all.skip(i as int + 1)));
                }
            },
            None => {},
        }
        i = i + 1;
    }
    proof {
        assert(all.skip(keys@.len() as int) =~= Seq::<Seq<char>>::empty());
        assert(r@.map_values(|p: (String, Option<Vec<u8>>)| (p.0@, view_of_opt(p.1)))
            + Seq::<(Seq<char>, Option<Seq<u8>>)>::empty() =~= r@.map_values(
            |p: (String, Option<Vec<u8>>)| (p.0@, view_of_opt(p.1)),
        ));
    }
    r
}

/// The view of an optional byte vector.
pub open spec fn view_of_opt(v: Option<Vec<u8>>) -> Option<Seq<u8>> {
    match v {
        Some(b) => Some(b@),
        None => None,
    }
}

/// Deletes each key if present; absent keys are silently skipped, never
/// an error.
pub fn delete_many(store: &mut Store, keys: &Vec<String>)
    requires
        old(store).inv(),
    ensures
        final(store).inv(),
        final(store)@ == old(store)@.remove_keys(keys@.map_values(|k: String| k@).to_set()),
        final(store).version_bound() == old(store).version_bound(),
        final(store).namespace() == old(store).namespace(),
{
    let ghost all = keys@.map_values(|k: String| k@);
    let mut i: usize = 0;
    while i < keys.len()
        invariant
            store.inv(),
            i <= keys@.len(),
            all == keys@.map_values(|k: String| k@),
            store@ == old(store)@.remove_keys(all.take(i as int).to_set()),
            store.version_bound() == old(store).version_bound(),
            store.namespace() == old(store).namespace(),
        decreases keys@.len() - i,
    {
        let key = &keys[i];
        store.delete(key.as_str());
        proof {
            let t = all.take(i as int);
            assert(all.take(i as int + 1) =~= t.push(key@));
            assert forall|x: Seq<char>| t.push(key@).contains(x) implies t.contains(x) || x
                == key@ by {
                let j = choose|j: int| 0 <= j < t.push(key@).len() && t.push(key@)[j] == x;
                if j < t.len() {
                    assert(t[j] == x);
                }
            }
            assert forall|x: Seq<char>| t.contains(x) implies t.push(key@).contains(x) by {
                let j = choose|j: int| 0 <= j < t.len() && t[j] == x;
                assert(t.push(key@)[j] == x);
            }
            assert(t.push(key@)[t.len() as int] == key@);
            assert(t.push(key@).contains(key@));
            assert(t.push(key@).to_set() =~= t.to_set().insert(key@));
            assert_maps_equal!(
                old(store)@.remove_keys(all.take(i as int).to_set()).remove(key@)
                    , old(store)@.remove_keys(all.take(i as int).to_set().insert(key@))
            );
        }
        i = i + 1;
    }
    proof {
        assert(all.take(keys@.len() as int) =~= all);
    }
}

/// The batch omission law: every entry that `get_many` returns is a
/// requested key that is present in the store, carrying `Some` of exactly
/// the stored value — an absent requested key contributes no entry at
/// all — and every present requested key does contribute one.
pub proof fn lemma_get_many_omits_absent(m: Map<Seq<char>, (Seq<u8>, u64)>, keys: Seq<Seq<char>>)
    ensures
        forall|i: int| 0 <= i < get_many_view(m, keys).len() ==> m.contains_key(
            (#[trigger] get_many_view(m, keys)[i]).0,
        ),
        forall|i: int| 0 <= i < get_many_view(m, keys).len() ==> (
        #[trigger] get_many_view(m, keys)[i]).1 == Some(m[get_many_view(m, keys)[i].0].0),
        forall|j: int|
            0 <= j < keys.len() && m.contains_key(#[trigger] keys[j]) ==> exists|i: int|
                0 <= i < get_many_view(m, keys).len() && get_many_view(m, keys)[i].0 == keys[j],
    decreases keys.len(),
{
    if keys.len() > 0 {
        lemma_get_many_omits_absent(m, keys.drop_first());
        let rest = get_many_view(m, keys.drop_first());
        let whole = get_many_view(m, keys);
        if m.contains_key(keys[0]) {
            assert forall|i: int| 0 <= i < whole.len() implies m.contains_key(
                (#[trigger] whole[i]).0,
            ) && whole[i].1 == Some(m[whole[i].0].0) by {
                if i > 0 {
                    assert(whole[i] == rest[i - 1]);
                }
            }
            assert forall|j: int|
                0 <= j < keys.len() && m.contains_key(#[trigger] keys[j]) implies exists|i: int|
                0 <= i < whole.len() && whole[i].0 == keys[j] by {
                if j == 0 {
                    assert(whole[0].0 == keys[0]);
                } else {
                    assert(keys.drop_first()[j - 1] == keys[j]);
                    let i = choose|i: int| 0 <= i < rest.len() && rest[i].0 == keys[j];
                    assert(whole[i + 1].0 == keys[j]);
                }
            }
        } else {
            assert forall|j: int|
                0 <= j < keys.len() && m.contains_key(#[trigger] keys[j]) implies exists|i: int|
                0 <= i < whole.len() && whole[i].0 == keys[j] by {
                if j > 0 {
                    assert(keys.drop_first()[j - 1] == keys[j]);
                }
            }
        }
    }
}

} // verus!
