//! Children kept in two parallel arrays, ordered by key byte.
//!
//! The two small node layouts keep the key bytes of their children in
//! ascending order in one array and the children in the same positions of a
//! second one. What both layouts share stands here.

use vstd::prelude::*;

verus! {

/// Each key is smaller than every key behind it.
pub open spec fn strictly_ascending(keys: Seq<u8>) -> bool {
    forall|i: int, j: int| 0 <= i < j < keys.len() ==> keys[i] < keys[j]
}

/// The position of `key` among `keys`.
pub open spec fn position_of(keys: Seq<u8>, key: u8) -> int {
    choose|i: int| 0 <= i < keys.len() && keys[i] == key
}

/// The mapping from key byte to child that two parallel sequences stand for.
pub open spec fn keyed_children<P>(keys: Seq<u8>, children: Seq<Option<P>>) -> Map<u8, P> {
    Map::new(|key: u8| keys.contains(key), |key: u8| children[position_of(keys, key)]->0)
}

/// Where `key` stands among ascending keys, or where it would have to be
/// put to keep them ascending.
pub open spec fn is_search_result(keys: Seq<u8>, key: u8, found: Result<usize, usize>) -> bool {
    match found {
        Ok(at) => at < keys.len() && keys[at as int] == key,
        Err(at) => {
            &&& at <= keys.len()
            &&& forall|i: int| 0 <= i < at ==> keys[i] < key
            &&& forall|i: int| at <= i < keys.len() ==> key < keys[i]
        },
    }
}

/// In ascending keys a key stands at one position only.
pub proof fn lemma_position_unique(keys: Seq<u8>, at: int)
    requires
        strictly_ascending(keys),
        0 <= at < keys.len(),
    ensures
        position_of(keys, keys[at]) == at,
        keys.contains(keys[at]),
{
    let found = position_of(keys, keys[at]);
    assert(0 <= found < keys.len() && keys[found] == keys[at]);
    if found < at {
        assert(keys[found] < keys[at]);
    } else if at < found {
        assert(keys[at] < keys[found]);
    }
}

/// Putting a child in at an occupied position replaces the child of that
/// position's key and no other.
pub proof fn lemma_keyed_update<P>(keys: Seq<u8>, children: Seq<Option<P>>, at: int, child: P)
    requires
        strictly_ascending(keys),
        keys.len() == children.len(),
        0 <= at < keys.len(),
    ensures
        keyed_children(keys, children.update(at, Some(child))) == keyed_children(
            keys,
            children,
        ).insert(keys[at], child),
{
    let before = keyed_children(keys, children);
    let after = keyed_children(keys, children.update(at, Some(child)));
    lemma_position_unique(keys, at);
    assert forall|key: u8| #[trigger] after.contains_key(key) implies after[key] == before.insert(
        keys[at],
        child,
    )[key] by {
        let found = position_of(keys, key);
        assert(0 <= found < keys.len() && keys[found] == key);
        lemma_position_unique(keys, found);
    }
    assert(after =~= before.insert(keys[at], child));
}

/// Putting a new key in at its place among ascending keys keeps them
/// ascending and adds the one pair to the mapping.
pub proof fn lemma_keyed_insert<P>(
    keys: Seq<u8>,
    children: Seq<Option<P>>,
    at: int,
    key: u8,
    child: P,
)
    requires
        strictly_ascending(keys),
        keys.len() == children.len(),
        0 <= at <= keys.len(),
        forall|i: int| 0 <= i < at ==> keys[i] < key,
        forall|i: int| at <= i < keys.len() ==> key < keys[i],
    ensures
        strictly_ascending(keys.insert(at, key)),
        !keyed_children(keys, children).contains_key(key),
        keyed_children(keys.insert(at, key), children.insert(at, Some(child))) == keyed_children(
            keys,
            children,
        ).insert(key, child),
{
    let new_keys = keys.insert(at, key);
    let new_children = children.insert(at, Some(child));
    let before = keyed_children(keys, children);
    let after = keyed_children(new_keys, new_children);
    assert(strictly_ascending(new_keys)) by {
        assert forall|i: int, j: int| 0 <= i < j < new_keys.len() implies new_keys[i]
            < new_keys[j] by {
            if i < at && j > at {
                assert(keys[i] < key);
                assert(key < keys[j - 1]);
            }
        }
    }
    if keys.contains(key) {
        let found = position_of(keys, key);
        assert(0 <= found < keys.len() && keys[found] == key);
    }
    assert forall|other: u8| after.contains_key(other) <==> before.insert(key, child).contains_key(
        other,
    ) by {
        if keys.contains(other) {
            let found = position_of(keys, other);
            assert(0 <= found < keys.len() && keys[found] == other);
            if found < at {
                assert(new_keys[found] == other);
            } else {
                assert(new_keys[found + 1] == other);
            }
        }
        if other == key {
            assert(new_keys[at] == key);
        }
        if new_keys.contains(other) {
            let found = position_of(new_keys, other);
            assert(0 <= found < new_keys.len() && new_keys[found] == other);
            if found < at {
                assert(keys[found] == other);
            } else if found > at {
                assert(keys[found - 1] == other);
            }
        }
    }
    assert forall|other: u8| #[trigger] after.contains_key(other) implies after[other]
        == before.insert(key, child)[other] by {
        let found = position_of(new_keys, other);
        assert(0 <= found < new_keys.len() && new_keys[found] == other);
        lemma_position_unique(new_keys, found);
        if found < at {
            lemma_position_unique(keys, found);
        } else if found > at {
            lemma_position_unique(keys, found - 1);
        }
    }
    assert(after =~= before.insert(key, child));
}

/// Taking the key at a position out of ascending keys keeps them ascending
/// and takes the one pair out of the mapping.
pub proof fn lemma_keyed_remove<P>(keys: Seq<u8>, children: Seq<Option<P>>, at: int)
    requires
        strictly_ascending(keys),
        keys.len() == children.len(),
        0 <= at < keys.len(),
    ensures
        strictly_ascending(keys.remove(at)),
        keyed_children(keys.remove(at), children.remove(at)) == keyed_children(
            keys,
            children,
        ).remove(keys[at]),
{
    let new_keys = keys.remove(at);
    let new_children = children.remove(at);
    let before = keyed_children(keys, children);
    let after = keyed_children(new_keys, new_children);
    assert(strictly_ascending(new_keys));
    lemma_position_unique(keys, at);
    assert forall|other: u8| after.contains_key(other) <==> before.remove(keys[at]).contains_key(
        other,
    ) by {
        if new_keys.contains(other) {
            let found = position_of(new_keys, other);
            assert(0 <= found < new_keys.len() && new_keys[found] == other);
            if found < at {
                assert(keys[found] == other);
                assert(keys[found] < keys[at]);
            } else {
                assert(keys[found + 1] == other);
                assert(keys[at] < keys[found + 1]);
            }
        }
        if keys.contains(other) && other != keys[at] {
            let found = position_of(keys, other);
            assert(0 <= found < keys.len() && keys[found] == other);
            if found < at {
                assert(new_keys[found] == other);
            } else {
                assert(new_keys[found - 1] == other);
            }
        }
    }
    assert forall|other: u8| #[trigger] after.contains_key(other) implies after[other]
        == before.remove(keys[at])[other] by {
        let found = position_of(new_keys, other);
        assert(0 <= found < new_keys.len() && new_keys[found] == other);
        lemma_position_unique(new_keys, found);
        if found < at {
            lemma_position_unique(keys, found);
        } else {
            lemma_position_unique(keys, found + 1);
        }
    }
    assert(after =~= before.remove(keys[at]));
}

/// Looks for `key` among the first `len` keys, which ascend: gives its
/// position, or the position at which it would have to be put.
pub fn search_keys<const N: usize>(keys: &[u8; N], len: usize, key: u8) -> (found: Result<
    usize,
    usize,
>)
    requires
        len <= N,
        strictly_ascending(keys@.take(len as int)),
    ensures
        is_search_result(keys@.take(len as int), key, found),
{
    let mut at: usize = 0;
    while at < len && keys[at] < key
        invariant
            at <= len <= N,
            forall|i: int| 0 <= i < at ==> keys@[i] < key,
        decreases len - at,
    {
        at += 1;
    }
    if at < len && keys[at] == key {
        Ok(at)
    } else {
        proof {
            let first = keys@.take(len as int);
            assert forall|i: int| at <= i < first.len() implies key < first[i] by {
                if i > at {
                    assert(first[at as int] < first[i]);
                }
            }
        }
        Err(at)
    }
}

/// Moves the items from `at` up to `len` one place up and puts `item` at
/// `at`.
pub fn shift_insert<T: Copy, const N: usize>(items: &mut [T; N], len: usize, at: usize, item: T)
    requires
        at <= len < N,
    ensures
        final(items)@.take(len + 1) == old(items)@.take(len as int).insert(at as int, item),
        forall|i: int| len < i < N ==> final(items)@[i] == old(items)@[i],
{
    let mut place: usize = len;
    while place > at
        invariant
            at <= place <= len < N,
            forall|i: int| 0 <= i <= place ==> items@[i] == old(items)@[i],
            forall|i: int| place < i <= len ==> items@[i] == old(items)@[i - 1],
            forall|i: int| len < i < N ==> items@[i] == old(items)@[i],
        decreases place,
    {
        let moved = items[place - 1];
        items[place] = moved;
        place -= 1;
    }
    items[at] = item;
    assert(items@.take(len + 1) =~= old(items)@.take(len as int).insert(at as int, item));
}

/// Takes the item at `at` out and moves the items behind it, up to `len`,
/// one place down.
pub fn shift_remove<T: Copy, const N: usize>(items: &mut [T; N], len: usize, at: usize)
    requires
        at < len <= N,
    ensures
        final(items)@.take(len - 1) == old(items)@.take(len as int).remove(at as int),
        forall|i: int| len <= i < N ==> final(items)@[i] == old(items)@[i],
{
    let mut place: usize = at;
    while place + 1 < len
        invariant
            at <= place < len <= N,
            forall|i: int| 0 <= i < at ==> items@[i] == old(items)@[i],
            forall|i: int| at <= i < place ==> items@[i] == old(items)@[i + 1],
            forall|i: int| place <= i < N ==> items@[i] == old(items)@[i],
        decreases len - place,
    {
        let moved = items[place + 1];
        items[place] = moved;
        place += 1;
    }
    assert(items@.take(len - 1) =~= old(items)@.take(len as int).remove(at as int));
}

} // verus!
