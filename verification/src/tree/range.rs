//! Range queries: the keys of a tree between two bounds, in order.

use crate::heap::NodeHeap;
use crate::nodes::pointer::OpaqueNodePtr;
use crate::tree::traverse::{leaf_keys, lex_ascending, lex_less, lex_less_at};
use vstd::prelude::*;

verus! {

/// The order of byte strings is transitive.
pub proof fn lemma_lex_less_transitive(first: Seq<u8>, second: Seq<u8>, third: Seq<u8>)
    requires
        lex_less(first, second),
        lex_less(second, third),
    ensures
        lex_less(first, third),
{
    let low = choose|at: int| lex_less_at(first, second, at);
    let high = choose|at: int| lex_less_at(second, third, at);
    let at = if low <= high {
        low
    } else {
        high
    };
    assert(lex_less_at(first, third, at));
}

/// Whether `left` comes before `right` in the order of byte strings.
pub fn key_less(left: &[u8], right: &[u8]) -> (less: bool)
    ensures
        less == lex_less(left@, right@),
{
    let mut at: usize = 0;
    while at < left.len() && at < right.len() && left[at] == right[at]
        invariant
            at <= left@.len(),
            at <= right@.len(),
            forall|i: int| 0 <= i < at ==> left@[i] == right@[i],
        decreases left@.len() - at,
    {
        at += 1;
    }
    let less = if at == left.len() {
        at < right.len()
    } else if at == right.len() {
        false
    } else {
        left[at] < right[at]
    };
    proof {
        let place = at as int;
        if less {
            assert(lex_less_at(left@, right@, place));
        } else if lex_less(left@, right@) {
            let other = choose|other: int| lex_less_at(left@, right@, other);
            if other < place {
                assert(left@[other] == right@[other]);
            } else if other > place {
                if place < left@.len() && place < right@.len() {
                    assert(left@[place] == right@[place]);
                }
            }
        }
    }
    less
}

/// Whether `keys` are the keys among `all` that come neither before `lower`
/// nor behind `upper`, where `all` are in ascending order: a run of `all`
/// in front of which every key comes before `lower`, and behind which
/// every key comes behind `upper`.
pub open spec fn is_range_of(
    keys: Seq<Seq<u8>>,
    all: Seq<Seq<u8>>,
    lower: Seq<u8>,
    upper: Seq<u8>,
) -> bool {
    exists|from: int, to: int|
        {
            &&& 0 <= from <= to <= all.len()
            &&& keys == all.subrange(from, to)
            &&& forall|i: int| 0 <= i < from ==> lex_less(#[trigger] all[i], lower)
            &&& forall|i: int|
                from <= i < to ==> !lex_less(#[trigger] all[i], lower) && !lex_less(upper, all[i])
            &&& forall|i: int|
                to <= i < all.len() ==> lex_less(upper, #[trigger] all[i]) || lex_less(
                    all[i],
                    lower,
                )
        }
}

impl<V> NodeHeap<V> {
    /// The keys of the tree with the given root that come neither before
    /// `lower` nor behind `upper`, in ascending order.
    ///
    /// The keys are taken from an ordered traversal: the keys that come
    /// before `lower` are passed over, and the keys from there on are kept
    /// until a key comes behind `upper`.
    pub fn range(&self, root: Option<OpaqueNodePtr<V>>, lower: &[u8], upper: &[u8]) -> (keys: Vec<
        Vec<u8>,
    >)
        requires
            self.holds_tree(root),
        ensures
            is_range_of(
                keys@.map_values(|key: Vec<u8>| key@),
                leaf_keys(self.visits(root)),
                lower@,
                upper@,
            ),
            forall|key: Seq<u8>|
                keys@.map_values(|key: Vec<u8>| key@).contains(key) <==> self.view().contains_key(
                    key,
                ) && !lex_less(key, lower@) && !lex_less(upper@, key),
            lex_ascending(keys@.map_values(|key: Vec<u8>| key@)),
    {
        let mut keys = self.ordered_keys(root);
        let ghost all = keys@.map_values(|key: Vec<u8>| key@);
        proof {
            self.lemma_traversal_order(root);
        }
        let mut to: usize = 0;
        while to < keys.len() && !key_less(upper, &keys[to])
            invariant
                to <= keys@.len(),
                all == keys@.map_values(|key: Vec<u8>| key@),
                forall|i: int| 0 <= i < to ==> !lex_less(upper@, #[trigger] all[i]),
            decreases keys@.len() - to,
        {
            assert(all[to as int] == keys@[to as int]@);
            to += 1;
        }
        proof {
            if to < keys@.len() {
                assert(all[to as int] == keys@[to as int]@);
                assert forall|i: int| to <= i < all.len() implies lex_less(
                    upper@,
                    #[trigger] all[i],
                ) by {
                    if i > to {
                        lemma_lex_less_transitive(upper@, all[to as int], all[i]);
                    }
                }
            }
        }
        keys.truncate(to);
        let mut from: usize = 0;
        while from < keys.len() && key_less(&keys[from], lower)
            invariant
                from <= keys@.len(),
                keys@.len() == to,
                to <= all.len(),
                keys@.map_values(|key: Vec<u8>| key@) == all.subrange(0, to as int),
                forall|i: int| 0 <= i < from ==> lex_less(#[trigger] all[i], lower@),
            decreases keys@.len() - from,
        {
            assert(all.subrange(0, to as int)[from as int] == keys@[from as int]@);
            from += 1;
        }
        proof {
            if from < to {
                assert(all.subrange(0, to as int)[from as int] == keys@[from as int]@);
                assert forall|i: int| from <= i < to implies !lex_less(
                    #[trigger] all[i],
                    lower@,
                ) by {
                    if i > from && lex_less(all[i], lower@) {
                        lemma_lex_less_transitive(all[from as int], all[i], lower@);
                    }
                }
            }
        }
        let kept = keys.split_off(from);
        proof {
            let found = kept@.map_values(|key: Vec<u8>| key@);
            assert(found =~= all.subrange(from as int, to as int)) by {
                assert forall|i: int| 0 <= i < found.len() implies found[i] == all[from + i] by {
                    assert(all.subrange(0, to as int)[from + i] == all[from + i]);
                }
            }
            assert(is_range_of(found, all, lower@, upper@)) by {
                let low = from as int;
                let high = to as int;
                assert(0 <= low <= high <= all.len() && found == all.subrange(low, high)
                    && (forall|i: int| 0 <= i < low ==> lex_less(#[trigger] all[i], lower@))
                    && (forall|i: int|
                    low <= i < high ==> !lex_less(#[trigger] all[i], lower@) && !lex_less(
                        upper@,
                        all[i],
                    )) && (forall|i: int|
                    high <= i < all.len() ==> lex_less(upper@, #[trigger] all[i]) || lex_less(
                        all[i],
                        lower@,
                    )));
            }
            assert forall|key: Seq<u8>|
                found.contains(key) <==> self.view().contains_key(key) && !lex_less(key, lower@)
                    && !lex_less(upper@, key) by {
                if found.contains(key) {
                    let i = choose|i: int| 0 <= i < found.len() && found[i] == key;
                    assert(all[from + i] == key);
                    assert(all.contains(key));
                }
                if self.view().contains_key(key) && !lex_less(key, lower@) && !lex_less(
                    upper@,
                    key,
                ) {
                    assert(all.contains(key));
                    let i = choose|i: int| 0 <= i < all.len() && all[i] == key;
                    assert(from <= i < to);
                    assert(found[i - from] == key);
                }
            }
            assert forall|i: int, j: int| 0 <= i < j < found.len() implies lex_less(
                found[i],
                found[j],
            ) by {
                assert(lex_less(all[from + i], all[from + j]));
            }
        }
        kept
    }
}

} // verus!
