use crate::game::{
    by_coord, coord, deployed_id, indexes_deployed, int_order, lemma_by_coord_is_comparator_order, lemma_by_coord_total,
    axis_sorted, Axis, Character, CharacterMobility, Entities,
};
use crate::sort::{callable_on, compares_by, insertion_sort};
use std::cmp::Ordering;
use vstd::prelude::*;

verus! {

/// The smallest index of `ids` at which `value` could be inserted with the
/// order by coordinate on `axis` kept: every unit before it lies below
/// `value`, and every unit from it on lies at or above `value`.
pub fn bound(entities: &Entities, ids: &Vec<usize>, axis: Axis, value: i64) -> (idx: usize)
    requires
        forall|k: int| 0 <= k < ids@.len() ==> deployed_id(entities.characters@, #[trigger] ids@[k]),
        axis_sorted(entities.characters@, ids@, axis),
    ensures
        idx <= ids@.len(),
        forall|k: int| 0 <= k < idx ==> coord(entities.characters@, #[trigger] ids@[k], axis) < value,
        forall|k: int| idx <= k < ids@.len() ==> coord(entities.characters@, #[trigger] ids@[k], axis) >= value,
{
    let ghost units = entities.characters@;
    let mut lo: usize = 0;
    let mut hi: usize = ids.len();
    while lo < hi
        invariant
            lo <= hi <= ids@.len(),
            units == entities.characters@,
            forall|k: int| 0 <= k < ids@.len() ==> deployed_id(units, #[trigger] ids@[k]),
            axis_sorted(units, ids@, axis),
            forall|k: int| 0 <= k < lo ==> coord(units, #[trigger] ids@[k], axis) < value,
            forall|k: int| hi <= k < ids@.len() ==> coord(units, #[trigger] ids@[k], axis) >= value,
        decreases hi - lo,
    {
        let mid = lo + (hi - lo) / 2;
        let c = entities.coordinate(ids[mid], axis);
        if c < value {
            proof {
                assert forall|k: int| 0 <= k < mid + 1 implies coord(units, #[trigger] ids@[k], axis) < value by {
                    if k < mid {
                        assert(by_coord(units, axis)(ids@[k], ids@[mid as int]));
                    }
                }
            }
            lo = mid + 1;
        } else {
            proof {
                assert forall|k: int| mid <= k < ids@.len() implies coord(units, #[trigger] ids@[k], axis) >= value by {
                    if k > mid {
                        assert(by_coord(units, axis)(ids@[mid as int], ids@[k]));
                    }
                }
            }
            hi = mid;
        }
    }
    lo
}

/// The ids of `ids` that name deployed characters, in their order.
pub fn remove_parked(entities: &Entities, ids: &Vec<usize>) -> (kept: Vec<usize>)
    requires
        forall|k: int| 0 <= k < ids@.len() ==> #[trigger] ids@[k] < entities.characters@.len(),
    ensures
        kept@ == ids@.filter(|id: usize| deployed_id(entities.characters@, id)),
        forall|id: usize| kept@.contains(id) <==> ids@.contains(id) && deployed_id(entities.characters@, id),
        ids@.no_duplicates() ==> kept@.no_duplicates(),
{
    let ghost units = entities.characters@;
    let ghost pred = |id: usize| deployed_id(units, id);
    let mut kept: Vec<usize> = Vec::new();
    let mut i: usize = 0;
    while i < ids.len()
        invariant
            i <= ids@.len(),
            units == entities.characters@,
            pred == (|id: usize| deployed_id(units, id)),
            forall|k: int| 0 <= k < ids@.len() ==> #[trigger] ids@[k] < units.len(),
            kept@ == ids@.subrange(0, i as int).filter(pred),
            forall|id: usize| kept@.contains(id) <==> ids@.subrange(0, i as int).contains(id) && deployed_id(units, id),
            ids@.no_duplicates() ==> kept@.no_duplicates(),
        decreases ids@.len() - i,
    {
        let id = ids[i];
        let ghost before = kept@;
        proof {
            ids@.subrange(0, i as int).lemma_filter_push(id, pred);
            assert(ids@.subrange(0, i + 1) =~= ids@.subrange(0, i as int).push(id));
        }
        let deployed = match &entities.characters[id].mobility {
            CharacterMobility::Unit { .. } => true,
            CharacterMobility::Parked { .. } => false,
        };
        assert(deployed == deployed_id(units, id));
        if deployed {
            proof {
                if ids@.no_duplicates() {
                    assert(!ids@.subrange(0, i as int).contains(id)) by {
                        if ids@.subrange(0, i as int).contains(id) {
                            let k = choose|k: int| 0 <= k < i && ids@.subrange(0, i as int)[k] == id;
                            assert(ids@[k] == ids@[i as int]);
                        }
                    }
                    assert(!before.contains(id));
                }
            }
            kept.push(id);
        }
        proof {
            let next = ids@.subrange(0, i + 1);
            let prev = ids@.subrange(0, i as int);
            assert forall|x: usize| kept@.contains(x) <==> next.contains(x) && deployed_id(units, x) by {
                if x == id && deployed {
                    assert(kept@[kept@.len() - 1] == x);
                }
                if x == id {
                    assert(next[i as int] == x);
                }
                if kept@.contains(x) && x != id {
                    let k = choose|k: int| 0 <= k < kept@.len() && kept@[k] == x;
                    assert(before[k] == x);
                }
                if before.contains(x) {
                    let k = choose|k: int| 0 <= k < before.len() && before[k] == x;
                    assert(kept@[k] == x);
                }
                if prev.contains(x) {
                    let k = choose|k: int| 0 <= k < prev.len() && prev[k] == x;
                    assert(next[k] == x);
                }
                if next.contains(x) && x != id {
                    let k = choose|k: int| 0 <= k < next.len() && next[k] == x;
                    assert(prev[k] == x);
                }
            }
        }
        i = i + 1;
    }
    proof {
        assert(ids@.subrange(0, ids@.len() as int) =~= ids@);
    }
    kept
}

/// Sorts `ids` by the coordinate of each unit on `axis`.
pub fn resort(entities: &Entities, ids: &mut Vec<usize>, axis: Axis)
    requires
        forall|k: int| 0 <= k < old(ids)@.len() ==> deployed_id(entities.characters@, #[trigger] old(ids)@[k]),
    ensures
        final(ids)@.to_multiset() == old(ids)@.to_multiset(),
        final(ids)@.len() == old(ids)@.len(),
        axis_sorted(entities.characters@, final(ids)@, axis),
{
    let ghost units = entities.characters@;
    let cmp = |a: &usize, b: &usize| -> (r: Ordering)
        requires
            deployed_id(entities.characters@, *a),
            deployed_id(entities.characters@, *b),
        ensures
            r == int_order(coord(entities.characters@, *a, axis), coord(entities.characters@, *b, axis)),
        { entities.unit_comparator(*a, *b, axis) };
    proof {
        let le = by_coord(units, axis);
        lemma_by_coord_total(units, axis);
        assert forall|a: &usize, b: &usize, r: Ordering| #[trigger] cmp.ensures((a, b), r) implies r
            == crate::sort::order_of(le, *a, *b) by {
            lemma_by_coord_is_comparator_order(units, axis, *a, *b);
        }
        assert(compares_by(cmp, le));
        assert forall|a: usize, b: usize| ids@.contains(a) && ids@.contains(b) implies #[trigger] cmp.requires((&a, &b)) by {
            let ka = choose|k: int| 0 <= k < ids@.len() && ids@[k] == a;
            let kb = choose|k: int| 0 <= k < ids@.len() && ids@[k] == b;
            assert(deployed_id(units, ids@[ka]));
            assert(deployed_id(units, ids@[kb]));
        }
        assert(callable_on(cmp, ids@));
    }
    insertion_sort(ids.as_mut_slice(), cmp);
}

pub(crate) proof fn lemma_rearranged_index(units: Seq<Character>, p: Seq<usize>, q: Seq<usize>)
    requires
        indexes_deployed(units, p),
        q.to_multiset() == p.to_multiset(),
    ensures
        indexes_deployed(units, q),
{
    broadcast use vstd::seq_lib::group_to_multiset_ensures;

    p.lemma_multiset_has_no_duplicates();
    q.lemma_multiset_has_no_duplicates_conv();
    assert forall|id: usize| q.contains(id) <==> p.contains(id) by {
        assert(q.contains(id) <==> q.to_multiset().count(id) > 0);
        assert(p.contains(id) <==> p.to_multiset().count(id) > 0);
    }
}

} // verus!
