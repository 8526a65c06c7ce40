//! Properties of routing that hold across calls and inputs.

use vstd::prelude::*;

use crate::batch::{
    assignment, batch_decodes, chunk_of, clamp, group_indices, lemma_pair_indices_concat, pair_indices,
};
use crate::record::{tag_value_of, TagEntry, TagError, TagRecord};
use crate::subsetter::{group_of, lemma_group_of_bounds, route_of, Subsetter};

verus! {

/// Some registered list holds the tag value of a record with tag table `tags`.
pub open spec fn listed(lists: Seq<Seq<Seq<char>>>, tags: Seq<TagEntry>, key: [u8; 2]) -> bool {
    match tag_value_of(tags, key) {
        Ok(Some(v)) => exists|k: int| 0 <= k < lists.len() && #[trigger] lists[k].contains(v),
        _ => false,
    }
}

/// A value has a group exactly when some registered list holds it.
pub proof fn lemma_group_of_listed(lists: Seq<Seq<Seq<char>>>, v: Seq<char>)
    ensures
        group_of(lists, v) is Some <==> exists|k: int| 0 <= k < lists.len() && #[trigger] lists[k].contains(v),
    decreases lists.len(),
{
    lemma_group_of_bounds(lists, v);
    if lists.len() > 0 && !lists.last().contains(v) {
        let rest = lists.drop_last();
        lemma_group_of_listed(rest, v);
        if exists|k: int| 0 <= k < lists.len() && #[trigger] lists[k].contains(v) {
            let k = choose|k: int| 0 <= k < lists.len() && #[trigger] lists[k].contains(v);
            assert(rest[k] == lists[k]);
        }
        if exists|k: int| 0 <= k < rest.len() && #[trigger] rest[k].contains(v) {
            let k = choose|k: int| 0 <= k < rest.len() && #[trigger] rest[k].contains(v);
            assert(lists[k] == rest[k]);
        }
    }
}

/// A later registration wins: a value goes to the last registered list that
/// holds it, whatever earlier lists hold it too.
pub proof fn lemma_later_registration_wins(lists: Seq<Seq<Seq<char>>>, v: Seq<char>, k: int)
    requires
        0 <= k < lists.len(),
        lists[k].contains(v),
        forall|j: int| k < j < lists.len() ==> !(#[trigger] lists[j]).contains(v),
    ensures
        group_of(lists, v) == Some(k as nat),
    decreases lists.len(),
{
    if k < lists.len() - 1 {
        let rest = lists.drop_last();
        assert forall|j: int| k < j < rest.len() implies !(#[trigger] rest[j]).contains(v) by {
            assert(rest[j] == lists[j]);
        }
        lemma_later_registration_wins(rest, v, k);
    }
}

/// A group registered from an empty list exists but no value reaches it.
pub proof fn lemma_empty_list_unreachable(lists: Seq<Seq<Seq<char>>>, k: int, v: Seq<char>)
    requires
        0 <= k < lists.len(),
        lists[k].len() == 0,
    ensures
        group_of(lists, v) != Some(k as nat),
{
    lemma_group_of_bounds(lists, v);
}

/// Position `i` is in the index list of group `g` over the first `n` records
/// exactly when it is below `n` and record `i` goes to `g`.
pub proof fn lemma_group_indices_membership(
    lists: Seq<Seq<Seq<char>>>,
    records: Seq<TagRecord>,
    key: [u8; 2],
    g: nat,
    n: int,
    i: int,
)
    requires
        0 <= n <= records.len() <= usize::MAX,
        0 <= i < records.len(),
    ensures
        group_indices(lists, records, key, g, n).contains(i as usize) <==> (i < n && route_of(lists, records[i].tags@, key) == Ok::<Option<nat>, TagError>(Some(g))),
    decreases n,
{
    if n > 0 {
        lemma_group_indices_membership(lists, records, key, g, n - 1, i);
        let prev = group_indices(lists, records, key, g, n - 1);
        let x = (n - 1) as usize;
        if route_of(lists, records[n - 1].tags@, key) == Ok::<Option<nat>, TagError>(Some(g)) {
            let cur = prev.push(x);
            if prev.contains(i as usize) {
                let j = choose|j: int| 0 <= j < prev.len() && prev[j] == i as usize;
                assert(cur[j] == i as usize);
            }
            if i == n - 1 {
                assert(cur[prev.len() as int] == i as usize);
            }
            if cur.contains(i as usize) {
                let j = choose|j: int| 0 <= j < cur.len() && cur[j] == i as usize;
                if j < prev.len() {
                    assert(prev[j] == i as usize);
                }
            }
        }
    }
}

/// Every record of a batch whose tag value lies in some registered list is
/// routed to exactly one group; every other record to none.
pub proof fn lemma_coverage(lists: Seq<Seq<Seq<char>>>, records: Seq<TagRecord>, key: [u8; 2], i: int)
    requires
        batch_decodes(records, key),
        records.len() <= usize::MAX,
        0 <= i < records.len(),
    ensures
        ({
            let groups = assignment(lists, records, key)->Ok_0;
            &&& listed(lists, records[i].tags@, key) ==> exists|g: int|
                0 <= g < lists.len() && #[trigger] groups[g].contains(i as usize) && forall|h: int|
                    0 <= h < lists.len() && h != g ==> !(#[trigger] groups[h].contains(i as usize))
            &&& !listed(lists, records[i].tags@, key) ==> forall|h: int|
                0 <= h < lists.len() ==> !(#[trigger] groups[h].contains(i as usize))
        }),
{
    let n = records.len() as int;
    let groups = assignment(lists, records, key)->Ok_0;
    assert(tag_value_of(records[i].tags@, key) is Ok);
    assert forall|h: int| 0 <= h < lists.len() implies (#[trigger] groups[h].contains(i as usize)) == (route_of(lists, records[i].tags@, key) == Ok::<Option<nat>, TagError>(Some(h as nat))) by {
        lemma_group_indices_membership(lists, records, key, h as nat, n, i);
    }
    match tag_value_of(records[i].tags@, key) {
        Ok(Some(v)) => {
            lemma_group_of_listed(lists, v);
            lemma_group_of_bounds(lists, v);
            if let Some(g) = group_of(lists, v) {
                assert(groups[g as int].contains(i as usize));
            }
        },
        _ => {},
    }
}

/// For each group, the concatenation in chunk order of the routing of the
/// first `c` chunks of `size` pairs.
pub open spec fn merged_chunks(lists: Seq<Seq<Seq<char>>>, pairs: Seq<(usize, String)>, size: nat, g: nat, c: nat) -> Seq<usize>
    decreases c,
{
    if c == 0 {
        Seq::empty()
    } else {
        merged_chunks(lists, pairs, size, g, (c - 1) as nat) + pair_indices(lists, chunk_of(pairs, size, c - 1), g)
    }
}

proof fn lemma_merged_prefix(lists: Seq<Seq<Seq<char>>>, pairs: Seq<(usize, String)>, size: nat, g: nat, c: nat)
    requires
        size > 0,
        c == 0 || (c - 1) * size < pairs.len(),
    ensures
        merged_chunks(lists, pairs, size, g, c) == pair_indices(lists, pairs.subrange(0, clamp((c * size) as int, pairs.len() as int)), g),
    decreases c,
{
    if c == 0 {
        assert(pairs.subrange(0, 0) =~= Seq::<(usize, String)>::empty());
    } else {
        let b = (c - 1) as nat;
        assert(b * size + size == c * size) by (nonlinear_arith)
            requires b == c - 1;
        if b > 0 {
            assert((b - 1) * size <= b * size) by (nonlinear_arith)
                requires b > 0, size > 0;
        }
        lemma_merged_prefix(lists, pairs, size, g, b);
        let start = (b * size) as int;
        let end = clamp((c * size) as int, pairs.len() as int);
        assert(pairs.subrange(0, start) + chunk_of(pairs, size, b as int) =~= pairs.subrange(0, end));
        lemma_pair_indices_concat(lists, pairs.subrange(0, start), chunk_of(pairs, size, b as int), g);
    }
}

/// Chunk boundaries do not change the result: cutting the pairs into chunks
/// of any size, routing each chunk on its own and concatenating the results
/// in chunk order gives the routing of all the pairs at once.
pub proof fn lemma_chunked_routing(lists: Seq<Seq<Seq<char>>>, pairs: Seq<(usize, String)>, size: nat, g: nat, c: nat)
    requires
        size > 0,
        c * size >= pairs.len(),
        c == 0 || (c - 1) * size < pairs.len(),
    ensures
        merged_chunks(lists, pairs, size, g, c) == pair_indices(lists, pairs, g),
{
    lemma_merged_prefix(lists, pairs, size, g, c);
    assert(pairs.subrange(0, pairs.len() as int) =~= pairs);
}

/// Two registries built from the same lists in the same order route every
/// value, and every batch, alike.
pub proof fn lemma_same_registration_same_routing(a: Subsetter, b: Subsetter, records: Seq<TagRecord>, key: [u8; 2])
    requires
        a.wf(),
        b.wf(),
        a.registered() == b.registered(),
    ensures
        forall|v: Seq<char>| #[trigger] group_of(a.registered(), v) == group_of(b.registered(), v),
        assignment(a.registered(), records, key) == assignment(b.registered(), records, key),
{
}

} // verus!
