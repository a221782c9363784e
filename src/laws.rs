use vstd::prelude::*;
use crate::chunker::{lemma_pieces_concat, pieces, ChunkingStrategy};
use crate::dedup::count_in;
use crate::engine::{
    acquire_all, addresses, all_referenced, counts_fit, distinct, ids_view, release_all, repeats,
    restored_from,
};
use crate::hash::address_of;
use crate::types::ChunkId;

verus! {

/// After backing up data, every address of its chunks is referenced: the
/// references that `process_data` adds cover its whole result.
pub proof fn lemma_ingested_addresses_referenced(m: Map<Seq<char>, nat>, addrs: Seq<Seq<char>>)
    ensures
        forall|i: int|
            0 <= i < addrs.len() ==> #[trigger] acquire_all(m, addrs).contains_key(addrs[i]),
        forall|a: Seq<char>| m.contains_key(a) ==> #[trigger] acquire_all(m, addrs).contains_key(a),
    decreases addrs.len(),
{
    if addrs.len() > 0 {
        let init = addrs.drop_last();
        lemma_ingested_addresses_referenced(m, init);
        assert forall|i: int| 0 <= i < addrs.len() implies #[trigger] acquire_all(
            m,
            addrs,
        ).contains_key(addrs[i]) by {
            if i < addrs.len() - 1 {
                assert(acquire_all(m, init).contains_key(init[i]));
            }
        }
        assert forall|a: Seq<char>| m.contains_key(a) implies #[trigger] acquire_all(
            m,
            addrs,
        ).contains_key(a) by {
            assert(acquire_all(m, init).contains_key(a));
        }
    }
}

/// Restoring the addresses that backing up `data` returned gives back `data`,
/// provided no other plaintext shares an address with one of its chunks.
pub proof fn lemma_round_trip(s: ChunkingStrategy, data: Seq<u8>, out: Seq<u8>)
    requires
        s.valid(),
        restored_from(out, addresses(pieces(s, data))),
        forall|q: Seq<u8>, i: int|
            0 <= i < pieces(s, data).len() && #[trigger] address_of(q) == address_of(
                #[trigger] pieces(s, data)[i],
            ) ==> q == pieces(s, data)[i],
    ensures
        out == data,
{
    let cs = pieces(s, data);
    let ids = addresses(cs);
    let ps = choose|ps: Seq<Seq<u8>>|
        ps.len() == ids.len() && (forall|k: int|
            0 <= k < ps.len() ==> address_of(#[trigger] ps[k]) == ids[k]) && out == ps.flatten();
    assert forall|k: int| 0 <= k < ps.len() implies ps[k] == cs[k] by {
        assert(address_of(ps[k]) == ids[k]);
        assert(address_of(ps[k]) == address_of(cs[k]));
    }
    assert(ps =~= cs);
    lemma_pieces_concat(s, data);
}

/// Backing up the same bytes twice under one strategy gives the same
/// addresses: they depend on the bytes and the strategy alone.
pub proof fn lemma_ingest_deterministic(
    s: ChunkingStrategy,
    data: Seq<u8>,
    first: Seq<ChunkId>,
    second: Seq<ChunkId>,
)
    requires
        ids_view(first) == addresses(pieces(s, data)),
        ids_view(second) == addresses(pieces(s, data)),
    ensures
        ids_view(first) == ids_view(second),
{
}

/// Backing up bytes whose chunks are all referenced already stores no new
/// blob: given what `process_data` promises of the blobs, the set of stored
/// addresses, and so their number, stays the same.
pub proof fn lemma_reingest_stores_nothing(
    refs: Map<Seq<char>, nat>,
    addrs: Seq<Seq<char>>,
    before: Map<Seq<char>, Seq<u8>>,
    after: Map<Seq<char>, Seq<u8>>,
)
    requires
        forall|i: int| 0 <= i < addrs.len() ==> refs.contains_key(#[trigger] addrs[i]),
        forall|a: Seq<char>| #[trigger]
            refs.contains_key(a) ==> after.contains_key(a) == before.contains_key(a),
        forall|a: Seq<char>| #[trigger] before.contains_key(a) ==> after.contains_key(a),
        forall|a: Seq<char>| #[trigger]
            after.contains_key(a) ==> before.contains_key(a) || addrs.contains(a),
    ensures
        after.dom() == before.dom(),
        after.len() == before.len(),
{
    assert forall|a: Seq<char>| after.dom().contains(a) == before.dom().contains(a) by {
        if after.contains_key(a) && !before.contains_key(a) {
            let i = choose|i: int| 0 <= i < addrs.len() && addrs[i] == a;
            assert(refs.contains_key(addrs[i]));
        }
    }
    assert(after.dom() =~= before.dom());
}

/// Writing the same blob twice under one address leaves the store as one
/// write did.
pub proof fn lemma_put_idempotent(m: Map<Seq<char>, Seq<u8>>, a: Seq<char>, x: Seq<u8>)
    ensures
        m.insert(a, x).insert(a, x) == m.insert(a, x),
{
    assert(m.insert(a, x).insert(a, x) =~= m.insert(a, x));
}

/// Number of occurrences of `a` in `s`.
pub open spec fn occurrences(s: Seq<Seq<char>>, a: Seq<char>) -> nat
    decreases s.len(),
{
    if s.len() == 0 {
        0
    } else {
        occurrences(s.drop_last(), a) + if s.last() == a { 1nat } else { 0nat }
    }
}

/// References after each snapshot of `us`, in turn, has had its data backed
/// up (one reference per chunk occurrence) and has been committed.
pub open spec fn after_commits(m: Map<Seq<char>, nat>, us: Seq<Seq<Seq<char>>>) -> Map<
    Seq<char>,
    nat,
>
    decreases us.len(),
{
    if us.len() == 0 {
        m
    } else {
        release_all(acquire_all(after_commits(m, us.drop_last()), us.last()), repeats(us.last()))
    }
}

/// References after the snapshots of `us` that are not `alive` are dropped, in turn.
pub open spec fn after_drops(
    m: Map<Seq<char>, nat>,
    us: Seq<Seq<Seq<char>>>,
    alive: Seq<bool>,
) -> Map<Seq<char>, nat>
    decreases us.len(),
{
    if us.len() == 0 || alive.len() == 0 {
        m
    } else if alive.last() {
        after_drops(m, us.drop_last(), alive.drop_last())
    } else {
        release_all(after_drops(m, us.drop_last(), alive.drop_last()), distinct(us.last()))
    }
}

/// Number of snapshots of `us` that reference `a`: of all of them when
/// `any_state`, else of those whose `alive` flag is `state`.
pub open spec fn referencing(
    us: Seq<Seq<Seq<char>>>,
    alive: Seq<bool>,
    a: Seq<char>,
    state: bool,
    any_state: bool,
) -> nat
    decreases us.len(),
{
    if us.len() == 0 || alive.len() == 0 {
        0
    } else {
        referencing(us.drop_last(), alive.drop_last(), a, state, any_state) + if us.last().contains(
            a,
        ) && (any_state || alive.last() == state) {
            1nat
        } else {
            0nat
        }
    }
}

proof fn lemma_count_acquire_all(m: Map<Seq<char>, nat>, s: Seq<Seq<char>>, a: Seq<char>)
    ensures
        count_in(acquire_all(m, s), a) == count_in(m, a) + occurrences(s, a),
    decreases s.len(),
{
    if s.len() > 0 {
        lemma_count_acquire_all(m, s.drop_last(), a);
    }
}

proof fn lemma_count_release_all(m: Map<Seq<char>, nat>, s: Seq<Seq<char>>, a: Seq<char>)
    requires
        count_in(m, a) >= occurrences(s, a),
    ensures
        count_in(release_all(m, s), a) == count_in(m, a) - occurrences(s, a),
    decreases s.len(),
{
    if s.len() > 0 {
        lemma_count_release_all(m, s.drop_last(), a);
    }
}

proof fn lemma_occurrences_push(t: Seq<Seq<char>>, x: Seq<char>, a: Seq<char>)
    ensures
        occurrences(t.push(x), a) == occurrences(t, a) + if x == a { 1nat } else { 0nat },
{
    assert(t.push(x).drop_last() =~= t);
}

proof fn lemma_split_occurrences(u: Seq<Seq<char>>, a: Seq<char>)
    ensures
        occurrences(u, a) == occurrences(repeats(u), a) + occurrences(distinct(u), a),
        occurrences(distinct(u), a) == if u.contains(a) { 1nat } else { 0nat },
    decreases u.len(),
{
    if u.len() > 0 {
        let init = u.drop_last();
        let x = u.last();
        lemma_split_occurrences(init, a);
        lemma_occurrences_push(repeats(init), x, a);
        lemma_occurrences_push(distinct(init), x, a);
        assert(u.contains(a) == (init.contains(a) || x == a)) by {
            if u.contains(a) && !init.contains(a) {
                let k = choose|k: int| 0 <= k < u.len() && u[k] == a;
                if k < u.len() - 1 {
                    assert(init[k] == a);
                }
            }
            if init.contains(a) {
                let k = choose|k: int| 0 <= k < init.len() && init[k] == a;
                assert(u[k] == a);
            }
            if x == a {
                assert(u[u.len() - 1] == a);
            }
        }
        if init.contains(x) && x == a {
            assert(init.contains(a));
        }
    }
}

proof fn lemma_count_after_commits(us: Seq<Seq<Seq<char>>>, alive: Seq<bool>, a: Seq<char>)
    requires
        us.len() == alive.len(),
    ensures
        count_in(after_commits(Map::empty(), us), a) == referencing(us, alive, a, true, true),
    decreases us.len(),
{
    if us.len() > 0 {
        let prev = after_commits(Map::empty(), us.drop_last());
        let u = us.last();
        lemma_count_after_commits(us.drop_last(), alive.drop_last(), a);
        lemma_count_acquire_all(prev, u, a);
        lemma_split_occurrences(u, a);
        lemma_count_release_all(acquire_all(prev, u), repeats(u), a);
    }
}

proof fn lemma_count_after_drops(
    m: Map<Seq<char>, nat>,
    us: Seq<Seq<Seq<char>>>,
    alive: Seq<bool>,
    a: Seq<char>,
)
    requires
        us.len() == alive.len(),
        count_in(m, a) >= referencing(us, alive, a, false, false),
    ensures
        count_in(after_drops(m, us, alive), a) == count_in(m, a) - referencing(
            us,
            alive,
            a,
            false,
            false,
        ),
    decreases us.len(),
{
    if us.len() > 0 {
        let prev = after_drops(m, us.drop_last(), alive.drop_last());
        lemma_count_after_drops(m, us.drop_last(), alive.drop_last(), a);
        if !alive.last() {
            lemma_split_occurrences(us.last(), a);
            lemma_count_release_all(prev, distinct(us.last()), a);
        }
    }
}

proof fn lemma_referencing_split(us: Seq<Seq<Seq<char>>>, alive: Seq<bool>, a: Seq<char>)
    requires
        us.len() == alive.len(),
    ensures
        referencing(us, alive, a, true, true) == referencing(us, alive, a, true, false)
            + referencing(us, alive, a, false, false),
    decreases us.len(),
{
    if us.len() > 0 {
        lemma_referencing_split(us.drop_last(), alive.drop_last(), a);
    }
}

/// Number of surviving snapshots of `us` that reference `a`.
pub open spec fn survivors_referencing(us: Seq<Seq<Seq<char>>>, alive: Seq<bool>, a: Seq<char>) -> nat {
    referencing(us, alive, a, true, false)
}

/// After backing up and committing the snapshots `us` (each the addresses
/// its files reference) on a fresh index, and then dropping every snapshot
/// that `alive` does not mark, the reference count of each address is the
/// number of surviving snapshots that reference it: at least one for an
/// address of a survivor, zero (no entry) for any other.
pub proof fn lemma_refcount_counts_survivors(
    us: Seq<Seq<Seq<char>>>,
    alive: Seq<bool>,
    a: Seq<char>,
)
    requires
        us.len() == alive.len(),
    ensures
        count_in(after_drops(after_commits(Map::empty(), us), us, alive), a) == survivors_referencing(
            us,
            alive,
            a,
        ),
{
    lemma_count_after_commits(us, alive, a);
    lemma_referencing_split(us, alive, a);
    lemma_count_after_drops(after_commits(Map::empty(), us), us, alive, a);
}

proof fn lemma_occurrences_bounded(s: Seq<Seq<char>>, a: Seq<char>)
    ensures
        occurrences(s, a) <= s.len(),
    decreases s.len(),
{
    if s.len() > 0 {
        lemma_occurrences_bounded(s.drop_last(), a);
    }
}

/// After backing up bytes on a fresh index, backing up the same bytes again
/// meets the condition under which `process_data` owes success: every chunk
/// is referenced, and no count can overflow (for fewer than 2^63 chunks).
pub proof fn lemma_reingest_owed(addrs: Seq<Seq<char>>)
    requires
        2 * addrs.len() <= u64::MAX,
    ensures
        all_referenced(acquire_all(Map::empty(), addrs), addrs),
        counts_fit(acquire_all(Map::empty(), addrs), addrs),
{
    lemma_ingested_addresses_referenced(Map::empty(), addrs);
    assert forall|i: int| 0 <= i < addrs.len() implies count_in(
        acquire_all(Map::empty(), addrs),
        #[trigger] addrs[i],
    ) + addrs.len() <= u64::MAX by {
        lemma_count_acquire_all(Map::empty(), addrs, addrs[i]);
        lemma_occurrences_bounded(addrs, addrs[i]);
    }
}

} // verus!
