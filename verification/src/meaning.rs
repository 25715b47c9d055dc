//! What the contracts come down to.
//!
//! The contracts speak of stores, domains and states by name. Here is what these names entail, said of
//! what there is to look at: which objects are there, what the hazard pointers hold, and what comes
//! before what.

use vstd::prelude::*;

use crate::cell;
use crate::cell::changed_at;
use crate::domains::{
    addrs_of, loaded, options_of, words_of, Config, GlobalDomain, LocalDomain, SharedDomain,
};
use crate::hazard::{
    cleared_from, guarded, is_first_available, lemma_guarded, may_acquire, reclaimable, Domain,
    HzrdPtr, ReadHandle, RetiredPtr,
};
use crate::heap::{Both, Either, Heap, Store, DUMMY, NULL};
use crate::interleaving::{Step, Task, World};
use crate::kinds::{InFirst, InSecond, Kind, KindCell, KindHandle, Whole};
use crate::linked_list::LinkedList;
use crate::pair;
use crate::pair::{all_available, Ptrs};
use crate::region::{Region, State};
use crate::schedule::Schedule;
use crate::stack::{Cursor, Push, SharedStack};
use crate::value::HzrdValue;
use crate::{HzrdCell, HzrdReader};

verus! {

/// To free objects leaves every other object of the store where and as it was, whatever the store is.
pub proof fn lemma_freeing_leaves_the_rest<S: Store>(
    after: S,
    before: S,
    gone: Set<usize>,
    addr: usize,
)
    requires
        after.freed_from(&before, gone),
    ensures
        after.live().contains(addr) == (before.live().contains(addr) && !gone.contains(addr)),
        after.live().contains(addr) ==> after.objects()[addr] == before.objects()[addr],
{
    after.lemma_freed(&after, &before, gone, gone);
}

/// A reclamation frees nothing that was not retired, and nothing that is guarded: every such object of
/// the store is where and as it was.
pub proof fn lemma_reclaiming_leaves_the_rest<S: Store>(
    after: S,
    before: S,
    garbage: Set<usize>,
    words: Map<usize, usize>,
    bulk_size: nat,
    addr: usize,
)
    requires
        after.freed_from(&before, reclaimable(garbage, words, bulk_size)),
        before.live().contains(addr),
        !garbage.contains(addr) || words.contains_value(addr) || garbage.len() < bulk_size,
    ensures
        after.live().contains(addr),
        after.objects()[addr] == before.objects()[addr],
{
    lemma_freeing_leaves_the_rest(after, before, reclaimable(garbage, words, bulk_size), addr);
}

/// To free objects of a heap leaves the others where and as they were.
pub proof fn lemma_heap_keeps_the_rest<T>(
    after: Heap<T>,
    before: Heap<T>,
    gone: Set<usize>,
    addr: usize,
)
    requires
        after.freed_from(&before, gone),
    ensures
        after@.contains_key(addr) == (before@.contains_key(addr) && !gone.contains(addr)),
        after@.contains_key(addr) ==> after@[addr] == before@[addr],
{
}

/// The objects of a heap are those that can be looked at.
pub proof fn lemma_heap_objects<T>(heap: Heap<T>, addr: usize)
    ensures
        heap.sound() == heap.wf(),
        heap.live().contains(addr) == heap@.contains_key(addr),
        heap.objects().contains_key(addr) == heap@.contains_key(addr),
        heap.objects()[addr] == heap@[addr],
{
}

/// To free objects of either type leaves the others of both types where and as they were.
pub proof fn lemma_both_keep_the_rest<A, B>(
    after: Both<A, B>,
    before: Both<A, B>,
    gone: Set<usize>,
    addr: usize,
)
    requires
        after.freed_from(&before, gone),
    ensures
        after.first().contains_key(addr) == (before.first().contains_key(addr) && !gone.contains(
            addr,
        )),
        after.first().contains_key(addr) ==> after.first()[addr] == before.first()[addr],
        after.second().contains_key(addr) == (before.second().contains_key(addr) && !gone.contains(
            addr,
        )),
        after.second().contains_key(addr) ==> after.second()[addr] == before.second()[addr],
{
}

/// The objects of a store of two types are those of the one and those of the other.
pub proof fn lemma_both_objects<A, B>(store: Both<A, B>, addr: usize)
    requires
        store.wf(),
    ensures
        store.sound(),
        store.live().contains(addr) == (store.first().contains_key(addr)
            || store.second().contains_key(addr)),
        !(store.first().contains_key(addr) && store.second().contains_key(addr)),
        store.first().contains_key(addr) ==> store.objects()[addr] == Either::<A, B>::First(
            store.first()[addr],
        ),
        store.second().contains_key(addr) ==> store.objects()[addr] == Either::<A, B>::Second(
            store.second()[addr],
        ),
{
    store.lemma_apart();
    assert(store.live().contains(addr) ==> store.objects().contains_key(addr));
}

/// What is reclaimed are the objects that were retired and that no hazard pointer guards, all of them
/// as soon as there are as many retired objects as the bulk size.
pub proof fn lemma_reclaimable(
    garbage: Set<usize>,
    words: Map<usize, usize>,
    bulk_size: nat,
    addr: usize,
    id: usize,
)
    ensures
        reclaimable(garbage, words, bulk_size).contains(addr) ==> garbage.contains(addr),
        words.contains_key(id) ==> !reclaimable(garbage, words, bulk_size).contains(words[id]),
        garbage.len() < bulk_size ==> !reclaimable(garbage, words, bulk_size).contains(addr),
        garbage.len() >= bulk_size && garbage.contains(addr) && !words.contains_value(addr)
            ==> reclaimable(garbage, words, bulk_size).contains(addr),
{
}

/// A hazard pointer that is handed out was in nobody's hands, and is new only if all the others are in
/// somebody's.
pub proof fn lemma_handed_out(words: Map<usize, usize>, id: usize, other: usize)
    requires
        may_acquire(words, id),
    ensures
        words.contains_key(id) ==> words[id] == NULL,
        words.contains_key(other) && words[other] == NULL ==> words.contains_key(id),
{
}

/// The first one available is available, and none that comes before it is.
pub proof fn lemma_first_available(ids: Seq<usize>, words: Map<usize, usize>, id: usize, i: int)
    requires
        ids.no_duplicates(),
        is_first_available(ids, words, id),
        0 <= i < ids.len(),
        words[ids[i]] == NULL,
    ensures
        ids.contains(id),
        words[id] == NULL,
        ids.index_of(id) <= i,
{
    let first = choose|k: int|
        {
            &&& 0 <= k < ids.len()
            &&& #[trigger] ids[k] == id
            &&& words[id] == NULL
            &&& forall|j: int| 0 <= j < k ==> words[#[trigger] ids[j]] != NULL
        };
    assert(ids[ids.index_of(id)] == id);
    assert(first <= i);
}

/// What is guarded stays in order, and the rest is left out.
pub proof fn lemma_guarded_in_order(retired: Seq<usize>, words: Map<usize, usize>, i: int, j: int)
    requires
        retired.no_duplicates(),
        0 <= i < j < retired.len(),
        words.contains_value(retired[i]),
        words.contains_value(retired[j]),
    ensures
        guarded(retired, words).contains(retired[i]),
        guarded(retired, words).contains(retired[j]),
        guarded(retired, words).index_of(retired[i]) < guarded(retired, words).index_of(retired[j]),
    decreases retired.len(),
{
    reveal(Seq::filter);
    let kept = guarded(retired, words);
    let rest = retired.drop_last();
    let kept_rest = guarded(rest, words);
    lemma_guarded(retired, words);
    lemma_guarded(rest, words);
    if j < retired.len() - 1 {
        lemma_guarded_in_order(rest, words, i, j);
        let a = kept_rest.index_of(retired[i]);
        let b = kept_rest.index_of(retired[j]);
        assert(kept[a] == retired[i] && kept[b] == retired[j]);
    } else {
        lemma_guarded_member(rest, words, i);
        let a = kept_rest.index_of(retired[i]);
        assert(kept == kept_rest.push(retired[j]));
        assert(kept[a] == retired[i]);
        assert(kept[kept.len() - 1] == retired[j]);
    }
}

/// What is guarded is among what is left.
proof fn lemma_guarded_member(retired: Seq<usize>, words: Map<usize, usize>, i: int)
    requires
        retired.no_duplicates(),
        0 <= i < retired.len(),
        words.contains_value(retired[i]),
    ensures
        guarded(retired, words).contains(retired[i]),
{
    lemma_guarded(retired, words);
    assert(retired.to_set().contains(retired[i]));
    assert(guarded(retired, words).to_set().contains(retired[i]));
}

/// What is left are the retired objects that are guarded, and no others.
pub proof fn lemma_guarded_are_left(retired: Seq<usize>, words: Map<usize, usize>, addr: usize)
    requires
        retired.no_duplicates(),
    ensures
        guarded(retired, words).contains(addr) == (retired.contains(addr) && words.contains_value(
            addr,
        )),
        guarded(retired, words).no_duplicates(),
{
    lemma_guarded(retired, words);
    assert(guarded(retired, words).to_set().contains(addr) == (retired.to_set().contains(addr)
        && words.contains_value(addr)));
}

/// The other way round, what came before comes after.
proof fn lemma_other_way_round(seq: Seq<usize>, first: usize, second: usize)
    requires
        seq.no_duplicates(),
        seq.contains(first),
        seq.contains(second),
        seq.index_of(first) < seq.index_of(second),
    ensures
        seq.reverse().contains(first),
        seq.reverse().contains(second),
        seq.reverse().index_of(second) < seq.reverse().index_of(first),
{
    let rev = seq.reverse();
    let i = seq.index_of(first);
    let j = seq.index_of(second);
    assert(rev[seq.len() - 1 - i] == first);
    assert(rev[seq.len() - 1 - j] == second);
}

/// The same members the other way round.
proof fn lemma_same_members(seq: Seq<usize>, member: usize)
    ensures
        seq.reverse().contains(member) == seq.contains(member),
{
    let rev = seq.reverse();
    if seq.contains(member) {
        assert(rev[seq.len() - 1 - seq.index_of(member)] == member);
    }
    if rev.contains(member) {
        assert(seq[seq.len() - 1 - rev.index_of(member)] == member);
    }
}

/// What is loaded is what the hazard pointers hold, each in its place.
pub proof fn lemma_loaded_in_order(ids: Seq<usize>, words: Map<usize, usize>, i: int)
    requires
        0 <= i < ids.len(),
    ensures
        loaded(ids, words).len() == ids.len(),
        loaded(ids, words)[i] == words[ids[i]],
{
}

/// The addresses of retired objects come in the order of the objects.
pub proof fn lemma_addrs_in_order(retired_ptrs: Seq<RetiredPtr>, i: int)
    ensures
        addrs_of(retired_ptrs).len() == retired_ptrs.len(),
        0 <= i < retired_ptrs.len() ==> addrs_of(retired_ptrs)[i] == retired_ptrs[i]@,
{
}

/// The words are what the hazard pointers hold, each under its id.
pub proof fn lemma_words_by_id(ids: Seq<usize>, hzrd_ptrs: Seq<HzrdPtr>, i: int)
    requires
        ids.no_duplicates(),
        0 <= i < ids.len(),
    ensures
        words_of(ids, hzrd_ptrs).contains_key(ids[i]),
        words_of(ids, hzrd_ptrs)[ids[i]] == hzrd_ptrs[i]@,
        words_of(ids, hzrd_ptrs).dom() == ids.to_set(),
{
    assert(ids.contains(ids[i]));
    assert(ids[ids.index_of(ids[i])] == ids[i]);
    assert(words_of(ids, hzrd_ptrs).dom() =~= ids.to_set());
}

/// A config that was settled holds as it is. If none was, any garbage is enough for a reclamation, and
/// no buffer is kept.
pub proof fn lemma_options(config: Config)
    ensures
        options_of(Some(config)) == config,
        options_of(None).bulk() == 1,
        !options_of(None).is_caching(),
{
    Config::lemma_standard();
}

/// A domain behind a pointer is the domain: it has the same hazard pointers, the same garbage and the
/// same config, and turns into what the domain turns into.
pub proof fn lemma_boxed<D: Domain>(boxed: Box<D>, before: Box<D>, id: usize, addr: usize)
    ensures
        boxed.wf() == (*boxed).wf(),
        boxed.words() == (*boxed).words(),
        boxed.garbage() == (*boxed).garbage(),
        boxed.bulk_size() == (*boxed).bulk_size(),
        boxed.settled() == (*boxed).settled(),
        boxed.follows(&before) == (*boxed).follows(&*before),
        boxed.keeps(&before) == (*boxed).keeps(&*before),
        boxed.acquired_from(&before, id) == (*boxed).acquired_from(&*before, id),
        boxed.retired_from(&before, addr) == (*boxed).retired_from(&*before, addr),
        boxed.reclaimed_from(&before) == (*boxed).reclaimed_from(&*before),
{
}

/// Nobody has configured a domain, or gone by its config, unless its config is settled: the config can
/// be set for as long as it is not, and what is set holds.
pub proof fn lemma_configurable(
    shared: SharedDomain,
    global: GlobalDomain,
    local: LocalDomain,
    ptrs: Ptrs,
)
    ensures
        shared.settled() == shared.config(),
        shared.bulk_size() == shared.options().bulk(),
        shared.config() matches Some(config) ==> shared.options() == config,
        global.settled() == global.shared().config(),
        global.bulk_size() == global.shared().options().bulk(),
        local.settled() == local.config(),
        local.bulk_size() == local.options().bulk(),
        local.config() matches Some(config) ==> local.options() == config,
        ptrs.settled() is Some,
        ptrs.bulk_size() == 0,
        !options_of(ptrs.settled()).is_caching(),
{
    shared.lemma_config();
    global.lemma_config();
    local.lemma_config();
    Config::lemma_fixed();
}

/// What there is to the global domain is what there is to the shared domain behind it, whatever
/// happens to it.
pub proof fn lemma_global_is_shared(
    domain: GlobalDomain,
    before: GlobalDomain,
    id: usize,
    addr: usize,
)
    ensures
        domain.wf() == domain.shared().wf(),
        domain.words() == domain.shared().words(),
        domain.garbage() == domain.shared().garbage(),
        domain.bulk_size() == domain.shared().bulk_size(),
        domain.settled() == domain.shared().settled(),
        domain.follows(&before) == domain.shared().follows(&before.shared()),
        domain.keeps(&before) == domain.shared().keeps(&before.shared()),
        domain.acquired_from(&before, id) == domain.shared().acquired_from(&before.shared(), id),
        domain.retired_from(&before, addr) == domain.shared().retired_from(&before.shared(), addr),
        domain.reclaimed_from(&before) == domain.shared().reclaimed_from(&before.shared()),
{
    domain.lemma_shared();
    domain.lemma_follows_shared(&before);
}

/// The hazard pointer that a shared domain hands out is the first one that is available. If none is, it is a
/// new one, which comes before all the others.
pub proof fn lemma_shared_hands_out(after: SharedDomain, before: SharedDomain, id: usize, i: int)
    requires
        before.wf(),
        after.acquired_from(&before, id),
    ensures
        0 <= i < before.ids().len() && before.words()[before.ids()[i]] == NULL ==> {
            &&& before.ids().contains(id)
            &&& before.words()[id] == NULL
            &&& before.ids().index_of(id) <= i
        },
        before.words().contains_value(NULL) ==> after.ids() == before.ids(),
        !before.words().contains_value(NULL) ==> {
            &&& after.ids().len() == before.ids().len() + 1
            &&& after.ids()[0] == id
            &&& 0 <= i < before.ids().len() ==> after.ids()[i + 1] == before.ids()[i]
        },
        after.retired() == before.retired(),
        after.buffer() == before.buffer(),
{
    before.lemma_ids();
    if 0 <= i < before.ids().len() && before.words()[before.ids()[i]] == NULL {
        assert(before.ids().to_set().contains(before.ids()[i]));
        assert(before.words().contains_key(before.ids()[i]));
        lemma_first_available(before.ids(), before.words(), id, i);
    }
}

/// What is retired to a shared domain comes first, and everything else stays in order.
pub proof fn lemma_shared_retires(after: SharedDomain, before: SharedDomain, addr: usize, i: int)
    requires
        after.retired_from(&before, addr),
    ensures
        after.retired().len() == before.retired().len() + 1,
        after.retired()[0] == addr,
        0 <= i < before.retired().len() ==> after.retired()[i + 1] == before.retired()[i],
        after.ids() == before.ids(),
        after.buffer() == before.buffer(),
{
}

/// What stays in its place in a shared domain is where it was.
pub proof fn lemma_shared_stays(after: SharedDomain, before: SharedDomain)
    requires
        after.keeps(&before),
    ensures
        after.ids() == before.ids(),
        after.retired() == before.retired(),
        after.buffer() == before.buffer(),
{
}

/// Whoever goes through the hazard pointers of a shared domain still finds those that were there, in the same
/// order, after those that are new.
pub proof fn lemma_shared_goes_on(after: SharedDomain, before: SharedDomain, i: int)
    requires
        after.follows(&before),
    ensures
        after.ids().len() >= before.ids().len(),
        0 <= i < before.ids().len() ==> after.ids()[after.ids().len() - before.ids().len() + i]
            == before.ids()[i],
{
}

/// A reclamation leaves a shared domain with the retired objects that are guarded, each once, and in
/// the opposite order. The hazard pointers stay where they are.
/// Below the bulk size nothing changes. The buffer is what was loaded, if it is kept.
pub proof fn lemma_shared_reclaims(after: SharedDomain, before: SharedDomain, first: usize, second: usize)
    requires
        before.wf(),
        after.reclaimed_from(&before),
    ensures
        after.ids() == before.ids(),
        before.retired().len() < before.bulk_size() ==> {
            &&& after.retired() == before.retired()
            &&& after.buffer() == before.buffer()
        },
        before.retired().len() >= before.bulk_size() ==> {
            &&& after.retired().no_duplicates()
            &&& after.retired().contains(first) == (before.retired().contains(first)
                && before.words().contains_value(first))
            &&& after.buffer() == if before.options().is_caching() {
                loaded(before.ids(), before.words())
            } else {
                before.buffer()
            }
        },
        before.retired().len() >= before.bulk_size() && after.retired().contains(first)
            && after.retired().contains(second) && before.retired().index_of(first)
            < before.retired().index_of(second) ==> after.retired().index_of(second)
            < after.retired().index_of(first),
{
    before.lemma_ids();
    before.retired().unique_seq_to_set();
    let kept = guarded(before.retired(), before.words());
    lemma_guarded_are_left(before.retired(), before.words(), first);
    lemma_guarded_are_left(before.retired(), before.words(), second);
    if before.retired().len() >= before.bulk_size() {
        lemma_same_members(kept, first);
        lemma_same_members(kept, second);
        assert(kept.reverse().no_duplicates());
        if after.retired().contains(first) && after.retired().contains(second)
            && before.retired().index_of(first) < before.retired().index_of(second) {
            lemma_guarded_in_order(
                before.retired(),
                before.words(),
                before.retired().index_of(first),
                before.retired().index_of(second),
            );
            lemma_other_way_round(kept, first, second);
        }
    }
}

/// To retire an object to a shared domain and to reclaim memory then leaves the retired objects that are
/// guarded, the new one among them if it is, or all of them below the bulk size.
pub proof fn lemma_shared_is_cleared(after: SharedDomain, before: SharedDomain, addr: usize, other: usize)
    requires
        before.wf(),
        cleared_from(&after, &before, addr),
    ensures
        after.ids() == before.ids(),
        ({
            let garbage = before.garbage().insert(addr);
            after.retired().contains(other) == (garbage.contains(other) && (garbage.len()
                < before.bulk_size() || before.words().contains_value(other)))
        }),
{
    before.lemma_ids();
    let between = choose|between: SharedDomain|
        {
            &&& #[trigger] between.retired_from(&before, addr)
            &&& between.wf()
            &&& between.words() == before.words()
            &&& between.garbage() == before.garbage().insert(addr)
            &&& between.bulk_size() == before.bulk_size()
            &&& between.settled() == before.settled()
            &&& after.reclaimed_from(&between)
        };
    between.lemma_ids();
    between.retired().unique_seq_to_set();
    lemma_shared_reclaims(after, between, other, other);
    assert(between.garbage().contains(other) == between.retired().contains(other));
}

/// The hazard pointer that a local domain hands out is the first one that is available. If none is, it is a
/// new one, which comes after all the others.
pub proof fn lemma_local_hands_out(after: LocalDomain, before: LocalDomain, id: usize, i: int)
    requires
        before.wf(),
        after.acquired_from(&before, id),
    ensures
        0 <= i < before.ids().len() && before.words()[before.ids()[i]] == NULL ==> {
            &&& before.ids().contains(id)
            &&& before.words()[id] == NULL
            &&& before.ids().index_of(id) <= i
        },
        before.words().contains_value(NULL) ==> after.ids() == before.ids(),
        !before.words().contains_value(NULL) ==> {
            &&& after.ids().len() == before.ids().len() + 1
            &&& after.ids().last() == id
            &&& 0 <= i < before.ids().len() ==> after.ids()[i] == before.ids()[i]
        },
        after.retired() == before.retired(),
        after.buffer() == before.buffer(),
{
    before.lemma_ids();
    if 0 <= i < before.ids().len() && before.words()[before.ids()[i]] == NULL {
        assert(before.ids().to_set().contains(before.ids()[i]));
        assert(before.words().contains_key(before.ids()[i]));
        lemma_first_available(before.ids(), before.words(), id, i);
    }
}

/// What is retired to a local domain comes last, and everything else stays in order.
pub proof fn lemma_local_retires(after: LocalDomain, before: LocalDomain, addr: usize, i: int)
    requires
        after.retired_from(&before, addr),
    ensures
        after.retired().len() == before.retired().len() + 1,
        after.retired().last() == addr,
        0 <= i < before.retired().len() ==> after.retired()[i] == before.retired()[i],
        after.ids() == before.ids(),
        after.buffer() == before.buffer(),
{
}

/// What stays in its place in a local domain is where it was.
pub proof fn lemma_local_stays(after: LocalDomain, before: LocalDomain)
    requires
        after.keeps(&before),
    ensures
        after.ids() == before.ids(),
        after.retired() == before.retired(),
        after.buffer() == before.buffer(),
{
}

/// Whoever goes through the hazard pointers of a local domain still finds those that were there, in the same
/// order, before those that are new.
pub proof fn lemma_local_goes_on(after: LocalDomain, before: LocalDomain, i: int)
    requires
        after.follows(&before),
    ensures
        after.ids().len() >= before.ids().len(),
        0 <= i < before.ids().len() ==> after.ids()[i]
            == before.ids()[i],
{
}

/// A reclamation leaves a local domain with the retired objects that are guarded, each once, and in
/// the same order. The hazard pointers stay where they are.
/// Below the bulk size nothing changes. The buffer is what was loaded, if it is kept.
pub proof fn lemma_local_reclaims(after: LocalDomain, before: LocalDomain, first: usize, second: usize)
    requires
        before.wf(),
        after.reclaimed_from(&before),
    ensures
        after.ids() == before.ids(),
        before.retired().len() < before.bulk_size() ==> {
            &&& after.retired() == before.retired()
            &&& after.buffer() == before.buffer()
        },
        before.retired().len() >= before.bulk_size() ==> {
            &&& after.retired().no_duplicates()
            &&& after.retired().contains(first) == (before.retired().contains(first)
                && before.words().contains_value(first))
            &&& after.buffer() == if before.options().is_caching() {
                loaded(before.ids(), before.words())
            } else {
                before.buffer()
            }
        },
        before.retired().len() >= before.bulk_size() && after.retired().contains(first)
            && after.retired().contains(second) && before.retired().index_of(first)
            < before.retired().index_of(second) ==> after.retired().index_of(first)
            < after.retired().index_of(second),
{
    before.lemma_ids();
    before.retired().unique_seq_to_set();
    lemma_guarded_are_left(before.retired(), before.words(), first);
    lemma_guarded_are_left(before.retired(), before.words(), second);
    if before.retired().len() >= before.bulk_size() {
        if after.retired().contains(first) && after.retired().contains(second)
            && before.retired().index_of(first) < before.retired().index_of(second) {
            lemma_guarded_in_order(
                before.retired(),
                before.words(),
                before.retired().index_of(first),
                before.retired().index_of(second),
            );
        }
    }
}

/// To retire an object to a local domain and to reclaim memory then leaves the retired objects that are
/// guarded, the new one among them if it is, or all of them below the bulk size.
pub proof fn lemma_local_is_cleared(after: LocalDomain, before: LocalDomain, addr: usize, other: usize)
    requires
        before.wf(),
        cleared_from(&after, &before, addr),
    ensures
        after.ids() == before.ids(),
        ({
            let garbage = before.garbage().insert(addr);
            after.retired().contains(other) == (garbage.contains(other) && (garbage.len()
                < before.bulk_size() || before.words().contains_value(other)))
        }),
{
    before.lemma_ids();
    let between = choose|between: LocalDomain|
        {
            &&& #[trigger] between.retired_from(&before, addr)
            &&& between.wf()
            &&& between.words() == before.words()
            &&& between.garbage() == before.garbage().insert(addr)
            &&& between.bulk_size() == before.bulk_size()
            &&& between.settled() == before.settled()
            &&& after.reclaimed_from(&between)
        };
    between.lemma_ids();
    between.retired().unique_seq_to_set();
    lemma_local_reclaims(after, between, other, other);
    assert(between.garbage().contains(other) == between.retired().contains(other));
}

/// The hazard pointer that a value hands out is the first one that is available. If none is, it is a
/// new one, which comes after all the others.
pub proof fn lemma_ptrs_hands_out(after: Ptrs, before: Ptrs, id: usize, i: int)
    requires
        before.wf(),
        after.acquired_from(&before, id),
    ensures
        0 <= i < before.ids().len() && before.words()[before.ids()[i]] == NULL ==> {
            &&& before.ids().contains(id)
            &&& before.words()[id] == NULL
            &&& before.ids().index_of(id) <= i
        },
        before.words().contains_value(NULL) ==> after.ids() == before.ids(),
        !before.words().contains_value(NULL) ==> {
            &&& after.ids().len() == before.ids().len() + 1
            &&& after.ids().last() == id
            &&& 0 <= i < before.ids().len() ==> after.ids()[i] == before.ids()[i]
        },
        after.retired() == before.retired(),
{
    before.lemma_ids();
    if 0 <= i < before.ids().len() && before.words()[before.ids()[i]] == NULL {
        assert(before.ids().to_set().contains(before.ids()[i]));
        assert(before.words().contains_key(before.ids()[i]));
        lemma_first_available(before.ids(), before.words(), id, i);
    }
}

/// What is retired to a value comes last, and everything else stays in order.
pub proof fn lemma_ptrs_retires(after: Ptrs, before: Ptrs, addr: usize, i: int)
    requires
        after.retired_from(&before, addr),
    ensures
        after.retired().len() == before.retired().len() + 1,
        after.retired().last() == addr,
        0 <= i < before.retired().len() ==> after.retired()[i] == before.retired()[i],
        after.ids() == before.ids(),
{
}

/// What stays in its place in a value is where it was.
pub proof fn lemma_ptrs_stays(after: Ptrs, before: Ptrs)
    requires
        after.keeps(&before),
    ensures
        after.ids() == before.ids(),
        after.retired() == before.retired(),
{
}

/// Whoever goes through the hazard pointers of a value still finds those that were there, in the same
/// order, before those that are new.
pub proof fn lemma_ptrs_goes_on(after: Ptrs, before: Ptrs, i: int)
    requires
        after.follows(&before),
    ensures
        after.ids().len() >= before.ids().len(),
        0 <= i < before.ids().len() ==> after.ids()[i]
            == before.ids()[i],
{
}

/// A reclamation leaves a value with the retired objects that are guarded, each once, and in
/// the same order. The hazard pointers stay where they are.
pub proof fn lemma_ptrs_reclaims(after: Ptrs, before: Ptrs, first: usize, second: usize)
    requires
        before.wf(),
        after.reclaimed_from(&before),
    ensures
        after.ids() == before.ids(),
        after.retired().no_duplicates(),
        after.retired().contains(first) == (before.retired().contains(first)
            && before.words().contains_value(first)),
        after.retired().contains(first) && after.retired().contains(second)
            && before.retired().index_of(first) < before.retired().index_of(second) ==> after.retired().index_of(first)
            < after.retired().index_of(second),
{
    before.lemma_ids();
    before.retired().unique_seq_to_set();
    lemma_guarded_are_left(before.retired(), before.words(), first);
    lemma_guarded_are_left(before.retired(), before.words(), second);
    if after.retired().contains(first) && after.retired().contains(second)
        && before.retired().index_of(first) < before.retired().index_of(second) {
        lemma_guarded_in_order(
            before.retired(),
            before.words(),
            before.retired().index_of(first),
            before.retired().index_of(second),
        );
    }
}

/// To retire an object to a value and to reclaim memory then leaves the retired objects that are
/// guarded, the new one among them if it is, or all of them below the bulk size.
pub proof fn lemma_ptrs_is_cleared(after: Ptrs, before: Ptrs, addr: usize, other: usize)
    requires
        before.wf(),
        cleared_from(&after, &before, addr),
    ensures
        after.ids() == before.ids(),
        ({
            let garbage = before.garbage().insert(addr);
            after.retired().contains(other) == (garbage.contains(other) && (garbage.len()
                < before.bulk_size() || before.words().contains_value(other)))
        }),
{
    before.lemma_ids();
    let between = choose|between: Ptrs|
        {
            &&& #[trigger] between.retired_from(&before, addr)
            &&& between.wf()
            &&& between.words() == before.words()
            &&& between.garbage() == before.garbage().insert(addr)
            &&& between.bulk_size() == before.bulk_size()
            &&& between.settled() == before.settled()
            &&& after.reclaimed_from(&between)
        };
    between.lemma_ids();
    between.retired().unique_seq_to_set();
    lemma_ptrs_reclaims(after, between, other, other);
    assert(between.garbage().contains(other) == between.retired().contains(other));
}

/// A new value is there, and is the only thing that changes.
pub proof fn lemma_allocated<T>(state: State<T>, ptr: usize, value: T, other: usize)
    ensures
        state.allocated(ptr, value).values.contains_key(ptr),
        state.allocated(ptr, value).values[ptr] == value,
        other != ptr ==> state.allocated(ptr, value).values.contains_key(other)
            == state.values.contains_key(other),
        other != ptr && state.values.contains_key(other) ==> state.allocated(ptr, value).values[other]
            == state.values[other],
        state.allocated(ptr, value).cells == state.cells,
        state.allocated(ptr, value).words == state.words,
        state.allocated(ptr, value).garbage == state.garbage,
        state.allocated(ptr, value).config == state.config,
{
}

/// A cell that is written holds the address, and is the only thing that changes.
pub proof fn lemma_written<T>(state: State<T>, cell: usize, ptr: usize, other: usize)
    ensures
        state.written(cell, ptr).cells.contains_key(cell),
        state.written(cell, ptr).cells[cell] == ptr,
        other != cell ==> state.written(cell, ptr).cells.contains_key(other)
            == state.cells.contains_key(other),
        other != cell && state.cells.contains_key(other) ==> state.written(cell, ptr).cells[other]
            == state.cells[other],
        state.written(cell, ptr).values == state.values,
        state.written(cell, ptr).words == state.words,
        state.written(cell, ptr).garbage == state.garbage,
        state.written(cell, ptr).config == state.config,
{
}

/// A hazard pointer that something is stored in holds it, and is the only thing that changes: what the
/// others guard, they still guard.
pub proof fn lemma_held<T>(state: State<T>, id: usize, ptr: usize, other: usize)
    ensures
        state.held(id, ptr).words.contains_key(id),
        state.held(id, ptr).words[id] == ptr,
        other != id ==> state.held(id, ptr).words.contains_key(other) == state.words.contains_key(
            other,
        ),
        other != id && state.words.contains_key(other) ==> state.held(id, ptr).words[other]
            == state.words[other],
        state.held(id, ptr).values == state.values,
        state.held(id, ptr).cells == state.cells,
        state.held(id, ptr).garbage == state.garbage,
        state.held(id, ptr).config == state.config,
{
}

/// A value that is retired is garbage, and nothing else changes: above all, it is still there.
pub proof fn lemma_retired<T>(state: State<T>, ptr: usize, other: usize)
    ensures
        state.retired(ptr).garbage.contains(ptr),
        other != ptr ==> state.retired(ptr).garbage.contains(other) == state.garbage.contains(other),
        state.retired(ptr).values == state.values,
        state.retired(ptr).cells == state.cells,
        state.retired(ptr).words == state.words,
        state.retired(ptr).config == state.config,
{
}

/// To replace the value of a cell makes the old value garbage, keeps all values, and leaves the other
/// cells, the other garbage, the hazard pointers and the config alone.
pub proof fn lemma_replaced<T>(state: State<T>, cell: usize, ptr: usize, value: T, other: usize)
    requires
        !state.values.contains_key(ptr),
    ensures
        state.replaced(cell, ptr, value).cells[cell] == ptr,
        state.replaced(cell, ptr, value).values[ptr] == value,
        state.replaced(cell, ptr, value).garbage.contains(state.cells[cell]),
        other != cell && state.cells.contains_key(other) ==> state.replaced(
            cell,
            ptr,
            value,
        ).cells[other] == state.cells[other],
        other != cell ==> state.replaced(cell, ptr, value).cells.contains_key(other)
            == state.cells.contains_key(other),
        state.values.contains_key(other) ==> state.replaced(cell, ptr, value).values.contains_key(
            other,
        ) && state.replaced(cell, ptr, value).values[other] == state.values[other],
        other != ptr && !state.values.contains_key(other) ==> !state.replaced(
            cell,
            ptr,
            value,
        ).values.contains_key(other),
        other != state.cells[cell] ==> state.replaced(cell, ptr, value).garbage.contains(other)
            == state.garbage.contains(other),
        state.replaced(cell, ptr, value).words == state.words,
        state.replaced(cell, ptr, value).config == state.config,
{
}

/// A reclamation frees what is garbage and not guarded, if there is as much garbage as the bulk size,
/// and nothing else. What it frees is neither a value nor garbage any more. It changes no value, no
/// cell and no hazard pointer.
pub proof fn lemma_reclaimed<T>(state: State<T>, ptr: usize)
    requires
        state.inv(),
    ensures
        ({
            let gone = state.garbage.contains(ptr) && !state.words.contains_value(ptr)
                && state.garbage.len() >= state.options().bulk();
            &&& state.reclaimable().contains(ptr) == gone
            &&& state.reclaimed().values.contains_key(ptr) == (state.values.contains_key(ptr)
                && !gone)
            &&& state.reclaimed().garbage.contains(ptr) == (state.garbage.contains(ptr) && !gone)
        }),
        state.reclaimed().values.contains_key(ptr) ==> state.reclaimed().values[ptr]
            == state.values[ptr],
        state.reclaimed().cells == state.cells,
        state.reclaimed().words == state.words,
        state.reclaimed().config == Some(state.options()),
{
}

/// To go by the config settles it, and changes nothing else.
pub proof fn lemma_gone_by<T>(state: State<T>, global: Config)
    ensures
        state.bulk_size() == state.options().bulk(),
        state.config matches Some(config) ==> state.options() == config,
        state.config is None ==> state.bulk_size() == 1 && !state.options().is_caching(),
        state.settled().options() == state.options(),
        state.settled().config is Some,
        state.settled().values == state.values,
        state.settled().cells == state.cells,
        state.settled().words == state.words,
        state.settled().garbage == state.garbage,
        state.config is None ==> state.went_by(Some(global)).config == Some(global),
        state.config is None ==> state.went_by(None).bulk_size() == 1,
        state.config is Some ==> state.went_by(Some(global)).config == state.config,
        state.went_by(Some(global)).values == state.values,
        state.went_by(Some(global)).cells == state.cells,
        state.went_by(Some(global)).words == state.words,
        state.went_by(Some(global)).garbage == state.garbage,
        state.went_by(None).values == state.values,
        state.went_by(None).cells == state.cells,
        state.went_by(None).words == state.words,
        state.went_by(None).garbage == state.garbage,
{
    Config::lemma_standard();
}

/// A cell leads to the value at the address that it holds.
pub proof fn lemma_value_of<T>(state: State<T>, cell: usize, ptr: usize)
    requires
        state.cells.contains_key(cell),
        state.cells[cell] == ptr,
    ensures
        state.value_of(cell) == state.values[ptr],
{
}

/// A hazard pointer guards a value if the value is there and the hazard pointer holds its address, and
/// a value is private if it is there, no cell holds it and it was not retired.
pub proof fn lemma_guards<T>(state: State<T>, id: usize, ptr: usize)
    ensures
        state.guards(id, ptr) <==> state.words.contains_key(id) && state.words[id] == ptr
            && state.values.contains_key(ptr),
        state.private(ptr) <==> state.values.contains_key(ptr) && !state.garbage.contains(ptr)
            && !state.cells.contains_value(ptr),
{
}

/// What happens to the domain of a region is what the operation does to a domain.
pub proof fn lemma_region_is_governed<T, D: Domain>(
    after: Region<T, D>,
    before: Region<T, D>,
    id: usize,
    ptr: usize,
)
    ensures
        after.follows(&before) == after.governor().follows(&before.governor()),
        after.keeps(&before) == after.governor().keeps(&before.governor()),
        after.acquired_from(&before, id) == after.governor().acquired_from(&before.governor(), id),
        after.retired_from(&before, ptr) == after.governor().retired_from(&before.governor(), ptr),
        after.reclaimed_from(&before) == after.governor().reclaimed_from(&before.governor()),
        after.cleared_from(&before, ptr) ==> exists|between: D|
            #[trigger] between.retired_from(&before.governor(), ptr)
                && after.governor().reclaimed_from(&between) && between.words()
                == before.governor().words() && between.garbage()
                == before.governor().garbage().insert(ptr) && between.settled()
                == before.governor().settled(),
{
}

/// A cell can be used in every region that it is a cell of, a reader in every one that its cell and its
/// hazard pointer are of, and a handle for as long as its hazard pointer guards the value.
pub proof fn lemma_usable<T, D: Domain>(
    cell: HzrdCell<T, D>,
    reader: HzrdReader<T, D>,
    handle: ReadHandle<T>,
    state: State<T>,
)
    ensures
        cell.belongs(state) <==> state.cells.contains_key(cell.location()),
        reader.ready(state) <==> state.cells.contains_key(reader.location())
            && state.words.contains_key(reader.id()),
        handle.live(state) <==> state.words.contains_key(handle.id()) && state.words[handle.id()]
            == handle.ptr() && state.values.contains_key(handle.ptr()),
{
}

/// A kind of what comes first holds what comes first, if the kind within holds that, and nothing that
/// comes second; it gives what the kind within gives.
pub proof fn lemma_in_first<A, B, K: Kind<A>>(first: A, second: B, value: K::T)
    ensures
        <InFirst<K> as Kind<Either<A, B>>>::holds(Either::First(first)) == K::holds(first),
        !<InFirst<K> as Kind<Either<A, B>>>::holds(Either::Second(second)),
        <InFirst<K> as Kind<Either<A, B>>>::inner(Either::First(first)) == K::inner(first),
        <InFirst<K> as Kind<Either<A, B>>>::wrapped(value) == Either::<A, B>::First(
            K::wrapped(value),
        ),
{
}

/// A kind of what comes second holds what comes second, if the kind within holds that, and nothing that
/// comes first; it gives what the kind within gives.
pub proof fn lemma_in_second<A, B, K: Kind<B>>(first: A, second: B, value: K::T)
    ensures
        <InSecond<K> as Kind<Either<A, B>>>::holds(Either::Second(second)) == K::holds(second),
        !<InSecond<K> as Kind<Either<A, B>>>::holds(Either::First(first)),
        <InSecond<K> as Kind<Either<A, B>>>::inner(Either::Second(second)) == K::inner(second),
        <InSecond<K> as Kind<Either<A, B>>>::wrapped(value) == Either::<A, B>::Second(
            K::wrapped(value),
        ),
{
}

/// The whole is of its own kind, and is what it is.
pub proof fn lemma_whole<V>(value: V)
    ensures
        <Whole as Kind<V>>::holds(value),
        <Whole as Kind<V>>::inner(value) == value,
        <Whole as Kind<V>>::wrapped(value) == value,
{
}

/// The value of a cell of some kind is what the cell leads to, and so is that of a handle.
pub proof fn lemma_kind_usable<V, D: Domain, K: Kind<V>>(
    cell: KindCell<V, D, K>,
    handle: KindHandle<V, K>,
    state: State<V>,
)
    ensures
        cell.belongs(state) <==> state.cells.contains_key(cell.location()) && K::holds(
            state.values[state.cells[cell.location()]],
        ),
        cell.belongs(state) ==> K::wrapped(cell.value(state)) == state.value_of(cell.location()),
        handle.live(state) <==> state.words.contains_key(handle.id()) && state.words[handle.id()]
            == handle.ptr() && state.values.contains_key(handle.ptr()) && K::holds(
            state.values[handle.ptr()],
        ),
{
    K::lemma_wrapped(cell.value(state), state.value_of(cell.location()));
}

/// A change to one value on a heap leaves all the others, and all that they lead to, as they were.
pub proof fn lemma_changed_at<T>(
    before: Map<usize, HzrdValue<T>>,
    after: Map<usize, HzrdValue<T>>,
    addr: usize,
    other: usize,
)
    requires
        changed_at(before, after, addr),
    ensures
        after.contains_key(addr),
        after[addr].wf(),
        after[addr].location() == before[addr].location(),
        other != addr ==> after.contains_key(other) == before.contains_key(other),
        other != addr && before.contains_key(other) ==> after[other] == before[other],
{
}

/// Clones share a value that is there, each with a hazard pointer of it that is in use, and the value is
/// the one that it leads to.
pub proof fn lemma_shares<T>(cell: cell::HzrdCell<T>, heap: Map<usize, HzrdValue<T>>)
    ensures
        cell.shares(heap) <==> heap.contains_key(cell.addr()) && heap[cell.addr()].wf()
            && heap[cell.addr()].state().words.contains_key(cell.id())
            && heap[cell.addr()].state().words[cell.id()] != NULL,
        cell.shares(heap) ==> {
            let state = heap[cell.addr()].state();
            let ptr = state.cells[heap[cell.addr()].location()];
            state.values.contains_key(ptr) && cell.value(heap) == state.values[ptr]
        },
{
    if cell.shares(heap) {
        heap[cell.addr()].lemma_state();
    }
}

/// A value is the one that its cell leads to.
pub proof fn lemma_value<T>(value: HzrdValue<T>)
    requires
        value.wf(),
    ensures
        value.state().cells.contains_key(value.location()),
        value.state().values.contains_key(value.state().cells[value.location()]),
        value.value() == value.state().values[value.state().cells[value.location()]],
{
    value.lemma_state();
}

/// A writer leads to the value that the cell of its region holds, and a reader belongs to the writer
/// that has its hazard pointer.
pub proof fn lemma_reads<T>(reader: pair::HzrdReader<T>, writer: pair::HzrdWriter<T>)
    ensures
        reader.reads(&writer) <==> writer.state().words.contains_key(reader.id()),
        writer.value() == writer.state().values[writer.state().cells[writer.location()]],
{
}

/// All hazard pointers are available if and only if nobody has one.
pub proof fn lemma_all_available(words: Map<usize, usize>)
    ensures
        all_available(words) <==> !exists|id: usize| #[trigger]
            words.contains_key(id) && words[id] != NULL,
{
    assert forall|id: usize| all_available(words) && #[trigger] words.contains_key(
        id,
    ) implies words[id] == NULL by {}
}

/// To add a value at either end of a list puts it there, and leaves the values and the nodes that were
/// in the list, in their order.
pub proof fn lemma_pushed_to_list<T>(
    after: LinkedList<T>,
    before: LinkedList<T>,
    value: T,
    i: int,
)
    requires
        before.wf(),
    ensures
        after.pushed_front_from(&before, value) ==> {
            &&& after@.len() == before@.len() + 1
            &&& after@[0] == value
            &&& 0 <= i < before@.len() ==> after@[i + 1] == before@[i] && after.addrs()[i + 1]
                == before.addrs()[i]
        },
        after.pushed_back_from(&before, value) ==> {
            &&& after@.len() == before@.len() + 1
            &&& after@.last() == value
            &&& 0 <= i < before@.len() ==> after@[i] == before@[i] && after.addrs()[i]
                == before.addrs()[i]
        },
{
    before.lemma_addrs();
    if after.pushed_front_from(&before, value) && 0 <= i < before@.len() {
        assert(after.addrs().drop_first()[i] == after.addrs()[i + 1]);
    }
    if after.pushed_back_from(&before, value) && 0 <= i < before@.len() {
        assert(after.addrs().drop_last()[i] == after.addrs()[i]);
    }
}

/// To take a value from either end of a list gives the one that is there, and leaves the others, in
/// their order. There is none to take only if the list is empty.
pub proof fn lemma_popped_from_list<T>(
    after: LinkedList<T>,
    before: LinkedList<T>,
    popped: Option<T>,
    i: int,
)
    requires
        before.wf(),
    ensures
        after.popped_front_from(&before, popped) || after.popped_back_from(&before, popped) ==> {
            &&& popped is Some <==> before@.len() > 0
            &&& popped is None ==> after == before
            &&& popped is Some ==> after@.len() == before@.len() - 1
        },
        after.popped_front_from(&before, popped) && popped is Some ==> {
            &&& popped->0 == before@[0]
            &&& 0 <= i < after@.len() ==> after@[i] == before@[i + 1] && after.addrs()[i]
                == before.addrs()[i + 1]
        },
        after.popped_back_from(&before, popped) && popped is Some ==> {
            &&& popped->0 == before@.last()
            &&& 0 <= i < after@.len() ==> after@[i] == before@[i] && after.addrs()[i]
                == before.addrs()[i]
        },
{
    before.lemma_addrs();
}

/// What is on a stack stays there, in its order, below what is new.
pub proof fn lemma_grown<T>(after: SharedStack<T>, before: SharedStack<T>, i: int)
    requires
        after.wf(),
        before.wf(),
        after.grown_from(&before),
    ensures
        after@.len() >= before@.len(),
        0 <= i < before@.len() ==> after@[after@.len() - before@.len() + i] == before@[i],
{
    after.lemma_addrs();
    before.lemma_addrs();
    let new = after.addrs().len() - before.addrs().len();
    assert(after@.skip(new).len() == before@.len());
    if 0 <= i < before@.len() {
        assert(after@.skip(new)[i] == after@[new + i]);
    }
}

/// The first step of a push changes nothing that is on the stack. It makes a node of its own for the
/// value, and has seen what was on top.
pub proof fn lemma_push_begun<T>(
    after: SharedStack<T>,
    before: SharedStack<T>,
    val: T,
    push: Push,
    other: Push,
)
    requires
        after.begun_from(&before, val, push),
    ensures
        after@ == before@,
        after.addrs() == before.addrs(),
        after.counted() == before.counted(),
        after.pending(push),
        after.pending_val(push) == val,
        push.seen() == before.top(),
        before.pending(other) ==> {
            &&& other.node() != push.node()
            &&& after.pending(other)
            &&& after.pending_val(other) == before.pending_val(other)
        },
{
}

/// The second step of a push puts its value on top, and its node with it, if and only if what it has
/// seen on top still is. Otherwise nothing changes, and the push has seen what is on top now. Other
/// pushes are not affected.
pub proof fn lemma_push_tried<T>(
    after: SharedStack<T>,
    before: SharedStack<T>,
    push: Push,
    pushed: Result<usize, Push>,
    other: Push,
    i: int,
)
    requires
        after.tried_from(&before, push, pushed),
    ensures
        pushed is Ok <==> push.seen() == before.top(),
        after.counted() == before.counted(),
        pushed matches Ok(addr) ==> {
            &&& addr == push.node()
            &&& after@.len() == before@.len() + 1
            &&& after@[0] == before.pending_val(push)
            &&& after.addrs()[0] == addr
            &&& 0 <= i < before@.len() ==> after@[i + 1] == before@[i]
            &&& 0 <= i < before.addrs().len() ==> after.addrs()[i + 1] == before.addrs()[i]
        },
        pushed matches Err(again) ==> {
            &&& after@ == before@
            &&& after.addrs() == before.addrs()
            &&& again.node() == push.node()
            &&& again.seen() == before.top()
            &&& after.pending(again)
            &&& after.pending_val(again) == before.pending_val(push)
        },
        before.pending(other) && other.node() != push.node() ==> {
            &&& after.pending(other)
            &&& after.pending_val(other) == before.pending_val(other)
        },
{
}

/// The last step of a push counts it, and changes nothing else.
pub proof fn lemma_push_finished<T>(after: SharedStack<T>, before: SharedStack<T>, other: Push)
    requires
        after.finished_from(&before),
    ensures
        after@ == before@,
        after.addrs() == before.addrs(),
        after.counted() == before.counted().wrapping_add(1),
        before.pending(other) ==> {
            &&& after.pending(other)
            &&& after.pending_val(other) == before.pending_val(other)
        },
{
}

/// A visit to a stack gives the topmost of the values that are still to come, and leaves the others.
pub proof fn lemma_advanced<T>(
    after: Cursor,
    before: Cursor,
    stack: SharedStack<T>,
    item: Option<&T>,
)
    requires
        after.advanced(&before, &stack, item),
    ensures
        item is Some <==> before.remaining(&stack).len() > 0,
        item matches Some(val) ==> {
            &&& *val == before.remaining(&stack)[0]
            &&& after.remaining(&stack) == before.remaining(&stack).drop_first()
        },
        item is None ==> after == before,
{
}

/// A step is the step of one task: the others are where they were.
pub proof fn lemma_others_wait<T>(world: World<T>, step: Step<T>, next: World<T>, other: nat)
    requires
        world.steps_to(step, next),
        other != step.task(),
    ensures
        next.tasks.contains_key(other) == world.tasks.contains_key(other),
        world.tasks.contains_key(other) ==> next.tasks[other] == world.tasks[other],
{
}

/// Each step changes one thing: the values, the cells, the hazard pointers, the garbage, or whether the
/// config is settled. Which options hold never changes.
pub proof fn lemma_one_access<T>(world: World<T>, step: Step<T>, next: World<T>)
    requires
        world.steps_to(step, next),
    ensures
        step is Allocate || step is Free || step is Sweep || next.state.values
            == world.state.values,
        step is Publish || step is Swap || step is RemoveCell || next.state.cells
            == world.state.cells,
        step is Acquire || step is Protect || step is Done || step is Release || next.state.words
            == world.state.words,
        step is Retire || step is Take || step is PutBack || next.state.garbage
            == world.state.garbage,
        step is Weigh || step is BeginScan || next.state.config == world.state.config,
        next.state.options() == world.state.options(),
{
}

/// The steps of a reader: it gets a hazard pointer that nobody has, loads what the cell holds, stores
/// that in its hazard pointer, and goes on to read if the cell still holds it, or else starts over with
/// what the cell holds now. When it is done, it guards nothing any more.
pub proof fn lemma_reader_steps<T>(world: World<T>, step: Step<T>, next: World<T>, other: usize)
    requires
        world.steps_to(step, next),
    ensures
        match step {
            Step::Acquire { task, id } => {
                &&& world.state.words.contains_key(id) ==> world.state.words[id] == NULL
                &&& next.state.words.contains_key(id) && next.state.words[id] == DUMMY
                &&& next.tasks.contains_key(task) && next.tasks[task] == (Task::Owner { id })
                &&& other != id && world.state.words.contains_key(other)
                    ==> next.state.words[other] == world.state.words[other]
            },
            Step::Load { task, cell } => {
                &&& world.tasks[task] is Owner
                &&& next.tasks.contains_key(task) && next.tasks[task] == (Task::Loaded {
                    cell,
                    id: world.tasks[task]->Owner_id,
                    ptr: world.state.cells[cell],
                })
            },
            Step::Protect { task } => {
                &&& world.tasks[task] is Loaded
                &&& next.tasks.contains_key(task) && next.tasks[task] == (Task::Protected {
                    cell: world.tasks[task]->Loaded_cell,
                    id: world.tasks[task]->Loaded_id,
                    ptr: world.tasks[task]->Loaded_ptr,
                })
                &&& next.state.words[world.tasks[task]->Loaded_id]
                    == world.tasks[task]->Loaded_ptr
                &&& other != world.tasks[task]->Loaded_id && world.state.words.contains_key(other)
                    ==> next.state.words[other] == world.state.words[other]
            },
            Step::Validate { task, action } => {
                let cell = world.tasks[task]->Protected_cell;
                let id = world.tasks[task]->Protected_id;
                let ptr = world.tasks[task]->Protected_ptr;
                &&& world.tasks[task] is Protected
                &&& next.tasks.contains_key(task)
                &&& world.state.cells[cell] == ptr ==> next.tasks[task] == (Task::Reading {
                    id,
                    ptr,
                    action,
                })
                &&& world.state.cells[cell] != ptr ==> next.tasks[task] == (Task::Loaded {
                    cell,
                    id,
                    ptr: world.state.cells[cell],
                })
            },
            Step::Done { task } => {
                let id = world.tasks[task]->Reading_id;
                &&& world.tasks[task] is Reading
                &&& world.tasks[task]->Reading_action is Reset ==> next.state.words[id] == DUMMY
                    && next.tasks.contains_key(task) && next.tasks[task] == (Task::Owner { id })
                &&& world.tasks[task]->Reading_action is Release ==> next.state.words[id] == NULL
                    && !next.tasks.contains_key(task)
                &&& other != id && world.state.words.contains_key(other)
                    ==> next.state.words[other] == world.state.words[other]
            },
            Step::Release { task } => {
                let id = world.tasks[task]->Owner_id;
                &&& world.tasks[task] is Owner
                &&& next.state.words[id] == NULL
                &&& !next.tasks.contains_key(task)
                &&& other != id && world.state.words.contains_key(other)
                    ==> next.state.words[other] == world.state.words[other]
            },
            _ => true,
        },
{
}

/// The steps of a writer: it has a new value for itself, makes a cell hold it, and has what the cell
/// held for itself, until it is garbage or freed. Other values and cells are left alone.
pub proof fn lemma_writer_steps<T>(world: World<T>, step: Step<T>, next: World<T>, other: usize)
    requires
        world.steps_to(step, next),
    ensures
        match step {
            Step::Allocate { task, ptr, value } => {
                &&& !world.state.values.contains_key(ptr)
                &&& next.state.values.contains_key(ptr) && next.state.values[ptr] == value
                &&& next.tasks.contains_key(task) && next.tasks[task] == (Task::Private { ptr })
                &&& other != ptr ==> next.state.values.contains_key(other)
                    == world.state.values.contains_key(other)
                &&& world.state.values.contains_key(other) ==> next.state.values[other]
                    == world.state.values[other]
            },
            Step::Publish { task, cell } => {
                &&& !world.state.cells.contains_key(cell)
                &&& next.state.cells.contains_key(cell) && next.state.cells[cell]
                    == world.tasks[task]->Private_ptr
                &&& !next.tasks.contains_key(task)
                &&& other != cell ==> next.state.cells.contains_key(other)
                    == world.state.cells.contains_key(other)
                &&& world.state.cells.contains_key(other) ==> next.state.cells[other]
                    == world.state.cells[other]
            },
            Step::Swap { task, cell } => {
                &&& next.state.cells.contains_key(cell) && next.state.cells[cell]
                    == world.tasks[task]->Private_ptr
                &&& next.tasks.contains_key(task) && next.tasks[task] == (Task::Private {
                    ptr: world.state.cells[cell],
                })
                &&& other != cell ==> next.state.cells.contains_key(other)
                    == world.state.cells.contains_key(other)
                &&& other != cell && world.state.cells.contains_key(other)
                    ==> next.state.cells[other] == world.state.cells[other]
            },
            Step::Retire { task } => {
                &&& next.state.garbage.contains(world.tasks[task]->Private_ptr)
                &&& !next.tasks.contains_key(task)
                &&& other != world.tasks[task]->Private_ptr ==> next.state.garbage.contains(other)
                    == world.state.garbage.contains(other)
            },
            Step::RemoveCell { task, cell } => {
                &&& !next.state.cells.contains_key(cell)
                &&& next.tasks.contains_key(task) && next.tasks[task] == (Task::Private {
                    ptr: world.state.cells[cell],
                })
                &&& other != cell ==> next.state.cells.contains_key(other)
                    == world.state.cells.contains_key(other)
                &&& other != cell && world.state.cells.contains_key(other)
                    ==> next.state.cells[other] == world.state.cells[other]
            },
            Step::Free { task } => {
                let ptr = world.tasks[task]->Private_ptr;
                &&& !world.state.words.contains_value(ptr)
                &&& !next.state.values.contains_key(ptr)
                &&& !next.tasks.contains_key(task)
                &&& other != ptr ==> next.state.values.contains_key(other)
                    == world.state.values.contains_key(other)
                &&& other != ptr && world.state.values.contains_key(other)
                    ==> next.state.values[other] == world.state.values[other]
            },
            _ => true,
        },
{
}

/// The steps of a reclamation: it takes all the garbage, and puts all of it back if that is less than
/// the bulk size. Otherwise it looks at every hazard pointer, frees of what it took only what none of
/// them held, and puts the rest back.
pub proof fn lemma_reclaimer_steps<T>(world: World<T>, step: Step<T>, next: World<T>, other: usize)
    requires
        world.steps_to(step, next),
    ensures
        match step {
            Step::Take { task } => {
                &&& next.tasks.contains_key(task) && next.tasks[task] is Taken
                &&& next.tasks[task]->Taken_taken.contains(other) == world.state.garbage.contains(
                    other,
                )
                &&& !next.state.garbage.contains(other)
            },
            Step::Weigh { task } => {
                &&& next.tasks.contains_key(task) && next.tasks[task] == world.tasks[task]
                &&& next.state.config == Some(world.state.options())
            },
            Step::BeginScan { task } => {
                &&& world.tasks[task]->Taken_taken.len() >= world.state.options().bulk()
                &&& next.state.config == Some(world.state.options())
                &&& next.tasks.contains_key(task) && next.tasks[task] is Reclaiming
                &&& next.tasks[task]->Reclaiming_taken == world.tasks[task]->Taken_taken
                &&& next.tasks[task]->Reclaiming_todo.contains(other)
                    == world.state.words.contains_key(other)
                &&& !next.tasks[task]->Reclaiming_seen.contains(other)
            },
            Step::Scan { task, id } => {
                let before = world.tasks[task];
                let after = next.tasks[task];
                &&& before->Reclaiming_todo.contains(id)
                &&& next.tasks.contains_key(task) && after is Reclaiming
                &&& after->Reclaiming_taken == before->Reclaiming_taken
                &&& after->Reclaiming_todo.contains(other) == (before->Reclaiming_todo.contains(
                    other,
                ) && other != id)
                &&& after->Reclaiming_seen.contains(other) == (before->Reclaiming_seen.contains(
                    other,
                ) || other == world.state.words[id])
            },
            Step::Sweep { task, ptr } => {
                let before = world.tasks[task];
                let after = next.tasks[task];
                &&& !before->Reclaiming_todo.contains(other)
                &&& before->Reclaiming_taken.contains(ptr)
                &&& !before->Reclaiming_seen.contains(ptr)
                &&& !next.state.values.contains_key(ptr)
                &&& next.tasks.contains_key(task) && after is Reclaiming
                &&& after->Reclaiming_seen == before->Reclaiming_seen
                &&& after->Reclaiming_taken.contains(other) == (before->Reclaiming_taken.contains(
                    other,
                ) && other != ptr)
                &&& other != ptr ==> next.state.values.contains_key(other)
                    == world.state.values.contains_key(other)
                &&& other != ptr && world.state.values.contains_key(other)
                    ==> next.state.values[other] == world.state.values[other]
            },
            Step::PutBack { task } => {
                &&& !next.tasks.contains_key(task)
                &&& world.tasks[task] is Taken || world.tasks[task] is Reclaiming
                &&& world.tasks[task] is Taken ==> world.tasks[task]->Taken_taken.len()
                    < world.state.options().bulk()
                &&& next.state.garbage.contains(other) == (world.state.garbage.contains(other)
                    || world.tasks[task].owns(other))
            },
            _ => true,
        },
{
}

/// What one party does leaves the others where they were: what they have yet to try and to go through.
pub proof fn lemma_schedule_keeps_others<T>(
    after: Schedule<T>,
    before: Schedule<T>,
    task: usize,
    other: usize,
)
    requires
        after.keeps_others(&before, task),
        other != task,
    ensures
        before.searches(other) ==> after.searches(other) && after.untried(other) == before.untried(
            other,
        ),
        before.has(other) ==> after.left(other) == before.left(other),
        before.has(other) == before.world().tasks.contains_key(other as nat),
        before.task(other) == before.world().tasks[other as nat],
{
}

} // verus!
