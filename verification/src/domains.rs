//! The domains of this crate.
//!
//! - [`GlobalDomain`]: a domain for everybody
//! - [`SharedDomain`]: a domain shared by those that are given access to it
//! - [`LocalDomain`]: a domain for a single owner

use vstd::prelude::*;

use crate::hazard::{
    guarded, is_first_available, lemma_guarded, may_acquire, reclaimable,
    Domain, HzrdPtr, RetiredPtr,
};
use crate::heap::{Store, DUMMY, NULL};
use crate::ptr;
use crate::stack::{Cursor, IntoIter, SharedStack};

verus! {

/// Config options for the domains of this module.
#[derive(Debug, Clone, Copy, PartialEq, Eq, Hash, Structural)]
pub struct Config {
    caching: bool,
    bulk_size: usize,
}

impl Config {
    /// Whether the buffer for loaded hazard pointers is kept between reclamations.
    pub closed spec fn is_caching(&self) -> bool {
        self.caching
    }

    /// How much garbage there has to be for a reclamation to take place.
    pub closed spec fn bulk(&self) -> usize {
        self.bulk_size
    }

    /// The options that hold if no others were set.
    pub closed spec fn standard() -> Config {
        Config { caching: false, bulk_size: 1 }
    }

    /// What the standard options are.
    pub proof fn lemma_standard()
        ensures
            !Config::standard().is_caching(),
            Config::standard().bulk() == 1,
    {
    }

    /// The options of those that cannot be told otherwise: any garbage is enough, and nothing is kept.
    pub closed spec fn fixed() -> Config {
        Config { caching: false, bulk_size: 0 }
    }

    /// What the fixed options are.
    pub proof fn lemma_fixed()
        ensures
            !Config::fixed().is_caching(),
            Config::fixed().bulk() == 0,
    {
    }

    /// There is nothing more to a config than these two options.
    pub proof fn lemma_same(&self, other: &Self)
        requires
            self.is_caching() == other.is_caching(),
            self.bulk() == other.bulk(),
        ensures
            *self == *other,
    {
    }

    /// Enable or disable caching (default: `false`).
    pub fn caching(self, caching: bool) -> (config: Self)
        ensures
            config.is_caching() == caching,
            config.bulk() == self.bulk(),
    {
        Config { caching, ..self }
    }

    /// Set the bulk size (default: `1`).
    ///
    /// The bulk size is the smallest number of retired objects that will cause memory reclamation
    /// to occur: a call to `reclaim` does nothing unless there are at least so many.
    pub fn bulk_size(self, bulk_size: usize) -> (config: Self)
        ensures
            config.is_caching() == self.is_caching(),
            config.bulk() == bulk_size,
    {
        Config { bulk_size, ..self }
    }
}

impl Default for Config {
    fn default() -> (config: Self)
        ensures
            config == Config::standard(),
            !config.is_caching(),
            config.bulk() == 1,
    {
        Config { caching: false, bulk_size: 1 }
    }
}

/// A config that can be set once, and only before anybody has gone by it.
///
/// Whoever goes by a config that has not been set settles it at the default. A program has one of
/// these for all its domains, which go by it through
/// [`Region::go_by`](crate::region::Region::go_by).
pub struct GlobalConfig {
    config: Option<Config>,
}

impl View for GlobalConfig {
    type V = Option<Config>;

    /// The config, if it is settled.
    closed spec fn view(&self) -> Option<Config> {
        self.config
    }
}

/// The options that hold, given what was settled.
pub open spec fn options_of(settled: Option<Config>) -> Config {
    match settled {
        Some(config) => config,
        None => Config::standard(),
    }
}

impl GlobalConfig {
    /// A config that nobody has set or gone by yet.
    pub fn new() -> (global: Self)
        ensures
            global@ is None,
    {
        GlobalConfig { config: None }
    }

    /// Set the config. If it is settled already, it stays as it is, and the given one comes back.
    pub fn set(&mut self, config: Config) -> (set: Result<(), Config>)
        ensures
            match old(self)@ {
                None => set == Ok::<(), Config>(()) && final(self)@ == Some(config),
                Some(_) => set == Err::<(), Config>(config) && final(self)@ == old(self)@,
            },
    {
        match self.config {
            None => {
                self.config = Some(config);
                Ok(())
            },
            Some(_) => Err(config),
        }
    }

    /// The config, if it is settled.
    pub fn get(&self) -> (config: Option<Config>)
        ensures
            config == self@,
    {
        self.config
    }

    /// The config to go by: what was set, or else the default, which it is settled at from then on.
    pub fn get_or_init(&mut self) -> (config: Config)
        ensures
            config == options_of(old(self)@),
            final(self)@ == Some(config),
    {
        match self.config {
            Some(config) => config,
            None => {
                let config = Config::default();
                self.config = Some(config);
                config
            },
        }
    }
}

impl Default for GlobalConfig {
    fn default() -> (global: Self)
        ensures
            global@ is None,
    {
        GlobalConfig::new()
    }
}

/// Holds a loaded set of hazard pointers.
pub struct HzrdPtrs {
    list: Vec<usize>,
    caching: bool,
}

impl View for HzrdPtrs {
    type V = Seq<usize>;

    /// The addresses that were loaded.
    closed spec fn view(&self) -> Seq<usize> {
        self.list@
    }
}

impl HzrdPtrs {
    /// Whether the buffer came out of a cache.
    pub closed spec fn is_cached(&self) -> bool {
        self.caching
    }

    /// Prepare for loading hazard pointers, with the buffer of the cache if caching is enabled.
    pub fn load(config: &Config, cache: &mut Vec<usize>) -> (hzrd_ptrs: Self)
        ensures
            hzrd_ptrs@ == Seq::<usize>::empty(),
            hzrd_ptrs.is_cached() == config.is_caching(),
            final(cache)@ == if config.is_caching() { Seq::<usize>::empty() } else { old(cache)@ },
    {
        match config.caching {
            false => HzrdPtrs::new(),
            true => HzrdPtrs::cached(cache),
        }
    }

    /// No hazard pointers, in a buffer of their own.
    pub fn new() -> (hzrd_ptrs: Self)
        ensures
            hzrd_ptrs@ == Seq::<usize>::empty(),
            !hzrd_ptrs.is_cached(),
    {
        HzrdPtrs { list: Vec::new(), caching: false }
    }

    /// No hazard pointers, in the buffer of the cache.
    pub fn cached(cache: &mut Vec<usize>) -> (hzrd_ptrs: Self)
        ensures
            hzrd_ptrs@ == Seq::<usize>::empty(),
            hzrd_ptrs.is_cached(),
            final(cache)@ == Seq::<usize>::empty(),
    {
        let mut list: Vec<usize> = Vec::new();
        std::mem::swap(&mut list, cache);
        list.clear();
        HzrdPtrs { list, caching: true }
    }

    /// Load one more hazard pointer.
    pub fn add(&mut self, hzrd_ptr: &HzrdPtr)
        ensures
            final(self)@ == old(self)@.push(hzrd_ptr@),
            final(self).is_cached() == old(self).is_cached(),
    {
        self.list.push(hzrd_ptr.get());
    }

    /// Whether one of the loaded hazard pointers held the given address.
    pub fn contains(&self, addr: usize) -> (found: bool)
        ensures
            found == self@.contains(addr),
    {
        let mut i: usize = 0;
        while i < self.list.len()
            invariant
                i <= self.list@.len(),
                forall|j: int| 0 <= j < i ==> self.list@[j] != addr,
            decreases self.list@.len() - i,
        {
            if self.list[i] == addr {
                return true;
            }
            i += 1;
        }
        false
    }

    /// Return the buffer to the cache, if it came from there.
    pub fn drop(self, cache: &mut Vec<usize>)
        ensures
            final(cache)@ == if self.is_cached() { self@ } else { old(cache)@ },
    {
        if self.caching {
            *cache = self.list;
        }
    }
}

/// The addresses of retired objects.
pub open spec fn addrs_of(retired_ptrs: Seq<RetiredPtr>) -> Seq<usize> {
    Seq::new(retired_ptrs.len(), |i: int| retired_ptrs[i]@)
}

/// What each of a sequence of hazard pointers holds, by id.
pub open spec fn words_of(ids: Seq<usize>, hzrd_ptrs: Seq<HzrdPtr>) -> Map<usize, usize> {
    Map::new(|id: usize| ids.contains(id), |id: usize| hzrd_ptrs[ids.index_of(id)]@)
}

/// What is loaded of hazard pointers, in the order in which they are looked at.
pub open spec fn loaded(ids: Seq<usize>, words: Map<usize, usize>) -> Seq<usize> {
    ids.map_values(|id: usize| words[id])
}

/// What is loaded are the words.
pub proof fn lemma_loaded(ids: Seq<usize>, words: Map<usize, usize>)
    requires
        words.dom() == ids.to_set(),
    ensures
        forall|addr: usize|
            loaded(ids, words).contains(addr) <==> words.contains_value(addr),
{
    assert forall|addr: usize| loaded(ids, words).contains(addr) <==> words.contains_value(
        addr,
    ) by {
        if loaded(ids, words).contains(addr) {
            let i = loaded(ids, words).index_of(addr);
            assert(ids.to_set().contains(ids[i]));
            assert(words.contains_key(ids[i]) && words[ids[i]] == addr);
        }
        if words.contains_value(addr) {
            let id = choose|id: usize| #[trigger] words.contains_key(id) && words[id] == addr;
            assert(ids.to_set().contains(id));
            assert(loaded(ids, words)[ids.index_of(id)] == addr);
        }
    }
}

/// What is known of the word at position `i`.
proof fn lemma_word(ids: Seq<usize>, hzrd_ptrs: Seq<HzrdPtr>, i: int)
    requires
        ids.no_duplicates(),
        ids.len() == hzrd_ptrs.len(),
        0 <= i < ids.len(),
    ensures
        ids.contains(ids[i]),
        ids.index_of(ids[i]) == i,
        words_of(ids, hzrd_ptrs).contains_key(ids[i]),
        words_of(ids, hzrd_ptrs)[ids[i]] == hzrd_ptrs[i]@,
{
    assert(ids.contains(ids[i]));
    assert(ids[ids.index_of(ids[i])] == ids[i]);
}

/// Writing to the hazard pointer at position `i` changes that word alone.
proof fn lemma_word_written(ids: Seq<usize>, hzrd_ptrs: Seq<HzrdPtr>, i: int, hzrd_ptr: HzrdPtr)
    requires
        ids.no_duplicates(),
        ids.len() == hzrd_ptrs.len(),
        0 <= i < ids.len(),
    ensures
        words_of(ids, hzrd_ptrs.update(i, hzrd_ptr)) == words_of(ids, hzrd_ptrs).insert(
            ids[i],
            hzrd_ptr@,
        ),
{
    let before = words_of(ids, hzrd_ptrs);
    let after = words_of(ids, hzrd_ptrs.update(i, hzrd_ptr));
    lemma_word(ids, hzrd_ptrs, i);
    assert forall|id: usize| after.contains_key(id) implies after[id] == before.insert(
        ids[i],
        hzrd_ptr@,
    )[id] by {
        let j = ids.index_of(id);
        assert(ids[j] == id);
        lemma_word(ids, hzrd_ptrs, j);
        lemma_word(ids, hzrd_ptrs.update(i, hzrd_ptr), j);
    }
    assert(after =~= before.insert(ids[i], hzrd_ptr@));
}

/// A new hazard pointer in front of the others adds a word.
proof fn lemma_word_added(ids: Seq<usize>, hzrd_ptrs: Seq<HzrdPtr>, id: usize, hzrd_ptr: HzrdPtr)
    requires
        ids.len() == hzrd_ptrs.len(),
        (seq![id] + ids).no_duplicates(),
    ensures
        !words_of(ids, hzrd_ptrs).contains_key(id),
        words_of(seq![id] + ids, seq![hzrd_ptr] + hzrd_ptrs) == words_of(ids, hzrd_ptrs).insert(
            id,
            hzrd_ptr@,
        ),
{
    let new_ids = seq![id] + ids;
    let new_ptrs = seq![hzrd_ptr] + hzrd_ptrs;
    let before = words_of(ids, hzrd_ptrs);
    let after = words_of(new_ids, new_ptrs);
    assert(ids.no_duplicates()) by {
        assert forall|i: int, j: int|
            0 <= i < ids.len() && 0 <= j < ids.len() && i != j implies ids[i] != ids[j] by {
            assert(new_ids[i + 1] == ids[i]);
            assert(new_ids[j + 1] == ids[j]);
        }
    }
    assert(!ids.contains(id)) by {
        if ids.contains(id) {
            let i = ids.index_of(id);
            assert(new_ids[i + 1] == id);
            assert(new_ids[0] == id);
        }
    }
    lemma_word(new_ids, new_ptrs, 0);
    assert forall|other: usize| #[trigger] after.contains_key(other) implies after[other]
        == before.insert(id, hzrd_ptr@)[other] && (other == id || before.contains_key(other)) by {
        let i = new_ids.index_of(other);
        assert(new_ids[i] == other);
        lemma_word(new_ids, new_ptrs, i);
        if i > 0 {
            assert(ids[i - 1] == other);
            lemma_word(ids, hzrd_ptrs, i - 1);
        }
    }
    assert forall|other: usize| #[trigger] before.contains_key(other) implies after.contains_key(
        other,
    ) by {
        let i = ids.index_of(other);
        assert(new_ids[i + 1] == other);
    }
    assert(after =~= before.insert(id, hzrd_ptr@));
}

/// A domain shared by those that are given access to it.
pub struct SharedDomain {
    hzrd_ptrs: SharedStack<HzrdPtr>,
    retired_ptrs: SharedStack<RetiredPtr>,
    config: GlobalConfig,
    cache: Vec<usize>,
}

impl Default for SharedDomain {
    fn default() -> (domain: Self)
        ensures
            domain.wf(),
            domain.ids() == Seq::<usize>::empty(),
            domain.words() == Map::<usize, usize>::empty(),
            domain.retired() == Seq::<usize>::empty(),
            domain.garbage() == Set::<usize>::empty(),
            domain.buffer() == Seq::<usize>::empty(),
            domain.config() is None,
            domain.settled() is None,
            domain.bulk_size() == 1,
    {
        SharedDomain::new()
    }
}

impl SharedDomain {
    /// The ids of the hazard pointers, in the order in which they are looked at.
    pub closed spec fn ids(&self) -> Seq<usize> {
        self.hzrd_ptrs.addrs()
    }

    /// The addresses of the retired objects, the latest first.
    pub closed spec fn retired(&self) -> Seq<usize> {
        addrs_of(self.retired_ptrs@)
    }

    /// The config of the domain, if it is settled.
    pub closed spec fn config(&self) -> Option<Config> {
        self.config@
    }

    /// The options that the domain goes by.
    pub open spec fn options(&self) -> Config {
        options_of(self.config())
    }

    /// What is in the buffer that the domain keeps for loading hazard pointers.
    pub closed spec fn buffer(&self) -> Seq<usize> {
        self.cache@
    }

    /// The ids are distinct, and they are the keys of the words. The retired addresses are distinct, and
    /// they are the garbage.
    pub proof fn lemma_ids(&self)
        requires
            self.wf(),
        ensures
            self.ids().no_duplicates(),
            self.words().dom() == self.ids().to_set(),
            self.retired().no_duplicates(),
            self.garbage() == self.retired().to_set(),
    {
        self.hzrd_ptrs.lemma_addrs();
        assert(self.words().dom() =~= self.ids().to_set());
    }

    /// Construct a new, clean shared domain.
    ///
    /// The config can be set until the domain first goes by it. Unless it is, the default holds.
    pub fn new() -> (domain: Self)
        ensures
            domain.wf(),
            domain.ids() == Seq::<usize>::empty(),
            domain.words() == Map::<usize, usize>::empty(),
            domain.retired() == Seq::<usize>::empty(),
            domain.garbage() == Set::<usize>::empty(),
            domain.buffer() == Seq::<usize>::empty(),
            domain.config() is None,
            domain.settled() is None,
            domain.options() == Config::standard(),
            !domain.options().is_caching(),
            domain.bulk_size() == 1,
    {
        let domain = SharedDomain {
            hzrd_ptrs: SharedStack::new(),
            retired_ptrs: SharedStack::new(),
            config: GlobalConfig::new(),
            cache: Vec::new(),
        };
        proof {
            assert(domain.words() =~= Map::<usize, usize>::empty());
            assert(domain.retired() =~= Seq::<usize>::empty());
            assert(domain.garbage() =~= Set::<usize>::empty());
        }
        domain
    }

    /// Construct a new, clean shared domain with the given options.
    pub fn with_config(config: Config) -> (domain: Self)
        ensures
            domain.wf(),
            domain.ids() == Seq::<usize>::empty(),
            domain.words() == Map::<usize, usize>::empty(),
            domain.retired() == Seq::<usize>::empty(),
            domain.garbage() == Set::<usize>::empty(),
            domain.buffer() == Seq::<usize>::empty(),
            domain.config() == Some(config),
            domain.settled() == Some(config),
            domain.bulk_size() == config.bulk(),
    {
        let mut domain = SharedDomain::new();
        let _ = domain.set_config(config);
        domain
    }

    /// Whether so many retired objects are enough for a reclamation. To ask settles the config.
    pub fn is_enough(&mut self, number: usize) -> (enough: bool)
        requires
            old(self).wf(),
        ensures
            final(self).wf(),
            enough == (number >= old(self).bulk_size()),
            final(self).config() == Some(old(self).options()),
            final(self).bulk_size() == old(self).bulk_size(),
            final(self).ids() == old(self).ids(),
            final(self).words() == old(self).words(),
            final(self).retired() == old(self).retired(),
            final(self).garbage() == old(self).garbage(),
            final(self).buffer() == old(self).buffer(),
            final(self).follows(old(self)),
    {
        number >= self.config.get_or_init().bulk_size
    }

    /// The number of hazard pointers of the domain.
    pub fn number_of_hzrd_ptrs(&self) -> (number: usize)
        requires
            self.wf(),
        ensures
            number == self.words().len(),
    {
        proof {
            self.lemma_finite();
            self.hzrd_ptrs.lemma_addrs();
            self.ids().unique_seq_to_set();
            assert(self.words().dom() =~= self.ids().to_set());
        }
        self.hzrd_ptrs.iter().count()
    }

    /// The number of retired objects that were not freed yet.
    pub fn number_of_retired_ptrs(&self) -> (number: usize)
        requires
            self.wf(),
        ensures
            number == self.garbage().len(),
    {
        proof {
            self.retired().unique_seq_to_set();
        }
        self.retired_ptrs.iter().count()
    }
}

impl Domain for SharedDomain {
    closed spec fn wf(&self) -> bool {
        &&& self.hzrd_ptrs.wf()
        &&& self.retired_ptrs.wf()
        &&& self.retired().no_duplicates()
    }

    closed spec fn words(&self) -> Map<usize, usize> {
        words_of(self.hzrd_ptrs.addrs(), self.hzrd_ptrs@)
    }

    closed spec fn garbage(&self) -> Set<usize> {
        self.retired().to_set()
    }

    closed spec fn bulk_size(&self) -> nat {
        self.options().bulk() as nat
    }

    open spec fn settled(&self) -> Option<Config> {
        self.config()
    }

    proof fn lemma_config(&self) {
    }

    /// The hazard pointers that are new come first.
    open spec fn follows(&self, before: &Self) -> bool {
        let new = self.ids().len() - before.ids().len();
        &&& new >= 0
        &&& forall|i: int|
            0 <= i < before.ids().len() ==> self.ids()[new + i] == #[trigger] before.ids()[i]
    }

    proof fn lemma_follows(&self, between: &Self, before: &Self) {
    }

    open spec fn keeps(&self, before: &Self) -> bool {
        &&& self.ids() == before.ids()
        &&& self.retired() == before.retired()
        &&& self.buffer() == before.buffer()
    }

    open spec fn acquired_from(&self, before: &Self, id: usize) -> bool {
        &&& before.words().contains_value(NULL) ==> is_first_available(
            before.ids(),
            before.words(),
            id,
        )
        &&& self.ids() == if before.words().contains_value(NULL) {
            before.ids()
        } else {
            seq![id] + before.ids()
        }
        &&& self.retired() == before.retired()
        &&& self.buffer() == before.buffer()
    }

    open spec fn retired_from(&self, before: &Self, addr: usize) -> bool {
        &&& self.retired() == seq![addr] + before.retired()
        &&& self.ids() == before.ids()
        &&& self.buffer() == before.buffer()
    }

    open spec fn reclaimed_from(&self, before: &Self) -> bool {
        &&& self.retired() == if before.garbage().len() < before.bulk_size() {
            before.retired()
        } else {
            guarded(before.retired(), before.words()).reverse()
        }
        &&& self.ids() == before.ids()
        &&& self.buffer() == if before.garbage().len() < before.bulk_size()
            || !before.options().is_caching() {
            before.buffer()
        } else {
            loaded(before.ids(), before.words())
        }
    }

    proof fn lemma_keeps(&self, between: &Self, before: &Self) {
    }

    proof fn lemma_finite(&self) {
        self.hzrd_ptrs.lemma_addrs();
        assert(self.words().dom() =~= self.ids().to_set());
        self.ids().unique_seq_to_set();
        self.retired().unique_seq_to_set();
    }

    fn hzrd_ptr(&mut self) -> (id: usize) {
        let mut search = Search::begin(self);
        let ghost ids = self.ids();
        let ghost words = self.words();
        let ghost mut n: int = 0;
        proof {
            self.lemma_ids();
            assert(search.todo() =~= ids.skip(0));
        }
        loop
            invariant
                self.wf(),
                search.wf(self),
                ids == old(self).ids(),
                words == old(self).words(),
                ids.no_duplicates(),
                words.dom() == ids.to_set(),
                self.ids() == ids,
                self.words() == words,
                self.retired() == old(self).retired(),
                self.garbage() == old(self).garbage(),
                self.buffer() == old(self).buffer(),
                self.config() == old(self).config(),
                self.bulk_size() == old(self).bulk_size(),
                0 <= n <= ids.len(),
                search.todo() == ids.skip(n),
                forall|i: int| 0 <= i < n ==> words[#[trigger] ids[i]] != NULL,
            decreases ids.len() - n,
        {
            if let Some(id) = search.step(self) {
                proof {
                    if n < ids.len() {
                        assert(ids[n] == id);
                        assert(words.contains_key(id) && words[id] == NULL);
                    } else {
                        assert(!words.contains_value(NULL)) by {
                            if words.contains_value(NULL) {
                                let id = choose|id: usize| #[trigger]
                                    words.contains_key(id) && words[id] == NULL;
                                assert(ids[ids.index_of(id)] == id);
                            }
                        }
                    }
                }
                return id;
            }
            proof {
                assert(search.todo() =~= ids.skip(n + 1));
                n = n + 1;
            }
        }
    }

    fn hazard(&self, id: usize) -> (hzrd_ptr: &HzrdPtr) {
        self.hzrd_ptrs.get(id)
    }

    fn hazard_mut(&mut self, id: usize) -> (hzrd_ptr: &mut HzrdPtr) {
        let ghost n = self.ids().index_of(id);
        proof {
            self.hzrd_ptrs.lemma_addrs();
            assert(self.ids()[n] == id);
            assert forall|hzrd_ptr: HzrdPtr| #[trigger]
                words_of(self.ids(), self.hzrd_ptrs@.update(n, hzrd_ptr))
                    == self.words().insert(id, hzrd_ptr@) by {
                lemma_word_written(self.ids(), self.hzrd_ptrs@, n, hzrd_ptr);
            }
        }
        self.hzrd_ptrs.get_mut(id)
    }

    fn just_retire(&mut self, ret_ptr: RetiredPtr) {
        self.retired_ptrs.push(ret_ptr);
        proof {
            let before = old(self).retired();
            let after = self.retired();
            assert(after =~= seq![ret_ptr@] + before);
            assert forall|i: int, j: int|
                0 <= i < after.len() && 0 <= j < after.len() && i != j implies after[i]
                != after[j] by {
                if i == 0 {
                    assert(before.contains(before[j - 1]));
                } else if j == 0 {
                    assert(before.contains(before[i - 1]));
                }
            }
            assert(self.garbage() =~= old(self).garbage().insert(ret_ptr@)) by {
                assert forall|a: usize| old(self).garbage().insert(ret_ptr@).contains(
                    a,
                ) implies self.garbage().contains(a) by {
                    if before.contains(a) {
                        assert(after[before.index_of(a) + 1] == a);
                    } else {
                        assert(after[0] == a);
                    }
                }
                assert forall|a: usize| self.garbage().contains(a) implies old(
                    self,
                ).garbage().insert(ret_ptr@).contains(a) by {
                    let i = after.index_of(a);
                    if i > 0 {
                        assert(before[i - 1] == a);
                    }
                }
            }
        }
    }

    fn reclaim<S: Store>(&mut self, store: &mut S) -> (reclaimed: usize) {
        let ghost retired = self.retired();
        let ghost words = self.words();
        proof {
            retired.unique_seq_to_set();
            lemma_guarded(retired, words);
        }
        let retired_ptrs = self.take_retired();
        let prev_size = retired_ptrs.iter().count();

        // Check if it's too small to reclaim
        if !self.is_enough(prev_size) {
            self.put_back(retired_ptrs);
            proof {
                assert(self.retired() =~= retired);
                let freed = reclaimable(old(self).garbage(), words, self.bulk_size());
                assert(self.garbage() =~= old(self).garbage().difference(freed));
                store.lemma_freed(store, store, freed, freed);
            }
            return 0;
        }
        let hzrd_ptrs = self.load_hzrd_ptrs();
        let mut sweep = Sweep::new(retired_ptrs);
        let ghost mut n: int = 0;
        proof {
            reveal(Seq::filter);
            assert(guarded(retired.take(0), words).reverse() =~= Seq::<usize>::empty());
            assert(reclaimable(retired.take(0).to_set(), words, 0) =~= Set::<usize>::empty());
            store.lemma_freed(store, store, Set::empty(), Set::empty());
            assert(sweep.left() =~= retired.skip(0));
        }
        loop
            invariant
                sweep.wf(),
                store.sound(),
                retired.no_duplicates(),
                retired.to_set().subset_of(old(store).live()),
                forall|addr: usize|
                    hzrd_ptrs@.contains(addr) <==> words.contains_value(addr),
                0 <= n <= retired.len(),
                sweep.left() == retired.skip(n),
                sweep.kept() == guarded(retired.take(n), words).reverse(),
                store.freed_from(
                    old(store),
                    reclaimable(retired.take(n).to_set(), words, 0),
                ),
            ensures
                sweep.wf(),
                store.sound(),
                sweep.left().len() == 0,
                sweep.kept() == guarded(retired, words).reverse(),
                store.freed_from(old(store), reclaimable(retired.to_set(), words, 0)),
            decreases retired.len() - n,
        {
            let ghost between = *store;
            let ghost freed = reclaimable(retired.take(n).to_set(), words, 0);
            proof {
                store.lemma_freed(store, old(store), freed, freed);
                if n < retired.len() {
                    lemma_swept(retired, words, n);
                }
            }
            if !sweep.step(&hzrd_ptrs, store) {
                assert(retired.take(n) =~= retired);
                break ;
            }
            proof {
                store.lemma_freed(
                    &between,
                    old(store),
                    freed,
                    Set::empty().insert(retired[n]),
                );
                assert(sweep.left() =~= retired.skip(n + 1));
                n = n + 1;
            }
        }
        let remaining = sweep.finish();
        let new_size = remaining.iter().count();
        proof {
            lemma_reverse(guarded(retired, words));
        }
        self.put_back(remaining);
        self.unload(hzrd_ptrs);
        proof {
            let kept = guarded(retired, words);
            assert(self.retired() =~= kept.reverse());
            assert(reclaimable(old(self).garbage(), words, self.bulk_size())
                == reclaimable(retired.to_set(), words, 0));
            assert(self.garbage() =~= kept.to_set());
        }
        prev_size - new_size
    }

    fn retire<S: Store>(&mut self, ret_ptr: RetiredPtr, store: &mut S) -> (reclaimed: usize)
        ensures
            ({
                let retired = seq![ret_ptr@] + old(self).retired();
                final(self).retired() == if retired.len() < old(self).bulk_size() {
                    retired
                } else {
                    guarded(retired, old(self).words()).reverse()
                }
            }),
            final(self).ids() == old(self).ids(),
            final(self).config() == Some(old(self).options()),
            final(self).buffer() == if old(self).retired().len() + 1 < old(self).bulk_size()
                || !old(self).options().is_caching() {
                old(self).buffer()
            } else {
                loaded(old(self).ids(), old(self).words())
            },
    {
        self.just_retire(ret_ptr);
        let ghost between = *self;
        proof {
            self.retired().unique_seq_to_set();
        }
        let reclaimed = self.reclaim(store);
        assert(between.retired_from(old(self), ret_ptr@));
        reclaimed
    }

    fn set_config(&mut self, config: Config) -> (set: Result<(), Config>) {
        self.config.set(config)
    }

    fn drop<S: Store>(self, store: &mut S) {
        let ghost retired = self.retired();
        let mut retired_ptrs = self.retired_ptrs.into_iter();
        let ghost mut n: int = 0;
        proof {
            assert(retired.take(0).to_set() =~= Set::<usize>::empty());
            store.lemma_freed(store, store, Set::empty(), Set::empty());
            assert(addrs_of(retired_ptrs.remaining()) =~= retired.skip(0));
        }
        loop
            invariant
                retired_ptrs.wf(),
                store.sound(),
                retired.no_duplicates(),
                retired.to_set().subset_of(old(store).live()),
                0 <= n <= retired.len(),
                addrs_of(retired_ptrs.remaining()) == retired.skip(n),
                store.freed_from(old(store), retired.take(n).to_set()),
            ensures
                store.sound(),
                store.freed_from(old(store), retired.to_set()),
            decreases retired.len() - n,
        {
            let ghost between = *store;
            let ghost left = retired_ptrs.remaining();
            proof {
                assert(addrs_of(left).len() == left.len());
            }
            match retired_ptrs.next() {
                Some(retired_ptr) => {
                    proof {
                        assert(addrs_of(left)[0] == retired[n]);
                        lemma_freed_next(&between, old(store), retired, n);
                    }
                    retired_ptr.drop(store);
                    proof {
                        store.lemma_freed(
                            &between,
                            old(store),
                            retired.take(n).to_set(),
                            Set::empty().insert(retired[n]),
                        );
                        assert(addrs_of(retired_ptrs.remaining()) =~= addrs_of(left).drop_first());
                        assert(retired.skip(n).drop_first() =~= retired.skip(n + 1));
                        n = n + 1;
                    }
                },
                None => {
                    assert(retired.take(n) =~= retired);
                    break ;
                },
            }
        }
    }
}

/// A sequence in reverse has the same members, each once if they were distinct.
proof fn lemma_reverse(seq: Seq<usize>)
    requires
        seq.no_duplicates(),
    ensures
        seq.reverse().no_duplicates(),
        seq.reverse().to_set() == seq.to_set(),
{
    let rev = seq.reverse();
    assert forall|a: usize| rev.to_set().contains(a) <==> seq.to_set().contains(a) by {
        if rev.contains(a) {
            let i = rev.index_of(a);
            assert(seq[seq.len() - 1 - i] == a);
        }
        if seq.contains(a) {
            let i = seq.index_of(a);
            assert(rev[seq.len() - 1 - i] == a);
        }
    }
    assert(rev.to_set() =~= seq.to_set());
}

/// Looking at one more retired address either keeps it or frees it.
pub proof fn lemma_swept(retired: Seq<usize>, words: Map<usize, usize>, n: int)
    requires
        retired.no_duplicates(),
        0 <= n < retired.len(),
    ensures
        ({
            let addr = retired[n];
            let freed = reclaimable(retired.take(n).to_set(), words, 0);
            let kept = guarded(retired.take(n), words);
            let freed_next = reclaimable(retired.take(n + 1).to_set(), words, 0);
            let kept_next = guarded(retired.take(n + 1), words);
            &&& retired.to_set().contains(addr)
            &&& !freed.contains(addr)
            &&& words.contains_value(addr) ==> {
                &&& kept_next == kept.push(addr)
                &&& kept_next.reverse() == seq![addr] + kept.reverse()
                &&& freed_next == freed
            }
            &&& !words.contains_value(addr) ==> {
                &&& kept_next == kept
                &&& freed_next == freed.union(Set::empty().insert(addr))
            }
        }),
{
    reveal(Seq::filter);
    let addr = retired[n];
    let before = retired.take(n);
    let after = retired.take(n + 1);
    assert(after.drop_last() =~= before);
    assert(after.last() == addr);
    let kept = guarded(before, words);
    let kept_next = guarded(after, words);
    let freed = reclaimable(before.to_set(), words, 0);
    let freed_next = reclaimable(after.to_set(), words, 0);
    assert(retired.to_set().contains(addr));
    assert(!before.contains(addr)) by {
        if before.contains(addr) {
            assert(retired[before.index_of(addr)] == addr);
        }
    }
    assert(after.to_set() =~= before.to_set().insert(addr)) by {
        assert forall|a: usize| before.to_set().insert(addr).contains(a) implies after.to_set().contains(
            a,
        ) by {
            if before.contains(a) {
                assert(after[before.index_of(a)] == a);
            } else {
                assert(after[n] == a);
            }
        }
        assert forall|a: usize| after.to_set().contains(a) implies before.to_set().insert(
            addr,
        ).contains(a) by {
            let i = after.index_of(a);
            if i < n {
                assert(before[i] == a);
            }
        }
    }
    if words.contains_value(addr) {
        assert(freed_next =~= freed);
        assert(kept_next == kept.push(addr));
        assert(kept_next.reverse() =~= seq![addr] + kept.reverse());
    } else {
        assert(freed_next =~= freed.union(Set::empty().insert(addr)));
    }
}

/// Goes through the hazard pointers of a [`SharedDomain`], one at a time.
///
/// Hazard pointers may be acquired, written and released in between. Those that are new since the
/// walk began are not visited.
pub struct Walk {
    cursor: Cursor,
}

impl Walk {
    /// The ids of the hazard pointers that are still to be visited.
    pub closed spec fn todo(&self) -> Seq<usize> {
        self.cursor.todo()
    }

    /// The hazard pointers still to be visited are the last ones of the domain.
    pub closed spec fn wf(&self, domain: &SharedDomain) -> bool {
        self.cursor.wf(&domain.hzrd_ptrs)
    }

    /// Begin to go through the hazard pointers of a domain.
    pub fn begin(domain: &SharedDomain) -> (walk: Self)
        requires
            domain.wf(),
        ensures
            walk.wf(domain),
            walk.todo() == domain.ids(),
    {
        Walk { cursor: domain.hzrd_ptrs.cursor() }
    }

    /// A walk under way is not disturbed by a domain that got more hazard pointers.
    pub proof fn lemma_undisturbed(&self, before: &SharedDomain, after: &SharedDomain)
        requires
            self.wf(before),
            after.follows(before),
        ensures
            self.wf(after),
    {
        let new = after.ids().len() - before.ids().len();
        assert forall|i: int| 0 <= i < before.ids().len() implies after.ids().skip(new)[i]
            == before.ids()[i] by {
            assert(after.ids()[new + i] == before.ids()[i]);
        }
        assert(after.ids().skip(new) =~= before.ids());
        self.cursor.lemma_stays(&before.hzrd_ptrs, &after.hzrd_ptrs);
    }

    /// The id of the next hazard pointer, if there is one left.
    pub fn next(&mut self, domain: &SharedDomain) -> (id: Option<usize>)
        requires
            domain.wf(),
            old(self).wf(domain),
        ensures
            final(self).wf(domain),
            match id {
                Some(id) => {
                    &&& old(self).todo().len() > 0
                    &&& id == old(self).todo()[0]
                    &&& domain.words().contains_key(id)
                    &&& final(self).todo() == old(self).todo().drop_first()
                },
                None => old(self).todo().len() == 0 && *final(self) == *old(self),
            },
    {
        self.cursor.next_node(&domain.hzrd_ptrs)
    }
}

/// Looks for a hazard pointer of a [`SharedDomain`] that is available, one at a time.
pub struct Search {
    walk: Walk,
}

impl Search {
    /// The ids of the hazard pointers that are still to be tried.
    pub closed spec fn todo(&self) -> Seq<usize> {
        self.walk.todo()
    }

    /// The hazard pointers still to be tried are the last ones of the domain.
    pub closed spec fn wf(&self, domain: &SharedDomain) -> bool {
        self.walk.wf(domain)
    }

    /// Begin to look for an available hazard pointer.
    pub fn begin(domain: &SharedDomain) -> (search: Self)
        requires
            domain.wf(),
        ensures
            search.wf(domain),
            search.todo() == domain.ids(),
    {
        Search { walk: Walk::begin(domain) }
    }

    /// A search under way is not disturbed by a domain that got more hazard pointers.
    pub proof fn lemma_undisturbed(&self, before: &SharedDomain, after: &SharedDomain)
        requires
            self.wf(before),
            after.follows(before),
        ensures
            self.wf(after),
    {
        self.walk.lemma_undisturbed(before, after);
    }

    /// Try to acquire the next hazard pointer, or a new one if there is none left. Nothing is acquired
    /// if the next one is not available.
    pub fn step(&mut self, domain: &mut SharedDomain) -> (acquired: Option<usize>)
        requires
            old(domain).wf(),
            old(self).wf(old(domain)),
        ensures
            final(domain).wf(),
            final(self).wf(final(domain)),
            match acquired {
                Some(id) => {
                    &&& if old(self).todo().len() > 0 {
                        &&& id == old(self).todo()[0]
                        &&& old(domain).words().contains_key(id)
                        &&& old(domain).words()[id] == NULL
                        &&& final(domain).ids() == old(domain).ids()
                    } else {
                        &&& !old(domain).words().contains_key(id)
                        &&& final(domain).ids() == seq![id] + old(domain).ids()
                    }
                    &&& final(domain).words() == old(domain).words().insert(id, DUMMY)
                },
                None => {
                    &&& old(self).todo().len() > 0
                    &&& old(domain).words().contains_key(old(self).todo()[0])
                    &&& old(domain).words()[old(self).todo()[0]] != NULL
                    &&& final(domain).words() == old(domain).words()
                    &&& final(domain).ids() == old(domain).ids()
                },
            },
            final(self).todo() == if old(self).todo().len() > 0 {
                old(self).todo().drop_first()
            } else {
                old(self).todo()
            },
            final(domain).retired() == old(domain).retired(),
            final(domain).garbage() == old(domain).garbage(),
            final(domain).buffer() == old(domain).buffer(),
            final(domain).config() == old(domain).config(),
            final(domain).bulk_size() == old(domain).bulk_size(),
    {
        match self.walk.next(domain) {
            Some(id) => {
                let ghost n = domain.ids().index_of(id);
                proof {
                    domain.hzrd_ptrs.lemma_addrs();
                    assert(domain.ids()[n] == id);
                    lemma_word(domain.ids(), domain.hzrd_ptrs@, n);
                }
                let acquired = domain.hzrd_ptrs.get_mut(id).try_acquire().is_some();
                proof {
                    lemma_word_written(
                        domain.ids(),
                        old(domain).hzrd_ptrs@,
                        n,
                        domain.hzrd_ptrs@[n],
                    );
                    self.walk.lemma_undisturbed(old(domain), domain);
                }
                if acquired {
                    Some(id)
                } else {
                    assert(domain.hzrd_ptrs@ =~= old(domain).hzrd_ptrs@);
                    None
                }
            },
            None => {
                let hzrd_ptr = HzrdPtr::new();
                let id = domain.hzrd_ptrs.push_get(hzrd_ptr);
                proof {
                    domain.hzrd_ptrs.lemma_addrs();
                    lemma_word_added(old(domain).ids(), old(domain).hzrd_ptrs@, id, hzrd_ptr);
                    self.walk.lemma_undisturbed(old(domain), domain);
                }
                Some(id)
            },
        }
    }
}

/// Loads the hazard pointers of a [`SharedDomain`], one at a time.
pub struct Scan {
    hzrd_ptrs: HzrdPtrs,
    walk: Walk,
}

impl Scan {
    /// The ids of the hazard pointers that are still to be loaded.
    pub closed spec fn todo(&self) -> Seq<usize> {
        self.walk.todo()
    }

    /// The addresses that were loaded so far.
    pub closed spec fn seen(&self) -> Seq<usize> {
        self.hzrd_ptrs@
    }

    /// Whether the buffer came out of the one that the domain keeps.
    pub closed spec fn is_cached(&self) -> bool {
        self.hzrd_ptrs.is_cached()
    }

    /// The hazard pointers still to be loaded are the last ones of the domain.
    pub closed spec fn wf(&self, domain: &SharedDomain) -> bool {
        self.walk.wf(domain)
    }

    /// Begin to load the hazard pointers of a domain.
    pub fn begin(domain: &mut SharedDomain) -> (scan: Self)
        requires
            old(domain).wf(),
        ensures
            scan.wf(final(domain)),
            scan.todo() == old(domain).ids(),
            scan.seen() == Seq::<usize>::empty(),
            scan.is_cached() == old(domain).options().is_caching(),
            final(domain).wf(),
            final(domain).ids() == old(domain).ids(),
            final(domain).words() == old(domain).words(),
            final(domain).retired() == old(domain).retired(),
            final(domain).garbage() == old(domain).garbage(),
            final(domain).buffer() == if old(domain).options().is_caching() {
                Seq::<usize>::empty()
            } else {
                old(domain).buffer()
            },
            final(domain).config() == Some(old(domain).options()),
            final(domain).bulk_size() == old(domain).bulk_size(),
    {
        let config = domain.config.get_or_init();
        let hzrd_ptrs = HzrdPtrs::load(&config, &mut domain.cache);
        Scan { hzrd_ptrs, walk: Walk::begin(domain) }
    }

    /// A scan under way is not disturbed by a domain that got more hazard pointers.
    pub proof fn lemma_undisturbed(&self, before: &SharedDomain, after: &SharedDomain)
        requires
            self.wf(before),
            after.follows(before),
        ensures
            self.wf(after),
    {
        self.walk.lemma_undisturbed(before, after);
    }

    /// Load the next hazard pointer, if there is one left.
    pub fn step(&mut self, domain: &SharedDomain) -> (more: bool)
        requires
            domain.wf(),
            old(self).wf(domain),
        ensures
            final(self).wf(domain),
            more == (old(self).todo().len() > 0),
            more ==> {
                let id = old(self).todo()[0];
                &&& domain.words().contains_key(id)
                &&& final(self).todo() == old(self).todo().drop_first()
                &&& final(self).seen() == old(self).seen().push(domain.words()[id])
            },
            final(self).is_cached() == old(self).is_cached(),
            !more ==> *final(self) == *old(self),
    {
        match self.walk.next(domain) {
            Some(id) => {
                self.hzrd_ptrs.add(domain.hazard(id));
                true
            },
            None => false,
        }
    }

    /// The hazard pointers that were loaded.
    pub fn finish(self) -> (hzrd_ptrs: HzrdPtrs)
        ensures
            hzrd_ptrs@ == self.seen(),
            hzrd_ptrs.is_cached() == self.is_cached(),
    {
        self.hzrd_ptrs
    }
}

/// Goes through retired pointers, one at a time, and frees those that are not guarded.
pub struct Sweep {
    retired_ptrs: IntoIter<RetiredPtr>,
    remaining: SharedStack<RetiredPtr>,
}

impl Sweep {
    /// Both parts are well-formed.
    pub closed spec fn wf(&self) -> bool {
        self.retired_ptrs.wf() && self.remaining.wf()
    }

    /// The addresses that are still to be looked at.
    pub closed spec fn left(&self) -> Seq<usize> {
        addrs_of(self.retired_ptrs.remaining())
    }

    /// The addresses that were found to be guarded, the latest first.
    pub closed spec fn kept(&self) -> Seq<usize> {
        addrs_of(self.remaining@)
    }

    /// Begin to go through the given retired pointers.
    pub fn new(retired_ptrs: SharedStack<RetiredPtr>) -> (sweep: Self)
        requires
            retired_ptrs.wf(),
        ensures
            sweep.wf(),
            sweep.left() == addrs_of(retired_ptrs@),
            sweep.kept() == Seq::<usize>::empty(),
    {
        let sweep = Sweep { retired_ptrs: retired_ptrs.into_iter(), remaining: SharedStack::new() };
        assert(sweep.kept() =~= Seq::<usize>::empty());
        sweep
    }

    /// Look at the next retired pointer, if there is one left, and free it unless it is guarded.
    pub fn step<S: Store>(&mut self, hzrd_ptrs: &HzrdPtrs, store: &mut S) -> (more: bool)
        requires
            old(self).wf(),
            old(store).sound(),
            old(self).left().len() > 0 ==> old(store).live().contains(old(self).left()[0]),
        ensures
            final(self).wf(),
            final(store).sound(),
            more == (old(self).left().len() > 0),
            more ==> {
                let addr = old(self).left()[0];
                &&& final(self).left() == old(self).left().drop_first()
                &&& hzrd_ptrs@.contains(addr) ==> {
                    &&& final(self).kept() == seq![addr] + old(self).kept()
                    &&& *final(store) == *old(store)
                }
                &&& !hzrd_ptrs@.contains(addr) ==> {
                    &&& final(self).kept() == old(self).kept()
                    &&& final(store).freed_from(old(store), Set::empty().insert(addr))
                }
            },
            !more ==> *final(self) == *old(self) && *final(store) == *old(store),
    {
        let retired_ptr = match self.retired_ptrs.next() {
            Some(retired_ptr) => retired_ptr,
            None => {
                return false;
            },
        };
        assert(self.left() =~= old(self).left().drop_first());
        if hzrd_ptrs.contains(retired_ptr.addr()) {
            self.remaining.push_mut(retired_ptr);
            assert(self.kept() =~= seq![retired_ptr@] + old(self).kept());
        } else {
            retired_ptr.drop(store);
        }
        true
    }

    /// The retired pointers that were found to be guarded, once all were looked at.
    pub fn finish(self) -> (remaining: SharedStack<RetiredPtr>)
        requires
            self.wf(),
            self.left().len() == 0,
        ensures
            remaining.wf(),
            addrs_of(remaining@) == self.kept(),
    {
        self.remaining
    }
}

impl SharedDomain {
    /// Take all the retired pointers at once.
    pub fn take_retired(&mut self) -> (retired_ptrs: SharedStack<RetiredPtr>)
        requires
            old(self).wf(),
        ensures
            retired_ptrs.wf(),
            addrs_of(retired_ptrs@) == old(self).retired(),
            old(self).retired().no_duplicates(),
            old(self).retired().to_set() == old(self).garbage(),
            final(self).wf(),
            final(self).ids() == old(self).ids(),
            final(self).words() == old(self).words(),
            final(self).retired() == Seq::<usize>::empty(),
            final(self).garbage() == Set::<usize>::empty(),
            final(self).buffer() == old(self).buffer(),
            final(self).config() == old(self).config(),
            final(self).bulk_size() == old(self).bulk_size(),
    {
        let retired_ptrs = self.retired_ptrs.take();
        assert(self.retired() =~= Seq::<usize>::empty());
        assert(self.garbage() =~= Set::<usize>::empty());
        retired_ptrs
    }

    /// Put retired pointers back that were taken before.
    pub fn put_back(&mut self, retired_ptrs: SharedStack<RetiredPtr>)
        requires
            old(self).wf(),
            retired_ptrs.wf(),
            addrs_of(retired_ptrs@).no_duplicates(),
            addrs_of(retired_ptrs@).to_set().disjoint(old(self).garbage()),
        ensures
            final(self).wf(),
            final(self).ids() == old(self).ids(),
            final(self).words() == old(self).words(),
            final(self).retired() == addrs_of(retired_ptrs@) + old(self).retired(),
            final(self).garbage() == addrs_of(retired_ptrs@).to_set().union(old(self).garbage()),
            final(self).buffer() == old(self).buffer(),
            final(self).config() == old(self).config(),
            final(self).bulk_size() == old(self).bulk_size(),
    {
        let ghost back = addrs_of(retired_ptrs@);
        let ghost before = self.retired();
        self.retired_ptrs.push_stack(retired_ptrs);
        proof {
            let after = self.retired();
            assert(after =~= back + before);
            assert(after.no_duplicates()) by {
                assert forall|i: int, j: int|
                    0 <= i < back.len() && 0 <= j < before.len() implies back[i] != before[j] by {
                    assert(back.to_set().contains(back[i]));
                    assert(before.to_set().contains(before[j]));
                }
            }
            assert forall|a: usize| after.to_set().contains(a) <==> (back.to_set().contains(a)
                || before.to_set().contains(a)) by {
                if back.contains(a) {
                    assert(after[back.index_of(a)] == a);
                }
                if before.contains(a) {
                    assert(after[back.len() + before.index_of(a)] == a);
                }
                if after.contains(a) {
                    let i = after.index_of(a);
                    if i < back.len() {
                        assert(back[i] == a);
                    } else {
                        assert(before[i - back.len()] == a);
                    }
                }
            }
            assert(self.garbage() =~= back.to_set().union(old(self).garbage()));
        }
    }

    /// Return the buffer of loaded hazard pointers, if it is one that the domain keeps.
    pub fn unload(&mut self, hzrd_ptrs: HzrdPtrs)
        requires
            old(self).wf(),
        ensures
            final(self).wf(),
            final(self).ids() == old(self).ids(),
            final(self).words() == old(self).words(),
            final(self).retired() == old(self).retired(),
            final(self).garbage() == old(self).garbage(),
            final(self).buffer() == if hzrd_ptrs.is_cached() {
                hzrd_ptrs@
            } else {
                old(self).buffer()
            },
            final(self).config() == old(self).config(),
            final(self).bulk_size() == old(self).bulk_size(),
            final(self).follows(old(self)),
    {
        hzrd_ptrs.drop(&mut self.cache);
    }

    /// Load all the hazard pointers of the domain.
    pub fn load_hzrd_ptrs(&mut self) -> (hzrd_ptrs: HzrdPtrs)
        requires
            old(self).wf(),
        ensures
            final(self).wf(),
            final(self).ids() == old(self).ids(),
            final(self).words() == old(self).words(),
            final(self).retired() == old(self).retired(),
            final(self).garbage() == old(self).garbage(),
            final(self).buffer() == if old(self).options().is_caching() {
                Seq::<usize>::empty()
            } else {
                old(self).buffer()
            },
            final(self).config() == Some(old(self).options()),
            final(self).bulk_size() == old(self).bulk_size(),
            hzrd_ptrs.is_cached() == old(self).options().is_caching(),
            hzrd_ptrs@ == loaded(old(self).ids(), old(self).words()),
            forall|addr: usize|
                hzrd_ptrs@.contains(addr) <==> old(self).words().contains_value(addr),
    {
        let mut scan = Scan::begin(self);
        let ghost ids = self.ids();
        let ghost words = self.words();
        let ghost domain = *self;
        let ghost mut n: int = 0;
        proof {
            self.lemma_ids();
            lemma_loaded(ids, words);
            assert(scan.todo() =~= ids.skip(0));
            assert(scan.seen() =~= loaded(ids, words).take(0));
        }
        loop
            invariant
                *self == domain,
                self.wf(),
                scan.wf(self),
                scan.is_cached() == old(self).options().is_caching(),
                self.ids() == ids,
                self.words() == words,
                0 <= n <= ids.len(),
                scan.todo() == ids.skip(n),
                scan.seen() == loaded(ids, words).take(n),
            ensures
                *self == domain,
                scan.is_cached() == old(self).options().is_caching(),
                scan.seen() == loaded(ids, words),
            decreases ids.len() - n,
        {
            if !scan.step(self) {
                assert(loaded(ids, words).take(n) =~= loaded(ids, words));
                break ;
            }
            proof {
                assert(scan.todo() =~= ids.skip(n + 1));
                assert(scan.seen() =~= loaded(ids, words).take(n + 1));
                n = n + 1;
            }
        }
        scan.finish()
    }
}

/// The domain for everybody.
///
/// A program has one of these, and all that is to be shared by everybody is governed by it: whoever
/// owns the region that everybody has access to makes it once, and keeps it. Making another one gives
/// a domain that has nothing to do with the first.
pub struct GlobalDomain {
    domain: SharedDomain,
}

impl GlobalDomain {
    /// The shared domain behind the global one.
    pub closed spec fn shared(&self) -> SharedDomain {
        self.domain
    }

    /// What there is to the global domain is what there is to the shared domain behind it.
    pub proof fn lemma_shared(&self)
        ensures
            self.wf() == self.shared().wf(),
            self.words() == self.shared().words(),
            self.garbage() == self.shared().garbage(),
            self.bulk_size() == self.shared().bulk_size(),
            self.settled() == self.shared().settled(),
    {
    }

    /// The global domain goes on as the shared domain behind it does.
    pub proof fn lemma_follows_shared(&self, before: &Self)
        ensures
            self.follows(before) == self.shared().follows(&before.shared()),
    {
    }

    /// The global domain as it is before anybody used it.
    ///
    /// To be called once in a program. The config can be set until somebody goes by it. Unless it is,
    /// the default holds.
    pub fn new() -> (domain: Self)
        ensures
            domain.wf(),
            domain.words() == Map::<usize, usize>::empty(),
            domain.garbage() == Set::<usize>::empty(),
            domain.shared().ids() == Seq::<usize>::empty(),
            domain.shared().retired() == Seq::<usize>::empty(),
            domain.shared().buffer() == Seq::<usize>::empty(),
            domain.shared().config() is None,
            domain.settled() is None,
            domain.shared().options() == Config::standard(),
            !domain.shared().options().is_caching(),
            domain.bulk_size() == 1,
    {
        GlobalDomain { domain: SharedDomain::new() }
    }

    /// The global domain with the given options, as it is before anybody used it.
    ///
    /// To be called once in a program, instead of [`GlobalDomain::new`].
    pub fn with_config(config: Config) -> (domain: Self)
        ensures
            domain.wf(),
            domain.words() == Map::<usize, usize>::empty(),
            domain.garbage() == Set::<usize>::empty(),
            domain.shared().ids() == Seq::<usize>::empty(),
            domain.shared().retired() == Seq::<usize>::empty(),
            domain.shared().buffer() == Seq::<usize>::empty(),
            domain.shared().config() == Some(config),
            domain.settled() == Some(config),
            domain.bulk_size() == config.bulk(),
    {
        GlobalDomain { domain: SharedDomain::with_config(config) }
    }

    /// The number of hazard pointers of the domain.
    pub fn number_of_hzrd_ptrs(&self) -> (number: usize)
        requires
            self.wf(),
        ensures
            number == self.words().len(),
    {
        self.domain.number_of_hzrd_ptrs()
    }

    /// The number of retired objects that were not freed yet.
    pub fn number_of_retired_ptrs(&self) -> (number: usize)
        requires
            self.wf(),
        ensures
            number == self.garbage().len(),
    {
        self.domain.number_of_retired_ptrs()
    }

    /// Load all the hazard pointers of the domain.
    pub fn load_hzrd_ptrs(&mut self) -> (hzrd_ptrs: HzrdPtrs)
        requires
            old(self).wf(),
        ensures
            final(self).wf(),
            final(self).words() == old(self).words(),
            final(self).garbage() == old(self).garbage(),
            final(self).bulk_size() == old(self).bulk_size(),
            ({
                let before = old(self).shared();
                let after = final(self).shared();
                &&& after.ids() == before.ids()
                &&& after.retired() == before.retired()
                &&& after.config() == Some(before.options())
                &&& after.buffer() == if before.options().is_caching() {
                    Seq::<usize>::empty()
                } else {
                    before.buffer()
                }
                &&& hzrd_ptrs.is_cached() == before.options().is_caching()
                &&& hzrd_ptrs@ == loaded(before.ids(), before.words())
            }),
            forall|addr: usize|
                hzrd_ptrs@.contains(addr) <==> old(self).words().contains_value(addr),
    {
        self.domain.load_hzrd_ptrs()
    }
}

impl Domain for GlobalDomain {
    closed spec fn wf(&self) -> bool {
        self.domain.wf()
    }

    closed spec fn words(&self) -> Map<usize, usize> {
        self.domain.words()
    }

    closed spec fn garbage(&self) -> Set<usize> {
        self.domain.garbage()
    }

    closed spec fn bulk_size(&self) -> nat {
        self.domain.bulk_size()
    }

    open spec fn settled(&self) -> Option<Config> {
        self.shared().config()
    }

    proof fn lemma_config(&self) {
        self.domain.lemma_config();
    }

    closed spec fn follows(&self, before: &Self) -> bool {
        self.domain.follows(&before.domain)
    }

    proof fn lemma_follows(&self, between: &Self, before: &Self) {
        self.domain.lemma_follows(&between.domain, &before.domain);
    }

    open spec fn keeps(&self, before: &Self) -> bool {
        self.shared().keeps(&before.shared())
    }

    open spec fn acquired_from(&self, before: &Self, id: usize) -> bool {
        self.shared().acquired_from(&before.shared(), id)
    }

    open spec fn retired_from(&self, before: &Self, addr: usize) -> bool {
        self.shared().retired_from(&before.shared(), addr)
    }

    open spec fn reclaimed_from(&self, before: &Self) -> bool {
        self.shared().reclaimed_from(&before.shared())
    }

    proof fn lemma_keeps(&self, between: &Self, before: &Self) {
        self.domain.lemma_keeps(&between.domain, &before.domain);
    }

    proof fn lemma_finite(&self) {
        self.domain.lemma_finite();
    }

    fn hzrd_ptr(&mut self) -> (id: usize) {
        self.domain.hzrd_ptr()
    }

    fn hazard(&self, id: usize) -> (hzrd_ptr: &HzrdPtr) {
        self.domain.hazard(id)
    }

    fn hazard_mut(&mut self, id: usize) -> (hzrd_ptr: &mut HzrdPtr) {
        self.domain.hazard_mut(id)
    }

    fn just_retire(&mut self, ret_ptr: RetiredPtr) {
        self.domain.just_retire(ret_ptr)
    }

    fn reclaim<S: Store>(&mut self, store: &mut S) -> (reclaimed: usize) {
        self.domain.reclaim(store)
    }

    fn retire<S: Store>(&mut self, ret_ptr: RetiredPtr, store: &mut S) -> (reclaimed: usize)
        ensures
            ({
                let retired = seq![ret_ptr@] + old(self).shared().retired();
                final(self).shared().retired() == if retired.len() < old(self).bulk_size() {
                    retired
                } else {
                    guarded(retired, old(self).words()).reverse()
                }
            }),
            final(self).shared().ids() == old(self).shared().ids(),
            final(self).shared().config() == Some(old(self).shared().options()),
            final(self).shared().buffer() == if old(self).shared().retired().len() + 1 < old(
                self,
            ).bulk_size() || !old(self).shared().options().is_caching() {
                old(self).shared().buffer()
            } else {
                loaded(old(self).shared().ids(), old(self).words())
            },
    {
        self.just_retire(ret_ptr);
        let ghost between = *self;
        proof {
            self.domain.retired().unique_seq_to_set();
        }
        let reclaimed = self.reclaim(store);
        assert(between.retired_from(old(self), ret_ptr@));
        reclaimed
    }

    fn set_config(&mut self, config: Config) -> (set: Result<(), Config>) {
        self.domain.set_config(config)
    }

    fn drop<S: Store>(self, store: &mut S) {
        self.domain.drop(store);
    }
}

/// A domain for a single owner.
pub struct LocalDomain {
    hzrd_ptrs: ptr::HzrdPtrs,
    retired_ptrs: Vec<RetiredPtr>,
    config: GlobalConfig,
    cache: Vec<usize>,
}

impl Default for LocalDomain {
    fn default() -> (domain: Self)
        ensures
            domain.wf(),
            domain.ids() == Seq::<usize>::empty(),
            domain.words() == Map::<usize, usize>::empty(),
            domain.retired() == Seq::<usize>::empty(),
            domain.garbage() == Set::<usize>::empty(),
            domain.buffer() == Seq::<usize>::empty(),
            domain.config() is None,
            domain.settled() is None,
            domain.bulk_size() == 1,
    {
        LocalDomain::new()
    }
}

impl LocalDomain {
    /// The ids of the hazard pointers, in the order in which they are looked at.
    pub closed spec fn ids(&self) -> Seq<usize> {
        self.hzrd_ptrs.ids()
    }

    /// The addresses of the retired objects, the latest last.
    pub closed spec fn retired(&self) -> Seq<usize> {
        addrs_of(self.retired_ptrs@)
    }

    /// The config of the domain, if it is settled.
    pub closed spec fn config(&self) -> Option<Config> {
        self.config@
    }

    /// The options that the domain goes by.
    pub open spec fn options(&self) -> Config {
        options_of(self.config())
    }

    /// What is in the buffer that the domain keeps for loading hazard pointers.
    pub closed spec fn buffer(&self) -> Seq<usize> {
        self.cache@
    }

    /// The ids are distinct, and they are the keys of the words. The retired addresses are distinct, and
    /// they are the garbage.
    pub proof fn lemma_ids(&self)
        requires
            self.wf(),
        ensures
            self.ids().no_duplicates(),
            self.words().dom() == self.ids().to_set(),
            self.retired().no_duplicates(),
            self.garbage() == self.retired().to_set(),
    {
        self.hzrd_ptrs.lemma_ids();
    }

    /// Construct a new, clean local domain.
    ///
    /// The config can be set until the domain first goes by it. Unless it is, the default holds.
    pub fn new() -> (domain: Self)
        ensures
            domain.wf(),
            domain.ids() == Seq::<usize>::empty(),
            domain.words() == Map::<usize, usize>::empty(),
            domain.retired() == Seq::<usize>::empty(),
            domain.garbage() == Set::<usize>::empty(),
            domain.buffer() == Seq::<usize>::empty(),
            domain.config() is None,
            domain.settled() is None,
            domain.options() == Config::standard(),
            !domain.options().is_caching(),
            domain.bulk_size() == 1,
    {
        let domain = LocalDomain {
            hzrd_ptrs: ptr::HzrdPtrs::new(),
            retired_ptrs: Vec::new(),
            config: GlobalConfig::new(),
            cache: Vec::new(),
        };
        assert(domain.retired() =~= Seq::<usize>::empty());
        assert(domain.garbage() =~= Set::<usize>::empty());
        domain
    }

    /// Construct a new, clean local domain with the given options.
    pub fn with_config(config: Config) -> (domain: Self)
        ensures
            domain.wf(),
            domain.ids() == Seq::<usize>::empty(),
            domain.words() == Map::<usize, usize>::empty(),
            domain.retired() == Seq::<usize>::empty(),
            domain.garbage() == Set::<usize>::empty(),
            domain.buffer() == Seq::<usize>::empty(),
            domain.config() == Some(config),
            domain.settled() == Some(config),
            domain.bulk_size() == config.bulk(),
    {
        let mut domain = LocalDomain::new();
        let _ = domain.set_config(config);
        domain
    }

    /// The number of hazard pointers of the domain.
    pub fn number_of_hzrd_ptrs(&self) -> (number: usize)
        requires
            self.wf(),
        ensures
            number == self.words().len(),
    {
        self.hzrd_ptrs.len()
    }

    /// The number of retired objects that were not freed yet.
    pub fn number_of_retired_ptrs(&self) -> (number: usize)
        requires
            self.wf(),
        ensures
            number == self.garbage().len(),
    {
        proof {
            self.retired().unique_seq_to_set();
        }
        self.retired_ptrs.len()
    }

    /// Load all the hazard pointers of the domain.
    pub fn load_hzrd_ptrs(&mut self) -> (hzrd_ptrs: HzrdPtrs)
        requires
            old(self).wf(),
        ensures
            final(self).wf(),
            final(self).ids() == old(self).ids(),
            final(self).words() == old(self).words(),
            final(self).retired() == old(self).retired(),
            final(self).garbage() == old(self).garbage(),
            final(self).buffer() == if old(self).options().is_caching() {
                Seq::<usize>::empty()
            } else {
                old(self).buffer()
            },
            final(self).config() == Some(old(self).options()),
            final(self).bulk_size() == old(self).bulk_size(),
            hzrd_ptrs.is_cached() == old(self).options().is_caching(),
            hzrd_ptrs@ == loaded(old(self).ids(), old(self).words()),
            forall|addr: usize|
                hzrd_ptrs@.contains(addr) <==> old(self).words().contains_value(addr),
    {
        let config = self.config.get_or_init();
        let mut hzrd_ptrs = HzrdPtrs::load(&config, &mut self.cache);
        self.hzrd_ptrs.load(&mut hzrd_ptrs);
        proof {
            self.hzrd_ptrs.lemma_ids();
            lemma_loaded(self.ids(), self.words());
            assert(hzrd_ptrs@ =~= loaded(self.ids(), self.words()));
        }
        hzrd_ptrs
    }
}

impl Domain for LocalDomain {
    closed spec fn wf(&self) -> bool {
        self.hzrd_ptrs.wf() && self.retired().no_duplicates()
    }

    closed spec fn words(&self) -> Map<usize, usize> {
        self.hzrd_ptrs.words()
    }

    closed spec fn garbage(&self) -> Set<usize> {
        self.retired().to_set()
    }

    closed spec fn bulk_size(&self) -> nat {
        self.options().bulk() as nat
    }

    open spec fn settled(&self) -> Option<Config> {
        self.config()
    }

    proof fn lemma_config(&self) {
    }

    /// The hazard pointers that are new come last.
    open spec fn follows(&self, before: &Self) -> bool {
        &&& before.ids().len() <= self.ids().len()
        &&& forall|i: int|
            0 <= i < before.ids().len() ==> self.ids()[i] == #[trigger] before.ids()[i]
    }

    proof fn lemma_follows(&self, between: &Self, before: &Self) {
    }

    open spec fn keeps(&self, before: &Self) -> bool {
        &&& self.ids() == before.ids()
        &&& self.retired() == before.retired()
        &&& self.buffer() == before.buffer()
    }

    open spec fn acquired_from(&self, before: &Self, id: usize) -> bool {
        &&& before.words().contains_value(NULL) ==> is_first_available(
            before.ids(),
            before.words(),
            id,
        )
        &&& self.ids() == if before.words().contains_value(NULL) {
            before.ids()
        } else {
            before.ids().push(id)
        }
        &&& self.retired() == before.retired()
        &&& self.buffer() == before.buffer()
    }

    open spec fn retired_from(&self, before: &Self, addr: usize) -> bool {
        &&& self.retired() == before.retired().push(addr)
        &&& self.ids() == before.ids()
        &&& self.buffer() == before.buffer()
    }

    open spec fn reclaimed_from(&self, before: &Self) -> bool {
        &&& self.retired() == if before.garbage().len() < before.bulk_size() {
            before.retired()
        } else {
            guarded(before.retired(), before.words())
        }
        &&& self.ids() == before.ids()
        &&& self.buffer() == if before.garbage().len() < before.bulk_size()
            || !before.options().is_caching() {
            before.buffer()
        } else {
            loaded(before.ids(), before.words())
        }
    }

    proof fn lemma_keeps(&self, between: &Self, before: &Self) {
    }

    proof fn lemma_finite(&self) {
        self.hzrd_ptrs.lemma_ids();
        self.retired().unique_seq_to_set();
    }

    fn hzrd_ptr(&mut self) -> (id: usize) {
        self.hzrd_ptrs.get()
    }

    fn hazard(&self, id: usize) -> (hzrd_ptr: &HzrdPtr) {
        self.hzrd_ptrs.hazard(id).as_core()
    }

    fn hazard_mut(&mut self, id: usize) -> (hzrd_ptr: &mut HzrdPtr) {
        self.hzrd_ptrs.hazard_mut(id).as_core_mut()
    }

    fn just_retire(&mut self, ret_ptr: RetiredPtr) {
        self.retired_ptrs.push(ret_ptr);
        proof {
            lemma_pushed(old(self).retired(), ret_ptr@);
            assert(self.retired() =~= old(self).retired().push(ret_ptr@));
        }
    }

    fn reclaim<S: Store>(&mut self, store: &mut S) -> (reclaimed: usize) {
        let ghost retired = self.retired();
        let ghost words = self.words();
        proof {
            retired.unique_seq_to_set();
            lemma_guarded(retired, words);
        }
        let prev_size = self.retired_ptrs.len();

        // Check if it's too small to reclaim
        if prev_size < self.config.get_or_init().bulk_size {
            proof {
                let freed = reclaimable(old(self).garbage(), words, self.bulk_size());
                assert(self.garbage() =~= old(self).garbage().difference(freed));
                store.lemma_freed(store, store, freed, freed);
            }
            return 0;
        }
        let hzrd_ptrs = self.load_hzrd_ptrs();
        retain(&mut self.retired_ptrs, &hzrd_ptrs, store, Ghost(words));
        hzrd_ptrs.drop(&mut self.cache);
        proof {
            assert(reclaimable(old(self).garbage(), words, self.bulk_size())
                == reclaimable(retired.to_set(), words, 0));
        }
        prev_size - self.retired_ptrs.len()
    }

    fn retire<S: Store>(&mut self, ret_ptr: RetiredPtr, store: &mut S) -> (reclaimed: usize)
        ensures
            ({
                let retired = old(self).retired().push(ret_ptr@);
                final(self).retired() == if retired.len() < old(self).bulk_size() {
                    retired
                } else {
                    guarded(retired, old(self).words())
                }
            }),
            final(self).ids() == old(self).ids(),
            final(self).config() == Some(old(self).options()),
            final(self).buffer() == if old(self).retired().len() + 1 < old(self).bulk_size()
                || !old(self).options().is_caching() {
                old(self).buffer()
            } else {
                loaded(old(self).ids(), old(self).words())
            },
    {
        self.just_retire(ret_ptr);
        let ghost between = *self;
        proof {
            self.retired().unique_seq_to_set();
        }
        let reclaimed = self.reclaim(store);
        assert(between.retired_from(old(self), ret_ptr@));
        reclaimed
    }

    fn set_config(&mut self, config: Config) -> (set: Result<(), Config>) {
        self.config.set(config)
    }

    fn drop<S: Store>(self, store: &mut S) {
        free_all(self.retired_ptrs, store);
    }
}

/// Appending a new address keeps the addresses distinct.
pub proof fn lemma_pushed(retired: Seq<usize>, addr: usize)
    requires
        retired.no_duplicates(),
        !retired.contains(addr),
    ensures
        retired.push(addr).no_duplicates(),
        retired.push(addr).to_set() == retired.to_set().insert(addr),
{
    let after = retired.push(addr);
    assert(after.to_set() =~= retired.to_set().insert(addr)) by {
        assert forall|a: usize| retired.to_set().insert(addr).contains(a) implies after.to_set().contains(
            a,
        ) by {
            if retired.contains(a) {
                assert(after[retired.index_of(a)] == a);
            } else {
                assert(after[retired.len() as int] == a);
            }
        }
        assert forall|a: usize| after.to_set().contains(a) implies retired.to_set().insert(
            addr,
        ).contains(a) by {
            let i = after.index_of(a);
            if i < retired.len() {
                assert(retired[i] == a);
            }
        }
    }
}

/// What comes next of distinct objects of which the first `n` were freed is still there.
pub proof fn lemma_freed_next<S: Store>(store: &S, before: &S, retired: Seq<usize>, n: int)
    requires
        retired.no_duplicates(),
        retired.to_set().subset_of(before.live()),
        0 <= n < retired.len(),
        store.freed_from(before, retired.take(n).to_set()),
    ensures
        store.live().contains(retired[n]),
        retired.take(n + 1).to_set() == retired.take(n).to_set().union(
            Set::empty().insert(retired[n]),
        ),
{
    let gone = retired.take(n).to_set();
    store.lemma_freed(store, before, gone, gone);
    assert(retired.contains(retired[n]));
    assert(!retired.take(n).contains(retired[n]));
    lemma_pushed(retired.take(n), retired[n]);
    assert(retired.take(n).push(retired[n]) =~= retired.take(n + 1));
    assert(gone.insert(retired[n]) =~= gone.union(Set::empty().insert(retired[n])));
}

/// Free all the given retired pointers.
pub fn free_all<S: Store>(retired_ptrs: Vec<RetiredPtr>, store: &mut S)
    requires
        old(store).sound(),
        addrs_of(retired_ptrs@).no_duplicates(),
        addrs_of(retired_ptrs@).to_set().subset_of(old(store).live()),
    ensures
        final(store).sound(),
        final(store).freed_from(old(store), addrs_of(retired_ptrs@).to_set()),
{
    let ghost retired = addrs_of(retired_ptrs@);
    proof {
        assert(retired.take(0).to_set() =~= Set::<usize>::empty());
        store.lemma_freed(store, store, Set::empty(), Set::empty());
    }
    for retired_ptr in it: retired_ptrs
        invariant
            it.seq() == retired_ptrs@,
            retired == addrs_of(retired_ptrs@),
            retired.len() == retired_ptrs@.len(),
            store.sound(),
            retired.no_duplicates(),
            retired.to_set().subset_of(old(store).live()),
            store.freed_from(old(store), retired.take(it.index() as int).to_set()),
    {
        let ghost n = it.index() as int;
        let ghost between = *store;
        proof {
            assert(retired[n] == retired_ptr@);
            lemma_freed_next(&between, old(store), retired, n);
        }
        retired_ptr.drop(store);
        proof {
            store.lemma_freed(
                &between,
                old(store),
                retired.take(n).to_set(),
                Set::empty().insert(retired[n]),
            );
        }
    }
    assert(retired.take(retired.len() as int) =~= retired);
}

/// Free all the retired pointers that no loaded hazard pointer guards.
fn retain<S: Store>(
    retired_ptrs: &mut Vec<RetiredPtr>,
    hzrd_ptrs: &HzrdPtrs,
    store: &mut S,
    Ghost(words): Ghost<Map<usize, usize>>,
)
    requires
        old(store).sound(),
        addrs_of(old(retired_ptrs)@).no_duplicates(),
        addrs_of(old(retired_ptrs)@).to_set().subset_of(old(store).live()),
        forall|addr: usize| hzrd_ptrs@.contains(addr) <==> words.contains_value(addr),
    ensures
        final(store).sound(),
        addrs_of(final(retired_ptrs)@) == guarded(addrs_of(old(retired_ptrs)@), words),
        final(store).freed_from(
            old(store),
            reclaimable(addrs_of(old(retired_ptrs)@).to_set(), words, 0),
        ),
{
    let ghost retired = addrs_of(retired_ptrs@);
    let mut all: Vec<RetiredPtr> = Vec::new();
    std::mem::swap(&mut all, retired_ptrs);
    proof {
        reveal(Seq::filter);
        assert(guarded(retired.take(0), words) =~= Seq::<usize>::empty());
        assert(addrs_of(retired_ptrs@) =~= Seq::<usize>::empty());
        assert(reclaimable(retired.take(0).to_set(), words, 0) =~= Set::<usize>::empty());
        store.lemma_freed(store, store, Set::empty(), Set::empty());
    }
    for retired_ptr in it: all
        invariant
            it.seq() == all@,
            addrs_of(all@) == retired,
            retired.len() == all@.len(),
            store.sound(),
            retired.no_duplicates(),
            retired.to_set().subset_of(old(store).live()),
            forall|addr: usize| hzrd_ptrs@.contains(addr) <==> words.contains_value(addr),
            addrs_of(retired_ptrs@) == guarded(retired.take(it.index() as int), words),
            store.freed_from(
                old(store),
                reclaimable(retired.take(it.index() as int).to_set(), words, 0),
            ),
    {
        let ghost n = it.index() as int;
        let ghost between = *store;
        let ghost freed = reclaimable(retired.take(n).to_set(), words, 0);
        proof {
            lemma_swept(retired, words, n);
            store.lemma_freed(store, old(store), freed, freed);
            assert(retired[n] == retired_ptr@);
        }
        if hzrd_ptrs.contains(retired_ptr.addr()) {
            let ghost before = retired_ptrs@;
            retired_ptrs.push(retired_ptr);
            assert(addrs_of(retired_ptrs@) =~= addrs_of(before).push(retired_ptr@));
        } else {
            retired_ptr.drop(store);
            proof {
                store.lemma_freed(&between, old(store), freed, Set::empty().insert(retired[n]));
            }
        }
    }
    assert(retired.take(retired.len() as int) =~= retired);
}

} // verus!
