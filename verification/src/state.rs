//! The state that the watcher keeps in a store between two scans: its
//! configuration, the snapshot of its last scan, and its statistics.
//!
//! What a call has to write is a list of writes. They are made one after another,
//! and the first that fails ends the call.

use vstd::prelude::*;
use vstd::utf8::*;

use crate::model::{
    default_config, no_stats, ConfigView, FingerprintView, StatsView, StoredConfig,
    StoredFingerprint, StoredStats,
};
use crate::path_map::PathMap;
use crate::text::{utf8, utf8_text};

verus! {

/// Where the configuration is kept.
pub const CONFIG_KEY: &'static str = "folder-watch.config.v1";

/// Where the snapshot of the last scan is kept.
pub const SNAPSHOT_KEY: &'static str = "folder-watch.snapshot.v1";

/// Where the statistics are kept.
pub const STATS_KEY: &'static str = "folder-watch.stats.v1";

/// A snapshot without files.
pub open spec fn no_snapshot() -> Map<Seq<char>, FingerprintView> {
    Map::empty()
}

/// The configuration to go by: the stored one, or the default one.
pub open spec fn config_or_default(stored: Option<ConfigView>) -> ConfigView {
    match stored {
        Some(config) => config,
        None => default_config(),
    }
}

/// The snapshot to go by: the stored one, or an empty one.
pub open spec fn snapshot_or_empty(stored: Option<Map<Seq<char>, FingerprintView>>) -> Map<
    Seq<char>,
    FingerprintView,
> {
    match stored {
        Some(snapshot) => snapshot,
        None => no_snapshot(),
    }
}

/// The statistics to go by: the stored ones, or those of a watcher that has done
/// nothing yet.
pub open spec fn stats_or_zero(stored: Option<StatsView>) -> StatsView {
    match stored {
        Some(stats) => stats,
        None => no_stats(),
    }
}

/// The view of a value that may be missing.
pub open spec fn view_of<T: View>(stored: Option<T>) -> Option<T::V> {
    match stored {
        Some(value) => Some(value@),
        None => None,
    }
}

/// The text under a key, from what the store said when it was asked for the key.
/// There is none if the store failed, if it has nothing under the key, or if what
/// it has is not UTF-8.
pub fn stored_text(reply: Result<Option<Vec<u8>>, String>) -> (text: Option<String>)
    ensures
        match reply {
            Ok(Some(bytes)) => view_of(text) == utf8(bytes@),
            _ => text is None,
        },
        text is Some <==> (reply matches Ok(Some(bytes)) && valid_utf8(bytes@)),
        reply matches Ok(Some(bytes)) ==> text matches Some(t) ==> t@ == decode_utf8(bytes@),
{
    match reply {
        Ok(Some(bytes)) => utf8_text(bytes.as_slice()),
        _ => None,
    }
}

/// The configuration to go by.
pub fn load_config(stored: Option<StoredConfig>) -> (config: StoredConfig)
    ensures
        config@ == config_or_default(view_of(stored)),
{
    match stored {
        Some(config) => config,
        None => StoredConfig::default(),
    }
}

/// The snapshot to go by.
pub fn load_snapshot(stored: Option<PathMap<StoredFingerprint>>) -> (snapshot: PathMap<
    StoredFingerprint,
>)
    ensures
        snapshot@ == snapshot_or_empty(view_of(stored)),
{
    match stored {
        Some(snapshot) => snapshot,
        None => PathMap::new(),
    }
}

/// The statistics to go by.
pub fn load_stats(stored: Option<StoredStats>) -> (stats: StoredStats)
    ensures
        stats@ == stats_or_zero(view_of(stored)),
{
    match stored {
        Some(stats) => stats,
        None => StoredStats::default(),
    }
}

/// A write to the store.
pub enum StateWrite {
    Config(StoredConfig),
    Snapshot(PathMap<StoredFingerprint>),
    Stats(StoredStats),
}

/// A write to the store, with texts for strings.
pub enum WriteView {
    Config(ConfigView),
    Snapshot(Map<Seq<char>, FingerprintView>),
    Stats(StatsView),
}

impl View for StateWrite {
    type V = WriteView;

    open spec fn view(&self) -> WriteView {
        match self {
            StateWrite::Config(config) => WriteView::Config(config@),
            StateWrite::Snapshot(snapshot) => WriteView::Snapshot(snapshot@),
            StateWrite::Stats(stats) => WriteView::Stats(stats@),
        }
    }
}

/// Writes, with texts for strings.
pub open spec fn write_views(writes: Seq<StateWrite>) -> Seq<WriteView> {
    writes.map_values(|write: StateWrite| write@)
}

/// The key under which a write puts its value.
pub open spec fn key_of(write: WriteView) -> Seq<char> {
    match write {
        WriteView::Config(config) => CONFIG_KEY@,
        WriteView::Snapshot(snapshot) => SNAPSHOT_KEY@,
        WriteView::Stats(stats) => STATS_KEY@,
    }
}

impl StateWrite {
    /// The key under which to put the value.
    pub fn key(&self) -> (key: &'static str)
        ensures
            key@ == key_of(self@),
    {
        match self {
            StateWrite::Config(_config) => CONFIG_KEY,
            StateWrite::Snapshot(_snapshot) => SNAPSHOT_KEY,
            StateWrite::Stats(_stats) => STATS_KEY,
        }
    }
}

/// The write that forgets the last scan.
pub fn clear_snapshot() -> (write: StateWrite)
    ensures
        write@ == WriteView::Snapshot(no_snapshot()),
{
    StateWrite::Snapshot(PathMap::new())
}

/// Writes that are made one after another: those that were asked for, how many of
/// them were made, and the failure that ended them, if one did.
pub struct WritesView {
    pub writes: Seq<WriteView>,
    pub made: nat,
    pub error: Option<Seq<char>>,
}

/// Writes of which none was made yet.
pub open spec fn writes_start(writes: Seq<WriteView>) -> WritesView {
    WritesView { writes, made: 0, error: None }
}

/// The write to make next.
pub open spec fn next_write(state: WritesView) -> Option<WriteView> {
    if state.error is None && state.made < state.writes.len() {
        Some(state.writes[state.made as int])
    } else {
        None
    }
}

/// What is left after the next write was made, or failed.
pub open spec fn writes_after(state: WritesView, written: Result<(), Seq<char>>) -> WritesView {
    if next_write(state) is None {
        state
    } else {
        match written {
            Ok(_) => WritesView { made: state.made + 1, ..state },
            Err(error) => WritesView { error: Some(error), ..state },
        }
    }
}

/// What a call that makes these writes returns, once it is over.
pub open spec fn writes_outcome(state: WritesView) -> Option<Result<(), Seq<char>>> {
    match state.error {
        Some(error) => Some(Err(error)),
        None => if state.made < state.writes.len() {
            None
        } else {
            Some(Ok(()))
        },
    }
}

/// A result, with a text for the error.
pub open spec fn result_view(result: Result<(), String>) -> Result<(), Seq<char>> {
    match result {
        Ok(_) => Ok(()),
        Err(error) => Err(error@),
    }
}

/// Writes that are made one after another.
pub struct StateWrites {
    writes: Vec<StateWrite>,
    made: usize,
    error: Option<String>,
}

impl View for StateWrites {
    type V = WritesView;

    closed spec fn view(&self) -> WritesView {
        WritesView {
            writes: write_views(self.writes@),
            made: self.made as nat,
            error: view_of(self.error),
        }
    }
}

impl StateWrites {
    /// Writes of which none was made yet.
    pub fn new(writes: Vec<StateWrite>) -> (state: Self)
        ensures
            state@ == writes_start(write_views(writes@)),
    {
        StateWrites { writes, made: 0, error: None }
    }

    /// The write to make next.
    pub fn next_write(&self) -> (write: Option<&StateWrite>)
        ensures
            match write {
                Some(write) => next_write(self@) == Some(write@),
                None => next_write(self@) is None,
            },
    {
        match &self.error {
            Some(_error) => None,
            None => if self.made < self.writes.len() {
                Some(&self.writes[self.made])
            } else {
                None
            },
        }
    }

    /// Takes how the write went, and goes on.
    pub fn advance(&mut self, written: Result<(), String>)
        ensures
            final(self)@ == writes_after(old(self)@, result_view(written)),
    {
        if self.error.is_none() && self.made < self.writes.len() {
            match written {
                Ok(_) => {
                    self.made = self.made + 1;
                },
                Err(error) => {
                    self.error = Some(error);
                },
            }
        }
    }

    /// What to return, once all the writes are made or one has failed.
    pub fn outcome(self) -> (outcome: Option<Result<(), String>>)
        ensures
            match outcome {
                Some(result) => writes_outcome(self@) == Some(result_view(result)),
                None => writes_outcome(self@) is None,
            },
    {
        match self.error {
            Some(error) => Some(Err(error)),
            None => if self.made < self.writes.len() {
                None
            } else {
                Some(Ok(()))
            },
        }
    }
}

/// The writes that configure the watcher: its configuration, and an empty snapshot
/// if the last scan is to be forgotten.
pub open spec fn configure_writes(config: ConfigView, reset_snapshot: bool) -> Seq<WriteView> {
    if reset_snapshot {
        seq![WriteView::Config(config), WriteView::Snapshot(no_snapshot())]
    } else {
        seq![WriteView::Config(config)]
    }
}

/// The writes that reset the watcher: an empty snapshot and zero statistics.
pub open spec fn reset_writes() -> Seq<WriteView> {
    seq![WriteView::Snapshot(no_snapshot()), WriteView::Stats(no_stats())]
}

/// The writes that make a store ready: a default configuration and zero statistics,
/// each only if there is none.
pub open spec fn load_writes(
    config: Option<ConfigView>,
    stats: Option<StatsView>,
) -> Seq<WriteView> {
    (if config is None {
        seq![WriteView::Config(default_config())]
    } else {
        seq![]
    }) + (if stats is None {
        seq![WriteView::Stats(no_stats())]
    } else {
        seq![]
    })
}

/// The writes that reset the watcher.
pub fn control_reset() -> (state: StateWrites)
    ensures
        state@ == writes_start(reset_writes()),
{
    let mut writes: Vec<StateWrite> = Vec::new();
    writes.push(clear_snapshot());
    writes.push(StateWrite::Stats(StoredStats::default()));
    assert(write_views(writes@) =~= reset_writes());
    StateWrites::new(writes)
}

/// The writes that make a store ready, from what it has.
pub fn on_load(config: &Option<StoredConfig>, stats: &Option<StoredStats>) -> (state: StateWrites)
    ensures
        state@ == writes_start(load_writes(view_of(*config), view_of(*stats))),
{
    let mut writes: Vec<StateWrite> = Vec::new();
    if config.is_none() {
        writes.push(StateWrite::Config(StoredConfig::default()));
    }
    if stats.is_none() {
        writes.push(StateWrite::Stats(StoredStats::default()));
    }
    assert(write_views(writes@) =~= load_writes(view_of(*config), view_of(*stats)));
    StateWrites::new(writes)
}

/// What a store has.
pub struct StoreView {
    pub config: Option<ConfigView>,
    pub snapshot: Option<Map<Seq<char>, FingerprintView>>,
    pub stats: Option<StatsView>,
}

/// What a store has after a write.
pub open spec fn after_write(store: StoreView, write: WriteView) -> StoreView {
    match write {
        WriteView::Config(config) => StoreView { config: Some(config), ..store },
        WriteView::Snapshot(snapshot) => StoreView { snapshot: Some(snapshot), ..store },
        WriteView::Stats(stats) => StoreView { stats: Some(stats), ..store },
    }
}

/// What a store has after some writes.
pub open spec fn after_writes(store: StoreView, writes: Seq<WriteView>) -> StoreView
    decreases writes.len(),
{
    if writes.len() == 0 {
        store
    } else {
        after_write(after_writes(store, writes.drop_last()), writes.last())
    }
}

proof fn lemma_one_write(store: StoreView, a: WriteView)
    ensures
        after_writes(store, seq![a]) == after_write(store, a),
{
    reveal_with_fuel(after_writes, 2);
    assert(seq![a].drop_last() =~= seq![]);
}

proof fn lemma_two_writes(store: StoreView, a: WriteView, b: WriteView)
    ensures
        after_writes(store, seq![a, b]) == after_write(after_write(store, a), b),
{
    lemma_one_write(store, a);
    assert(seq![a, b].drop_last() =~= seq![a]);
}

/// The configuration, the snapshot and the statistics are kept under three
/// different keys: a write of one leaves the others as they are.
pub proof fn law_keys_differ(a: WriteView, b: WriteView)
    requires
        key_of(a) == key_of(b),
    ensures
        a is Config <==> b is Config,
        a is Snapshot <==> b is Snapshot,
        a is Stats <==> b is Stats,
{
    reveal_strlit("folder-watch.config.v1");
    reveal_strlit("folder-watch.snapshot.v1");
    reveal_strlit("folder-watch.stats.v1");
    assert(CONFIG_KEY@.len() == 22 && SNAPSHOT_KEY@.len() == 24 && STATS_KEY@.len() == 21);
}

/// What was saved is what is loaded, until it is saved again, and a save of one thing
/// leaves the others as they are. What was never saved is loaded as the default
/// configuration, no files and no statistics.
pub proof fn law_what_was_saved_is_loaded(store: StoreView, write: WriteView)
    ensures
        ({
            let after = after_write(store, write);
            match write {
                WriteView::Config(config) => config_or_default(after.config) == config
                    && after.snapshot == store.snapshot && after.stats == store.stats,
                WriteView::Snapshot(snapshot) => snapshot_or_empty(after.snapshot) == snapshot
                    && after.config == store.config && after.stats == store.stats,
                WriteView::Stats(stats) => stats_or_zero(after.stats) == stats && after.config
                    == store.config && after.snapshot == store.snapshot,
            }
        }),
        store.config is None ==> config_or_default(store.config) == default_config(),
        store.snapshot is None ==> snapshot_or_empty(store.snapshot) == no_snapshot(),
        store.stats is None ==> stats_or_zero(store.stats) == no_stats(),
{
}

/// What was configured is what the watcher goes by from there on. The statistics
/// stay, and so does the snapshot, unless it is to be forgotten.
pub proof fn law_configure(store: StoreView, config: ConfigView, reset_snapshot: bool)
    ensures
        ({
            let after = after_writes(store, configure_writes(config, reset_snapshot));
            &&& config_or_default(after.config) == config
            &&& after.stats == store.stats
            &&& reset_snapshot ==> snapshot_or_empty(after.snapshot) == no_snapshot()
            &&& !reset_snapshot ==> after.snapshot == store.snapshot
        }),
{
    if reset_snapshot {
        lemma_two_writes(store, WriteView::Config(config), WriteView::Snapshot(no_snapshot()));
    } else {
        lemma_one_write(store, WriteView::Config(config));
    }
}

/// A reset forgets the last scan and the statistics, and keeps the configuration.
/// To reset twice is to reset once.
pub proof fn law_reset(store: StoreView)
    ensures
        ({
            let after = after_writes(store, reset_writes());
            &&& after.config == store.config
            &&& snapshot_or_empty(after.snapshot) == no_snapshot()
            &&& stats_or_zero(after.stats) == no_stats()
            &&& after_writes(after, reset_writes()) == after
        }),
{
    let (a, b) = (WriteView::Snapshot(no_snapshot()), WriteView::Stats(no_stats()));
    lemma_two_writes(store, a, b);
    lemma_two_writes(after_writes(store, reset_writes()), a, b);
}

/// After a load there are a configuration and statistics. It changes nothing that
/// the watcher would go by, keeps what is there, and a second load writes nothing.
pub proof fn law_load(store: StoreView)
    ensures
        ({
            let after = after_writes(store, load_writes(store.config, store.stats));
            &&& after.config == Some(config_or_default(store.config))
            &&& after.stats == Some(stats_or_zero(store.stats))
            &&& after.snapshot == store.snapshot
            &&& load_writes(after.config, after.stats) == Seq::<WriteView>::empty()
        }),
{
    let (a, b) = (WriteView::Config(default_config()), WriteView::Stats(no_stats()));
    let writes = load_writes(store.config, store.stats);
    if store.config is None && store.stats is None {
        assert(writes =~= seq![a, b]);
        lemma_two_writes(store, a, b);
    } else if store.config is None {
        assert(writes =~= seq![a]);
        lemma_one_write(store, a);
    } else if store.stats is None {
        assert(writes =~= seq![b]);
        lemma_one_write(store, b);
    } else {
        assert(writes =~= seq![]);
    }
    let after = after_writes(store, writes);
    assert(load_writes(after.config, after.stats) =~= Seq::<WriteView>::empty());
}

/// Writes of which the first `n` were made.
pub open spec fn writes_run(writes: Seq<WriteView>, n: nat) -> WritesView
    decreases n,
{
    if n == 0 {
        writes_start(writes)
    } else {
        writes_after(writes_run(writes, (n - 1) as nat), Ok(()))
    }
}

/// The writes are made in order. Once the last is made the call succeeds; where one
/// fails it fails with that failure, and none that follows is made.
pub proof fn law_writes_in_order(writes: Seq<WriteView>, n: nat, error: Seq<char>)
    ensures
        n < writes.len() ==> {
            let state = writes_run(writes, n);
            let failed = writes_after(state, Err(error));
            &&& next_write(state) == Some(writes[n as int])
            &&& writes_outcome(state) is None
            &&& next_write(failed) is None
            &&& writes_outcome(failed) == Some(Err::<(), Seq<char>>(error))
        },
        n >= writes.len() ==> writes_outcome(writes_run(writes, n)) == Some(
            Ok::<(), Seq<char>>(()),
        ),
{
    lemma_writes_run(writes, n);
}

proof fn lemma_writes_run(writes: Seq<WriteView>, n: nat)
    ensures
        writes_run(writes, n) == (WritesView {
            writes,
            made: if n < writes.len() {
                n
            } else {
                writes.len()
            },
            error: None,
        }),
    decreases n,
{
    if n > 0 {
        lemma_writes_run(writes, (n - 1) as nat);
    }
}

/// The writes come in this order: a configuration before the empty snapshot, the empty
/// snapshot before zero statistics, and a default configuration before zero statistics.
/// Each goes to its own key.
pub proof fn law_order_of_the_writes(config: ConfigView, write: WriteView)
    ensures
        configure_writes(config, true) == seq![
            WriteView::Config(config),
            WriteView::Snapshot(Map::empty()),
        ],
        configure_writes(config, false) == seq![WriteView::Config(config)],
        reset_writes() == seq![WriteView::Snapshot(Map::empty()), WriteView::Stats(no_stats())],
        load_writes(None, None) == seq![
            WriteView::Config(default_config()),
            WriteView::Stats(no_stats()),
        ],
        write is Config ==> key_of(write) == "folder-watch.config.v1"@,
        write is Snapshot ==> key_of(write) == "folder-watch.snapshot.v1"@,
        write is Stats ==> key_of(write) == "folder-watch.stats.v1"@,
{
    assert(load_writes(None, None) =~= seq![
        WriteView::Config(default_config()),
        WriteView::Stats(no_stats()),
    ]);
}

/// The view of what may be missing, of a result and of writes has what is there.
pub proof fn law_views_of_what_is_there(
    text: String,
    stored: Option<StoredStats>,
    config: StoredConfig,
    snapshot: PathMap<StoredFingerprint>,
    stats: StoredStats,
    writes: Seq<StateWrite>,
)
    ensures
        stored matches Some(value) ==> view_of(stored) == Some(value@),
        stored is None ==> view_of(stored) is None,
        view_of(Some(text)) == Some(text@),
        result_view(Ok(())) == Ok::<(), Seq<char>>(()),
        result_view(Err(text)) == Err::<(), Seq<char>>(text@),
        StateWrite::Config(config)@ == WriteView::Config(config@),
        StateWrite::Snapshot(snapshot)@ == WriteView::Snapshot(snapshot@),
        StateWrite::Stats(stats)@ == WriteView::Stats(stats@),
        write_views(writes).len() == writes.len(),
        forall|i: int| 0 <= i < writes.len() ==> #[trigger] write_views(writes)[i] == writes[i]@,
{
}

} // verus!
