//! The scheduler's decisions: the station registry, administrative commands,
//! the tick clock, and what each station does on a tick.
use crate::resolver::{resolve, resolve_spec, Position};
use vstd::prelude::*;

verus! {

/// An administrative command for the scheduler.
pub enum Command {
    /// Ingest an uploaded song under the given id; `ext` is the format hint.
    Upload { radio: String, song: u8, ext: String, data: Vec<u8> },
    /// Set a station's playlist order (song ids).
    Order { radio: String, order: Vec<u8> },
    /// Remove a song from a station.
    Remove { radio: String, song: u8 },
    /// Remove a station.
    RemoveRadio { radio: String },
    /// Add a station (or reset one of the same name).
    AddRadio { radio: String },
}

/// What the caller must do on storage once a command has been applied.
pub enum Effect {
    /// Decode and pre-segment `data` into the song directory `radio/song`,
    /// probing the format from `hint` before anything is written.
    Ingest { radio: String, song: u8, hint: String, data: Vec<u8> },
    /// Remove the song directory `radio/song`.
    RemoveSongDir { radio: String, song: u8 },
    /// Remove the station directory `radio`.
    RemoveStationDir { radio: String },
    /// Create the station directory `radio`.
    CreateStationDir { radio: String },
}

/// Why a command was not applied.
#[derive(Clone, Copy, Debug, PartialEq, Eq, Structural)]
pub enum CommandError {
    /// The command names a station that does not exist.
    NoSuchStation,
}

/// One station as the scheduler owns it.
pub struct Station {
    name: String,
    order: Vec<u8>,
    new_song: bool,
}

/// What the scheduler knows of a station.
pub struct StationModel {
    pub name: Seq<char>,
    pub order: Seq<u8>,
    pub new_song: bool,
}

impl Station {
    pub closed spec fn model(&self) -> StationModel {
        StationModel { name: self.name@, order: self.order@, new_song: self.new_song }
    }
}

/// Index of the station called `name`, if any.
pub open spec fn position_of(s: Seq<StationModel>, name: Seq<char>) -> Option<int>
    decreases s.len(),
{
    if s.len() == 0 {
        None
    } else if s.last().name == name {
        Some(s.len() - 1)
    } else {
        position_of(s.drop_last(), name)
    }
}

/// A fresh station: empty playlist, codec state to be reset on its first song.
pub open spec fn fresh_station(name: Seq<char>) -> StationModel {
    StationModel { name, order: Seq::empty(), new_song: true }
}

/// The format hint of an upload: its extension with every `.` removed.
pub open spec fn hint_of(ext: Seq<char>) -> Seq<char> {
    ext.filter(|c: char| c != '.')
}

/// The registry after applying a command (the storage side excluded).
pub open spec fn applied(s: Seq<StationModel>, cmd: CommandModel) -> Seq<StationModel> {
    match cmd {
        CommandModel::Upload { .. } => s,
        CommandModel::Order { radio, order } => match position_of(s, radio) {
            Some(i) => s.update(i, StationModel { name: radio, order, new_song: true }),
            None => s,
        },
        CommandModel::Remove { radio, song } => match position_of(s, radio) {
            Some(i) => s.update(
                i,
                StationModel { order: s[i].order.filter(|x: u8| x != song), ..s[i] },
            ),
            None => s,
        },
        CommandModel::RemoveRadio { radio } => match position_of(s, radio) {
            Some(i) => s.remove(i),
            None => s,
        },
        CommandModel::AddRadio { radio } => match position_of(s, radio) {
            Some(i) => s.update(i, fresh_station(radio)),
            None => s.push(fresh_station(radio)),
        },
    }
}

/// A command as the registry sees it.
pub enum CommandModel {
    Upload { radio: Seq<char>, song: u8, ext: Seq<char>, data: Seq<u8> },
    Order { radio: Seq<char>, order: Seq<u8> },
    Remove { radio: Seq<char>, song: u8 },
    RemoveRadio { radio: Seq<char> },
    AddRadio { radio: Seq<char> },
}

impl Command {
    pub closed spec fn model(&self) -> CommandModel {
        match self {
            Command::Upload { radio, song, ext, data } => CommandModel::Upload {
                radio: radio@,
                song: *song,
                ext: ext@,
                data: data@,
            },
            Command::Order { radio, order } => CommandModel::Order { radio: radio@, order: order@ },
            Command::Remove { radio, song } => CommandModel::Remove { radio: radio@, song: *song },
            Command::RemoveRadio { radio } => CommandModel::RemoveRadio { radio: radio@ },
            Command::AddRadio { radio } => CommandModel::AddRadio { radio: radio@ },
        }
    }
}


/// A storage effect as the registry sees it.
pub enum EffectModel {
    Ingest { radio: Seq<char>, song: u8, hint: Seq<char>, data: Seq<u8> },
    RemoveSongDir { radio: Seq<char>, song: u8 },
    RemoveStationDir { radio: Seq<char> },
    CreateStationDir { radio: Seq<char> },
}

impl Effect {
    pub closed spec fn model(&self) -> EffectModel {
        match self {
            Effect::Ingest { radio, song, hint, data } => EffectModel::Ingest {
                radio: radio@,
                song: *song,
                hint: hint@,
                data: data@,
            },
            Effect::RemoveSongDir { radio, song } => EffectModel::RemoveSongDir {
                radio: radio@,
                song: *song,
            },
            Effect::RemoveStationDir { radio } => EffectModel::RemoveStationDir { radio: radio@ },
            Effect::CreateStationDir { radio } => EffectModel::CreateStationDir { radio: radio@ },
        }
    }
}

/// Whether a command can be applied to the registry `s`: every command but
/// `Upload` and `AddRadio` needs its station to exist.
pub open spec fn command_ok(s: Seq<StationModel>, cmd: CommandModel) -> bool {
    match cmd {
        CommandModel::Upload { .. } => true,
        CommandModel::AddRadio { .. } => true,
        CommandModel::Order { radio, .. } => position_of(s, radio) is Some,
        CommandModel::Remove { radio, .. } => position_of(s, radio) is Some,
        CommandModel::RemoveRadio { radio } => position_of(s, radio) is Some,
    }
}

/// The storage effect that an applied command asks for.
pub open spec fn effect_of(cmd: CommandModel) -> Option<EffectModel> {
    match cmd {
        CommandModel::Upload { radio, song, ext, data } => Some(
            EffectModel::Ingest { radio, song, hint: hint_of(ext), data },
        ),
        CommandModel::Order { .. } => None,
        CommandModel::Remove { radio, song } => Some(EffectModel::RemoveSongDir { radio, song }),
        CommandModel::RemoveRadio { radio } => Some(EffectModel::RemoveStationDir { radio }),
        CommandModel::AddRadio { radio } => Some(EffectModel::CreateStationDir { radio }),
    }
}

/// What a station does on a tick.
#[derive(Clone, Copy, Debug, PartialEq, Eq, Structural)]
pub enum TickPlan {
    /// Nothing is resolvable: serve silence.
    Silence,
    /// Recode chunk `chunk` of song `song`, resetting the codec state first when `reset`.
    Recode { song: u8, chunk: u64, reset: bool },
}

/// The plan for a resolved position, and the station's new-song flag after it.
pub open spec fn plan_of(pos: Option<Position>, new_song: bool) -> (TickPlan, bool) {
    match pos {
        None => (TickPlan::Silence, new_song),
        Some(p) => {
            let flag = new_song || p.chunk == 0;
            (TickPlan::Recode { song: p.song, chunk: p.chunk, reset: flag }, flag)
        },
    }
}

/// Whether a tick is due: more than `interval - interval / 2` has passed since
/// the last tick (no time has passed while `now` is before it).
pub open spec fn tick_is_due(last: u64, now: u64, interval: u64) -> bool {
    now > last && now - last > interval - interval / 2
}

proof fn lemma_position_of(s: Seq<StationModel>, name: Seq<char>)
    ensures
        position_of(s, name) is Some ==> {
            let i = position_of(s, name)->Some_0;
            0 <= i < s.len() && s[i].name == name
        },
        position_of(s, name) is None ==> forall|k: int| 0 <= k < s.len() ==> #[trigger] s[k].name != name,
    decreases s.len(),
{
    if s.len() > 0 {
        lemma_position_of(s.drop_last(), name);
        if position_of(s, name) is None {
            assert forall|k: int| 0 <= k < s.len() implies #[trigger] s[k].name != name by {
                if k < s.len() - 1 {
                    assert(s[k] == s.drop_last()[k]);
                }
            }
        }
    }
}

/// The format hint of an upload: `ext` with every `.` removed.
pub fn format_hint(ext: &str) -> (r: String)
    ensures
        r@ == hint_of(ext@),
{
    let n = ext.unicode_len();
    let mut out = String::new();
    let mut k: usize = 0;
    while k < n
        invariant
            k <= n,
            n == ext@.len(),
            out@ == ext@.take(k as int).filter(|c: char| c != '.'),
        decreases n - k,
    {
        proof {
            reveal(Seq::filter);
            assert(ext@.take(k as int + 1).drop_last() =~= ext@.take(k as int));
        }
        let c = ext.get_char(k);
        if c != '.' {
            let one = ext.substring_char(k, k + 1);
            assert(one@ =~= seq![c]);
            out.append(one);
        }
        k = k + 1;
    }
    assert(ext@.take(n as int) =~= ext@);
    out
}

/// Removing one station leaves every other station as it was: it can still be
/// found, with the same playlist and flag, so its later ticks plan the same.
pub proof fn lemma_remove_keeps_others(s: Seq<StationModel>, gone: Seq<char>, other: Seq<char>)
    requires
        forall|i: int, j: int|
            0 <= i < j < s.len() ==> #[trigger] s[i].name != #[trigger] s[j].name,
        gone != other,
    ensures
        position_of(applied(s, CommandModel::RemoveRadio { radio: gone }), other) is Some
            <==> position_of(s, other) is Some,
        position_of(s, other) is Some ==> {
            let after = applied(s, CommandModel::RemoveRadio { radio: gone });
            after[position_of(after, other)->Some_0] == s[position_of(s, other)->Some_0]
        },
{
    lemma_position_of(s, other);
    lemma_position_of(s, gone);
    let after = applied(s, CommandModel::RemoveRadio { radio: gone });
    lemma_position_of(after, other);
    match position_of(s, gone) {
        Some(g) => {
            assert(after == s.remove(g));
            if position_of(s, other) is Some {
                let o = position_of(s, other)->Some_0;
                let k = if o < g { o } else { o - 1 };
                assert(after[k] == s[o]);
                if let Some(a) = position_of(after, other) {
                    let src = if a < g { a } else { a + 1 };
                    assert(s[src] == after[a]);
                    assert(src == o);
                } else {
                    assert(after[k].name != other);
                }
            } else {
                if let Some(a) = position_of(after, other) {
                    let src = if a < g { a } else { a + 1 };
                    assert(s[src] == after[a]);
                }
            }
        },
        None => {},
    }
}

/// The station registry and tick clock that the scheduler owns.
pub struct Scheduler {
    stations: Vec<Station>,
    last_tick_us: u64,
    interval_us: u64,
}

impl Scheduler {
    /// Station names are unique.
    pub closed spec fn wf(&self) -> bool {
        forall|i: int, j: int|
            0 <= i < j < self.stations@.len() ==> #[trigger] self.stations@[i].name@
                != #[trigger] self.stations@[j].name@
    }

    /// The stations, in the order they were added.
    pub closed spec fn stations(&self) -> Seq<StationModel> {
        self.stations@.map_values(|s: Station| s.model())
    }

    /// Time of the last tick, in microseconds.
    pub closed spec fn last_tick(&self) -> u64 {
        self.last_tick_us
    }

    /// The tick interval, in microseconds.
    pub closed spec fn interval(&self) -> u64 {
        self.interval_us
    }

    /// A scheduler with no station whose clock last ticked at `start_us`.
    pub fn new(start_us: u64, interval_us: u64) -> (r: Self)
        ensures
            r.wf(),
            r.stations() == Seq::<StationModel>::empty(),
            r.last_tick() == start_us,
            r.interval() == interval_us,
    {
        let r = Scheduler { stations: Vec::new(), last_tick_us: start_us, interval_us };
        assert(r.stations() =~= Seq::<StationModel>::empty());
        r
    }

    /// Index of the station called `name`.
    fn find(&self, name: &String) -> (r: Option<usize>)
        ensures
            r is Some <==> position_of(self.stations(), name@) is Some,
            r is Some ==> r->Some_0 == position_of(self.stations(), name@)->Some_0,
            r is Some ==> r->Some_0 < self.stations@.len(),
    {
        let mut i = self.stations.len();
        assert(self.stations().take(i as int) =~= self.stations());
        while i > 0
            invariant
                i <= self.stations@.len(),
                position_of(self.stations(), name@) == position_of(
                    self.stations().take(i as int),
                    name@,
                ),
            decreases i,
        {
            assert(self.stations().take(i as int).drop_last() =~= self.stations().take(
                i as int - 1,
            ));
            if self.stations[i - 1].name == *name {
                return Some(i - 1);
            }
            i = i - 1;
        }
        None
    }

    /// A well-formed registry has no two stations of one name, as
    /// `lemma_remove_keeps_others` asks.
    pub proof fn lemma_wf_names(&self)
        requires
            self.wf(),
        ensures
            forall|i: int, j: int|
                0 <= i < j < self.stations().len() ==> #[trigger] self.stations()[i].name
                    != #[trigger] self.stations()[j].name,
    {
        assert forall|i: int, j: int|
            0 <= i < j < self.stations().len() implies #[trigger] self.stations()[i].name
            != #[trigger] self.stations()[j].name by {
            assert(self.stations@[i].name@ != self.stations@[j].name@);
        }
    }

    /// Removing station `gone` from a well-formed registry leaves station
    /// `other` where it can be found, with the same playlist and flag.
    pub proof fn lemma_remove_radio_keeps_others(&self, gone: Seq<char>, other: Seq<char>)
        requires
            self.wf(),
            gone != other,
        ensures
            position_of(applied(self.stations(), CommandModel::RemoveRadio { radio: gone }), other)
                is Some <==> position_of(self.stations(), other) is Some,
            position_of(self.stations(), other) is Some ==> {
                let after = applied(self.stations(), CommandModel::RemoveRadio { radio: gone });
                after[position_of(after, other)->Some_0] == self.stations()[position_of(
                    self.stations(),
                    other,
                )->Some_0]
            },
    {
        self.lemma_wf_names();
        lemma_remove_keeps_others(self.stations(), gone, other);
    }

    /// Add a station called `name` with an empty playlist; a station of that
    /// name is reset.
    pub fn add_radio(&mut self, name: String)
        requires
            old(self).wf(),
        ensures
            final(self).wf(),
            final(self).stations() == applied(
                old(self).stations(),
                CommandModel::AddRadio { radio: name@ },
            ),
            final(self).last_tick() == old(self).last_tick(),
            final(self).interval() == old(self).interval(),
    {
        proof { lemma_position_of(self.stations(), name@); }
        let ghost old_stations = self.stations();
        let station = Station { name: name.clone(), order: Vec::new(), new_song: true };
        assert(station.model() == fresh_station(name@)) by {
            assert(station.model().order =~= Seq::<u8>::empty());
        }
        match self.find(&name) {
            Some(i) => {
                let ghost before = self.stations@;
                self.stations.set(i, station);
                assert(self.stations() =~= old_stations.update(i as int, fresh_station(name@)));
                assert(before[i as int].name@ == name@) by {
                    assert(old_stations[i as int].name == before[i as int].name@);
                }
                assert(forall|k: int| 0 <= k < self.stations@.len() ==> #[trigger] self.stations@[k].name@ == before[k].name@);
            },
            None => {
                let ghost before = self.stations@;
                assert(forall|k: int| 0 <= k < before.len() ==> #[trigger] before[k].name@ != name@) by {
                    assert forall|k: int| 0 <= k < before.len() implies #[trigger] before[k].name@ != name@ by {
                        assert(old_stations[k].name == before[k].name@);
                    }
                }
                self.stations.push(station);
                assert(self.stations() =~= old_stations.push(fresh_station(name@)));
            },
        }
    }

    /// Remove the station called `name`; false when there is none.
    pub fn remove_radio(&mut self, name: &String) -> (r: bool)
        requires
            old(self).wf(),
        ensures
            final(self).wf(),
            r == (position_of(old(self).stations(), name@) is Some),
            final(self).stations() == applied(
                old(self).stations(),
                CommandModel::RemoveRadio { radio: name@ },
            ),
            final(self).last_tick() == old(self).last_tick(),
            final(self).interval() == old(self).interval(),
    {
        let ghost old_stations = self.stations();
        match self.find(name) {
            Some(i) => {
                self.stations.remove(i);
                assert(self.stations() =~= old_stations.remove(i as int));
                true
            },
            None => false,
        }
    }

    /// Set the playlist order of the station called `name` and flag a song
    /// change; false when there is no such station.
    pub fn set_order(&mut self, name: &String, order: Vec<u8>) -> (r: bool)
        requires
            old(self).wf(),
        ensures
            final(self).wf(),
            r == (position_of(old(self).stations(), name@) is Some),
            final(self).stations() == applied(
                old(self).stations(),
                CommandModel::Order { radio: name@, order: order@ },
            ),
            final(self).last_tick() == old(self).last_tick(),
            final(self).interval() == old(self).interval(),
    {
        proof { lemma_position_of(self.stations(), name@); }
        let ghost old_stations = self.stations();
        let ghost ord = order@;
        match self.find(name) {
            Some(i) => {
                let station = Station { name: name.clone(), order, new_song: true };
                self.stations.set(i, station);
                assert(self.stations() =~= old_stations.update(
                    i as int,
                    StationModel { name: name@, order: ord, new_song: true },
                ));
                true
            },
            None => false,
        }
    }

    /// Remove song `song` from the playlist of the station called `name`;
    /// false when there is no such station.
    pub fn remove_song(&mut self, name: &String, song: u8) -> (r: bool)
        requires
            old(self).wf(),
        ensures
            final(self).wf(),
            r == (position_of(old(self).stations(), name@) is Some),
            final(self).stations() == applied(
                old(self).stations(),
                CommandModel::Remove { radio: name@, song },
            ),
            final(self).last_tick() == old(self).last_tick(),
            final(self).interval() == old(self).interval(),
    {
        proof { lemma_position_of(self.stations(), name@); }
        let ghost old_stations = self.stations();
        match self.find(name) {
            Some(i) => {
                let old_order = &self.stations[i].order;
                let ghost src = old_order@;
                let mut kept: Vec<u8> = Vec::new();
                let mut k: usize = 0;
                while k < old_order.len()
                    invariant
                        k <= src.len(),
                        old_order@ == src,
                        kept@ == src.take(k as int).filter(|x: u8| x != song),
                    decreases src.len() - k,
                {
                    proof {
                        reveal(Seq::filter);
                        assert(src.take(k as int + 1).drop_last() =~= src.take(k as int));
                    }
                    if old_order[k] != song {
                        kept.push(old_order[k]);
                    }
                    k = k + 1;
                }
                assert(src.take(src.len() as int) =~= src);
                let station = Station {
                    name: self.stations[i].name.clone(),
                    order: kept,
                    new_song: self.stations[i].new_song,
                };
                self.stations.set(i, station);
                assert(self.stations() =~= old_stations.update(
                    i as int,
                    StationModel {
                        order: old_stations[i as int].order.filter(|x: u8| x != song),
                        ..old_stations[i as int]
                    },
                ));
                true
            },
            None => false,
        }
    }

    /// Apply an administrative command to the registry. On success, returns the
    /// storage effect that the caller must carry out.
    pub fn apply(&mut self, cmd: Command) -> (r: Result<Option<Effect>, CommandError>)
        requires
            old(self).wf(),
        ensures
            final(self).wf(),
            r is Ok <==> command_ok(old(self).stations(), cmd.model()),
            final(self).stations() == applied(old(self).stations(), cmd.model()),
            r is Ok ==> (r->Ok_0 is Some <==> effect_of(cmd.model()) is Some),
            r is Ok && r->Ok_0 is Some ==> r->Ok_0->Some_0.model() == effect_of(
                cmd.model(),
            )->Some_0,
            final(self).last_tick() == old(self).last_tick(),
            final(self).interval() == old(self).interval(),
    {
        match cmd {
            Command::Upload { radio, song, ext, data } => {
                let hint = format_hint(ext.as_str());
                Ok(Some(Effect::Ingest { radio, song, hint, data }))
            },
            Command::Order { radio, order } => {
                if self.set_order(&radio, order) {
                    Ok(None)
                } else {
                    Err(CommandError::NoSuchStation)
                }
            },
            Command::Remove { radio, song } => {
                if self.remove_song(&radio, song) {
                    Ok(Some(Effect::RemoveSongDir { radio, song }))
                } else {
                    Err(CommandError::NoSuchStation)
                }
            },
            Command::RemoveRadio { radio } => {
                if self.remove_radio(&radio) {
                    Ok(Some(Effect::RemoveStationDir { radio }))
                } else {
                    Err(CommandError::NoSuchStation)
                }
            },
            Command::AddRadio { radio } => {
                self.add_radio(radio.clone());
                Ok(Some(Effect::CreateStationDir { radio }))
            },
        }
    }

    /// Whether a tick is due at `now_us`; if so, the clock advances by exactly
    /// one interval (saturating at the largest time).
    pub fn poll_tick(&mut self, now_us: u64) -> (r: bool)
        ensures
            r == tick_is_due(old(self).last_tick(), now_us, old(self).interval()),
            final(self).last_tick() == if r {
                if old(self).last_tick() + old(self).interval() <= u64::MAX {
                    (old(self).last_tick() + old(self).interval()) as u64
                } else {
                    u64::MAX
                }
            } else {
                old(self).last_tick()
            },
            final(self).interval() == old(self).interval(),
            final(self).stations() == old(self).stations(),
            final(self).wf() == old(self).wf(),
    {
        let threshold = self.interval_us - self.interval_us / 2;
        if now_us > self.last_tick_us && now_us - self.last_tick_us > threshold {
            self.last_tick_us = self.last_tick_us.saturating_add(self.interval_us);
            true
        } else {
            false
        }
    }

    /// Names of the stations, in registry order.
    pub fn station_names(&self) -> (r: Vec<String>)
        ensures
            r@.len() == self.stations().len(),
            forall|k: int| 0 <= k < r@.len() ==> #[trigger] r@[k]@ == self.stations()[k].name,
    {
        let mut out: Vec<String> = Vec::new();
        let mut k: usize = 0;
        while k < self.stations.len()
            invariant
                k <= self.stations@.len(),
                out@.len() == k,
                forall|j: int| 0 <= j < k ==> #[trigger] out@[j]@ == self.stations()[j].name,
            decreases self.stations@.len() - k,
        {
            out.push(self.stations[k].name.clone());
            k = k + 1;
        }
        out
    }

    /// The playlist order of the station called `name`.
    pub fn station_order(&self, name: &String) -> (r: Option<Vec<u8>>)
        ensures
            r is Some <==> position_of(self.stations(), name@) is Some,
            r is Some ==> r->Some_0@ == self.stations()[position_of(
                self.stations(),
                name@,
            )->Some_0].order,
    {
        match self.find(name) {
            Some(i) => Some(self.stations[i].order.clone()),
            None => None,
        }
    }

    /// Decide what the station called `name` does on this tick, given its
    /// playlist as song id and duration (milliseconds) in playlist order and the
    /// milliseconds since start. A position at the start of a song flags a
    /// codec reset, which stays flagged until a recode succeeds.
    pub fn plan_tick(&mut self, name: &String, lens: &Vec<(u8, u64)>, elapsed_ms: u64) -> (r:
        Option<TickPlan>)
        requires
            old(self).wf(),
        ensures
            final(self).wf(),
            r is Some <==> position_of(old(self).stations(), name@) is Some,
            r is Some ==> {
                let i = position_of(old(self).stations(), name@)->Some_0;
                let (plan, flag) = plan_of(
                    resolve_spec(lens@, elapsed_ms as nat),
                    old(self).stations()[i].new_song,
                );
                &&& r->Some_0 == plan
                &&& final(self).stations() == old(self).stations().update(
                    i,
                    StationModel { new_song: flag, ..old(self).stations()[i] },
                )
            },
            r is None ==> final(self).stations() == old(self).stations(),
            final(self).last_tick() == old(self).last_tick(),
            final(self).interval() == old(self).interval(),
    {
        proof { lemma_position_of(self.stations(), name@); }
        let ghost old_stations = self.stations();
        match self.find(name) {
            Some(i) => {
                let pos = resolve(lens, elapsed_ms);
                match pos {
                    None => {
                        assert(old_stations.update(
                            i as int,
                            StationModel { new_song: old_stations[i as int].new_song, ..old_stations[i as int] },
                        ) =~= old_stations);
                        Some(TickPlan::Silence)
                    },
                    Some(p) => {
                        let flag = self.stations[i].new_song || p.chunk == 0;
                        let station = Station {
                            name: self.stations[i].name.clone(),
                            order: self.stations[i].order.clone(),
                            new_song: flag,
                        };
                        self.stations.set(i, station);
                        assert(self.stations() =~= old_stations.update(
                            i as int,
                            StationModel { new_song: flag, ..old_stations[i as int] },
                        ));
                        Some(TickPlan::Recode { song: p.song, chunk: p.chunk, reset: flag })
                    },
                }
            },
            None => None,
        }
    }

    /// Record that the station called `name` recoded successfully: its codec
    /// state now follows the current song. False when there is no such station.
    pub fn recoded(&mut self, name: &String) -> (r: bool)
        requires
            old(self).wf(),
        ensures
            final(self).wf(),
            r == (position_of(old(self).stations(), name@) is Some),
            r ==> {
                let i = position_of(old(self).stations(), name@)->Some_0;
                final(self).stations() == old(self).stations().update(
                    i,
                    StationModel { new_song: false, ..old(self).stations()[i] },
                )
            },
            !r ==> final(self).stations() == old(self).stations(),
            final(self).last_tick() == old(self).last_tick(),
            final(self).interval() == old(self).interval(),
    {
        proof { lemma_position_of(self.stations(), name@); }
        let ghost old_stations = self.stations();
        match self.find(name) {
            Some(i) => {
                let station = Station {
                    name: self.stations[i].name.clone(),
                    order: self.stations[i].order.clone(),
                    new_song: false,
                };
                self.stations.set(i, station);
                assert(self.stations() =~= old_stations.update(
                    i as int,
                    StationModel { new_song: false, ..old_stations[i as int] },
                ));
                true
            },
            None => false,
        }
    }
}

} // verus!
