//! What the web side keeps of a station: its sanitised description, its song
//! names and ids, and the errors its pages report.
use vstd::prelude::*;

verus! {

/// The HTML that ammonia's default policy keeps of `s`.
pub uninterp spec fn sanitized(s: Seq<char>) -> Seq<char>;

/// Relies on `ammonia::clean`: the text with its HTML reduced to ammonia's
/// default safe subset; the result depends on the input alone.
#[verifier::external_body]
fn clean_html(s: &str) -> (r: String)
    ensures
        r@ == sanitized(s@),
{
    ammonia::clean(s)
}

/// A station's title and description as sent by an administrator.
pub struct SentConfig {
    pub title: String,
    pub description: String,
}

/// Changes to a station's title and description; `None` keeps a field.
pub struct PartialConfig {
    pub title: Option<String>,
    pub description: Option<String>,
}

/// A station's title and description, sanitised for display.
pub struct Config {
    title: String,
    description: String,
}

impl Config {
    pub closed spec fn title_text(&self) -> Seq<char> {
        self.title@
    }

    pub closed spec fn description_text(&self) -> Seq<char> {
        self.description@
    }

    /// Sanitise a configuration sent by an administrator.
    pub fn from_sent(sent: &SentConfig) -> (r: Config)
        ensures
            r.title_text() == sanitized(sent.title@),
            r.description_text() == sanitized(sent.description@),
    {
        Config {
            title: clean_html(sent.title.as_str()),
            description: clean_html(sent.description.as_str()),
        }
    }

    /// Apply the fields that a partial configuration sets, sanitised.
    pub fn apply(&mut self, partial: &PartialConfig)
        ensures
            final(self).title_text() == match partial.title {
                Some(t) => sanitized(t@),
                None => old(self).title_text(),
            },
            final(self).description_text() == match partial.description {
                Some(d) => sanitized(d@),
                None => old(self).description_text(),
            },
    {
        if let Some(t) = &partial.title {
            self.title = clean_html(t.as_str());
        }
        if let Some(d) = &partial.description {
            self.description = clean_html(d.as_str());
        }
    }

    /// The sanitised title.
    pub fn title(&self) -> (r: String)
        ensures
            r@ == self.title_text(),
    {
        self.title.clone()
    }

    /// The sanitised description.
    pub fn description(&self) -> (r: String)
        ensures
            r@ == self.description_text(),
    {
        self.description.clone()
    }

    /// The configuration as it is saved: the sanitised texts.
    pub fn to_sent(&self) -> (r: SentConfig)
        ensures
            r.title@ == self.title_text(),
            r.description@ == self.description_text(),
    {
        SentConfig { title: self.title.clone(), description: self.description.clone() }
    }
}

/// The saved state of one station: configuration, song names with their ids,
/// and the playlist as song names.
pub struct PersistentRadioState {
    pub config: SentConfig,
    pub song_map: Vec<(String, u8)>,
    pub song_order: Vec<String>,
}

/// No song name appears twice in `songs`, as in the map it stands for.
pub open spec fn names_unique(songs: Seq<(String, u8)>) -> bool {
    forall|i: int, j: int|
        0 <= i < j < songs.len() ==> #[trigger] songs[i].0@ != #[trigger] songs[j].0@
}

impl PersistentRadioState {
    /// Its song names are unique, so each names one id.
    pub open spec fn wf(&self) -> bool {
        names_unique(self.song_map@)
    }
}

/// With unique names, the id `song_id` finds for a name is the id stored with
/// it, wherever it stands.
pub proof fn lemma_song_id_unique(songs: Seq<(String, u8)>, k: int)
    requires
        names_unique(songs),
        0 <= k < songs.len(),
    ensures
        song_id(songs, songs[k].0@) == Some(songs[k].1),
    decreases songs.len(),
{
    if k > 0 {
        let rest = songs.skip(1);
        assert(names_unique(rest)) by {
            assert forall|i: int, j: int| 0 <= i < j < rest.len() implies #[trigger] rest[i].0@
                != #[trigger] rest[j].0@ by {
                assert(rest[i] == songs[i + 1] && rest[j] == songs[j + 1]);
            }
        }
        assert(rest[k - 1] == songs[k]);
        assert(songs[0].0@ != songs[k].0@);
        lemma_song_id_unique(rest, k - 1);
    }
}

/// The saved state of every station, by name.
pub struct PersistentAppState {
    pub radio_states: Vec<(String, PersistentRadioState)>,
}

/// The bearer token of a request, if it carried one.
pub struct Token(pub Option<String>);

impl Token {
    pub fn into_inner(self) -> (r: Option<String>)
        ensures
            r == self.0,
    {
        self.0
    }
}

/// Errors the pages report.
#[derive(Clone, Copy, Debug, PartialEq, Eq, Structural)]
pub enum PageError {
    NotFound,
    InternalError,
    MultipartError,
    ResourceNotFound,
    UnsupportedFileType,
    AuthError,
}

impl PageError {
    /// The HTTP status code of the error.
    pub fn status_code(&self) -> (r: u16)
        ensures
            r == match self {
                PageError::NotFound => 404u16,
                PageError::InternalError => 500u16,
                _ => 400u16,
            },
    {
        match self {
            PageError::NotFound => 404,
            PageError::InternalError => 500,
            PageError::MultipartError => 400,
            PageError::ResourceNotFound => 400,
            PageError::UnsupportedFileType => 400,
            PageError::AuthError => 400,
        }
    }

    /// The text shown for the error.
    pub fn message(&self) -> (r: &'static str)
        ensures
            r@ == match self {
                PageError::NotFound => "Couldn't find Page"@,
                PageError::InternalError => "Internal server error"@,
                PageError::MultipartError => "Error handling multipart data"@,
                PageError::ResourceNotFound => "Resource doesn't exist"@,
                PageError::UnsupportedFileType => "File type is unsupported"@,
                PageError::AuthError => "Authentication error"@,
            },
    {
        match self {
            PageError::NotFound => "Couldn't find Page",
            PageError::InternalError => "Internal server error",
            PageError::MultipartError => "Error handling multipart data",
            PageError::ResourceNotFound => "Resource doesn't exist",
            PageError::UnsupportedFileType => "File type is unsupported",
            PageError::AuthError => "Authentication error",
        }
    }
}

/// The smallest song id that `ids` does not use; `None` when all are used.
pub fn lowest_free_id(ids: &Vec<u8>) -> (r: Option<u8>)
    ensures
        r is Some ==> !ids@.contains(r->Some_0) && forall|v: u8| v < r->Some_0 ==> ids@.contains(v),
        r is None ==> forall|v: u8| ids@.contains(v),
{
    let mut c: u16 = 0;
    while c < 256
        invariant
            c <= 256,
            forall|v: u8| (v as u16) < c ==> ids@.contains(v),
        decreases 256 - c,
    {
        let candidate = c as u8;
        let mut used = false;
        let mut k: usize = 0;
        while k < ids.len()
            invariant
                k <= ids@.len(),
                used == (exists|j: int| 0 <= j < k && ids@[j] == candidate),
            decreases ids@.len() - k,
        {
            if ids[k] == candidate {
                used = true;
            }
            k = k + 1;
        }
        if !used {
            return Some(candidate);
        }
        c = c + 1;
    }
    None
}

/// Index of the last `.` in `s`, if any.
pub open spec fn last_dot(s: Seq<char>) -> Option<int>
    decreases s.len(),
{
    if s.len() == 0 {
        None
    } else if s.last() == '.' {
        Some(s.len() - 1)
    } else {
        last_dot(s.drop_last())
    }
}

proof fn lemma_last_dot(s: Seq<char>)
    ensures
        last_dot(s) is Some ==> 0 <= last_dot(s)->Some_0 < s.len(),
    decreases s.len(),
{
    if s.len() > 0 {
        lemma_last_dot(s.drop_last());
    }
}

/// The extension of an uploaded file's name: the text from its last `.` on;
/// `None` when the name has no `.`.
pub fn upload_extension(name: &str) -> (r: Option<String>)
    ensures
        r is Some <==> last_dot(name@) is Some,
        r is Some ==> r->Some_0@ == name@.skip(last_dot(name@)->Some_0),
{
    let n = name.unicode_len();
    let mut i = n;
    assert(name@.take(n as int) =~= name@);
    while i > 0
        invariant
            i <= n == name@.len(),
            last_dot(name@) == last_dot(name@.take(i as int)),
        decreases i,
    {
        assert(name@.take(i as int).drop_last() =~= name@.take(i as int - 1));
        if name.get_char(i - 1) == '.' {
            let ext = name.substring_char(i - 1, n);
            assert(ext@ =~= name@.skip(i - 1));
            return Some(String::from_str(ext));
        }
        i = i - 1;
    }
    None
}

/// The id of the song called `name` in `songs`, the first entry of that name.
pub open spec fn song_id(songs: Seq<(String, u8)>, name: Seq<char>) -> Option<u8>
    decreases songs.len(),
{
    if songs.len() == 0 {
        None
    } else if songs[0].0@ == name {
        Some(songs[0].1)
    } else {
        song_id(songs.skip(1), name)
    }
}

/// The ids of the songs named in `order`, or `None` when one is unknown.
pub open spec fn order_ids_spec(order: Seq<String>, songs: Seq<(String, u8)>) -> Option<Seq<u8>>
    decreases order.len(),
{
    if order.len() == 0 {
        Some(Seq::empty())
    } else {
        match (order_ids_spec(order.drop_last(), songs), song_id(songs, order.last()@)) {
            (Some(ids), Some(id)) => Some(ids.push(id)),
            _ => None,
        }
    }
}

/// Look up the id of the song called `name`.
pub fn find_song(songs: &Vec<(String, u8)>, name: &String) -> (r: Option<u8>)
    ensures
        r == song_id(songs@, name@),
{
    let mut k: usize = 0;
    assert(songs@.skip(0) =~= songs@);
    while k < songs.len()
        invariant
            k <= songs@.len(),
            song_id(songs@, name@) == song_id(songs@.skip(k as int), name@),
        decreases songs@.len() - k,
    {
        assert(songs@.skip(k as int).skip(1) =~= songs@.skip(k as int + 1));
        if songs[k].0 == *name {
            return Some(songs[k].1);
        }
        k = k + 1;
    }
    None
}

/// The ids of the songs named in `order`, in that order; `None` when a name is
/// not among `songs`.
pub fn order_ids(order: &Vec<String>, songs: &Vec<(String, u8)>) -> (r: Option<Vec<u8>>)
    ensures
        r is Some <==> order_ids_spec(order@, songs@) is Some,
        r is Some ==> r->Some_0@ == order_ids_spec(order@, songs@)->Some_0,
{
    let mut ids: Vec<u8> = Vec::new();
    let mut k: usize = 0;
    while k < order.len()
        invariant
            k <= order@.len(),
            order_ids_spec(order@.take(k as int), songs@) == Some(ids@),
        decreases order@.len() - k,
    {
        assert(order@.take(k as int + 1).drop_last() =~= order@.take(k as int));
        match find_song(songs, &order[k]) {
            Some(id) => ids.push(id),
            None => {
                proof { lemma_order_ids_prefix(order@, songs@, k as int + 1); }
                return None;
            },
        }
        k = k + 1;
    }
    assert(order@.take(order@.len() as int) =~= order@);
    Some(ids)
}

proof fn lemma_order_ids_prefix(order: Seq<String>, songs: Seq<(String, u8)>, i: int)
    requires
        0 <= i <= order.len(),
        order_ids_spec(order.take(i), songs) is None,
    ensures
        order_ids_spec(order, songs) is None,
    decreases order.len(),
{
    if i < order.len() {
        assert(order.drop_last().take(i) =~= order.take(i));
        lemma_order_ids_prefix(order.drop_last(), songs, i);
    } else {
        assert(order.take(i) =~= order);
    }
}

/// The ids of the songs named in `order` that `songs` knows, in that order;
/// unknown names are skipped.
pub open spec fn known_ids_spec(order: Seq<String>, songs: Seq<(String, u8)>) -> Seq<u8>
    decreases order.len(),
{
    if order.len() == 0 {
        Seq::empty()
    } else {
        let ids = known_ids_spec(order.drop_last(), songs);
        match song_id(songs, order.last()@) {
            Some(id) => ids.push(id),
            None => ids,
        }
    }
}

/// The playlist of ids for a saved station: its named order, skipping names
/// that no longer have a song.
pub fn known_ids(order: &Vec<String>, songs: &Vec<(String, u8)>) -> (r: Vec<u8>)
    ensures
        r@ == known_ids_spec(order@, songs@),
{
    let mut ids: Vec<u8> = Vec::new();
    let mut k: usize = 0;
    while k < order.len()
        invariant
            k <= order@.len(),
            known_ids_spec(order@.take(k as int), songs@) == ids@,
        decreases order@.len() - k,
    {
        assert(order@.take(k as int + 1).drop_last() =~= order@.take(k as int));
        if let Some(id) = find_song(songs, &order[k]) {
            ids.push(id);
        }
        k = k + 1;
    }
    assert(order@.take(order@.len() as int) =~= order@);
    ids
}

} // verus!
