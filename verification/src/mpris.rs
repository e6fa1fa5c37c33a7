//! The MPRIS player state and method policy: which remote commands are
//! accepted and queued, and what each property reads. The D-Bus transport
//! stays outside.
use vstd::prelude::*;
use std::collections::VecDeque;
use crate::cli::spells;
use crate::text::{chars_of, string_of};

verus! {

/// The object path of the one track this player exposes.
pub const TRACK_ID: &'static str = "/com/github/undefined_player/track/1";

/// At most this many remote commands wait to be taken.
pub const COMMAND_CAPACITY: usize = 16;

/// A remote command for the playback loop.
#[derive(Debug, PartialEq, Eq, Structural, Clone, Copy)]
pub enum MprisCommand {
    Quit,
    Play,
    Pause,
    PlayPause,
    Stop,
    Seek(i64),
    SetPosition(i64),
    NextChapter,
    PreviousChapter,
}

/// What the player is doing.
#[derive(Debug, PartialEq, Eq, Structural, Clone, Copy)]
pub enum PlaybackStatus {
    Playing,
    Paused,
    Stopped,
}

impl PlaybackStatus {
    /// The MPRIS name of the status.
    pub fn name(self) -> (r: &'static str)
        ensures
            r@ == status_name(self),
    {
        match self {
            PlaybackStatus::Playing => "Playing",
            PlaybackStatus::Paused => "Paused",
            PlaybackStatus::Stopped => "Stopped",
        }
    }
}

pub open spec fn status_name(status: PlaybackStatus) -> Seq<char> {
    match status {
        PlaybackStatus::Playing => "Playing"@,
        PlaybackStatus::Paused => "Paused"@,
        PlaybackStatus::Stopped => "Stopped"@,
    }
}

/// The command that method `method` asks for: `Quit` on the root interface;
/// the transport methods on the player interface, `SetPosition` only for this
/// player's track. Other calls are ignored.
pub open spec fn command_spec(root: bool, method: Seq<u8>, own_track: bool, value: i64) -> Option<
    MprisCommand,
> {
    if root {
        if spells(method, "Quit"@) {
            Some(MprisCommand::Quit)
        } else {
            None
        }
    } else if spells(method, "Play"@) {
        Some(MprisCommand::Play)
    } else if spells(method, "Pause"@) {
        Some(MprisCommand::Pause)
    } else if spells(method, "PlayPause"@) {
        Some(MprisCommand::PlayPause)
    } else if spells(method, "Stop"@) {
        Some(MprisCommand::Stop)
    } else if spells(method, "Next"@) {
        Some(MprisCommand::NextChapter)
    } else if spells(method, "Previous"@) {
        Some(MprisCommand::PreviousChapter)
    } else if spells(method, "Seek"@) {
        Some(MprisCommand::Seek(value))
    } else if spells(method, "SetPosition"@) && own_track {
        Some(MprisCommand::SetPosition(value))
    } else {
        None
    }
}

/// The queue after `command` arrives: the oldest command makes room when the
/// queue is full.
pub open spec fn enqueue(queue: Seq<MprisCommand>, command: MprisCommand) -> Seq<MprisCommand> {
    if queue.len() == COMMAND_CAPACITY {
        queue.drop_first().push(command)
    } else {
        queue.push(command)
    }
}

/// A property value as the transport sends it.
pub enum MprisValue<'a> {
    Bool(bool),
    Text(&'a str),
    EmptyStrings,
    Real(i64),
    Int64(i64),
    Metadata {
        track_id: &'a str,
        title: &'a str,
        artist: Option<&'a str>,
        art_uri: Option<&'a str>,
        uri: Option<&'a str>,
        duration_us: i64,
    },
}

/// A property value as plain text and numbers.
pub enum ValueView {
    Bool(bool),
    Text(Seq<char>),
    EmptyStrings,
    Real(int),
    Int64(int),
    Metadata {
        track_id: Seq<char>,
        title: Seq<char>,
        artist: Option<Seq<char>>,
        art_uri: Option<Seq<char>>,
        uri: Option<Seq<char>>,
        duration_us: int,
    },
}

pub open spec fn opt_view(o: Option<&str>) -> Option<Seq<char>> {
    match o {
        Some(s) => Some(s@),
        None => None,
    }
}

pub open spec fn opt_string_view(o: Option<String>) -> Option<Seq<char>> {
    match o {
        Some(s) => Some(s@),
        None => None,
    }
}

pub open spec fn value_view(v: MprisValue) -> ValueView {
    match v {
        MprisValue::Bool(b) => ValueView::Bool(b),
        MprisValue::Text(t) => ValueView::Text(t@),
        MprisValue::EmptyStrings => ValueView::EmptyStrings,
        MprisValue::Real(r) => ValueView::Real(r as int),
        MprisValue::Int64(i) => ValueView::Int64(i as int),
        MprisValue::Metadata { track_id, title, artist, art_uri, uri, duration_us } => ValueView::Metadata {
            track_id: track_id@,
            title: title@,
            artist: opt_view(artist),
            art_uri: opt_view(art_uri),
            uri: opt_view(uri),
            duration_us: duration_us as int,
        },
    }
}

/// What the player tells about itself: remote control is possible but no
/// fullscreen, raising, track list, shuffle, or URIs to open; rates and
/// volume are fixed at one.
pub open spec fn property_spec(state: &State, root: bool, name: Seq<u8>) -> Option<ValueView> {
    if root {
        if spells(name, "CanQuit"@) {
            Some(ValueView::Bool(true))
        } else if (spells(name, "Fullscreen"@) || spells(name, "CanSetFullscreen"@) || spells(name, "CanRaise"@)
            || spells(name, "HasTrackList"@)) {
            Some(ValueView::Bool(false))
        } else if spells(name, "Identity"@) {
            Some(ValueView::Text("Undefined Player"@))
        } else if spells(name, "DesktopEntry"@) {
            Some(ValueView::Text("undefined-player"@))
        } else if (spells(name, "SupportedUriSchemes"@) || spells(name, "SupportedMimeTypes"@)) {
            Some(ValueView::EmptyStrings)
        } else {
            None
        }
    } else if (spells(name, "CanPlay"@) || spells(name, "CanPause"@) || spells(name, "CanSeek"@) || spells(
        name,
        "CanControl"@,
    )) {
        Some(ValueView::Bool(true))
    } else if spells(name, "Shuffle"@) {
        Some(ValueView::Bool(false))
    } else if spells(name, "CanGoNext"@) {
        Some(ValueView::Bool(state.can_next))
    } else if spells(name, "CanGoPrevious"@) {
        Some(ValueView::Bool(state.can_previous))
    } else if spells(name, "PlaybackStatus"@) {
        Some(ValueView::Text(status_name(state.status)))
    } else if spells(name, "LoopStatus"@) {
        Some(ValueView::Text("None"@))
    } else if (spells(name, "Rate"@) || spells(name, "Volume"@) || spells(name, "MinimumRate"@) || spells(
        name,
        "MaximumRate"@,
    )) {
        Some(ValueView::Real(1))
    } else if spells(name, "Position"@) {
        Some(ValueView::Int64(state.position_us as int))
    } else if spells(name, "Metadata"@) {
        Some(
            ValueView::Metadata {
                track_id: TRACK_ID@,
                title: state.title@,
                artist: opt_string_view(state.artist),
                art_uri: opt_string_view(state.art_uri),
                uri: opt_string_view(state.uri),
                duration_us: state.duration_us as int,
            },
        )
    } else {
        None
    }
}

/// The player state that remote clients read and the commands they sent.
pub struct State {
    pub title: String,
    pub artist: Option<String>,
    pub art_uri: Option<String>,
    pub can_previous: bool,
    pub can_next: bool,
    pub uri: Option<String>,
    pub duration_us: i64,
    pub position_us: i64,
    pub status: PlaybackStatus,
    pub commands: VecDeque<MprisCommand>,
}

/// `a` and `b` describe the same media: title, artist, art, URI and duration.
pub open spec fn same_media(a: State, b: State) -> bool {
    &&& a.title == b.title
    &&& a.artist == b.artist
    &&& a.art_uri == b.art_uri
    &&& a.uri == b.uri
    &&& a.duration_us == b.duration_us
}

/// `bytes` spell the ASCII text `name`.
fn is_name(bytes: &[u8], name: &str) -> (r: bool)
    ensures
        r == spells(bytes@, name@),
{
    let chars = chars_of(name);
    if bytes.len() != chars.len() {
        return false;
    }
    let mut i: usize = 0;
    while i < bytes.len()
        invariant
            0 <= i <= bytes@.len(),
            bytes@.len() == chars@.len(),
            chars@ == name@,
            forall|j: int| 0 <= j < i ==> bytes@[j] as u32 == #[trigger] name@[j] as u32,
        decreases bytes@.len() - i,
    {
        if bytes[i] as u32 != chars[i] as u32 {
            return false;
        }
        i = i + 1;
    }
    true
}

fn text(s: &str) -> (r: String)
    ensures
        r@ == s@,
{
    string_of(chars_of(s).as_slice())
}

impl State {
    /// The state of a newly opened media file: playing from the start, an
    /// empty title shown as "Unknown media", an empty artist left out, and a
    /// negative duration taken as zero.
    pub fn new(title: &str, artist: Option<&str>, uri: Option<String>, duration_us: i64) -> (r: Self)
        ensures
            r.title@ == (if title@.len() == 0 { "Unknown media"@ } else { title@ }),
            opt_string_view(r.artist) == (match artist {
                Some(a) => if a@.len() == 0 { None } else { Some(a@) },
                None => None,
            }),
            r.art_uri is None,
            !r.can_previous,
            !r.can_next,
            r.uri == uri,
            r.duration_us == (if duration_us < 0 { 0 } else { duration_us }),
            r.position_us == 0,
            r.status == PlaybackStatus::Playing,
            r.commands@.len() == 0,
    {
        let title = if title.is_empty() { text("Unknown media") } else { text(title) };
        let artist = match artist {
            Some(a) => if a.is_empty() { None } else { Some(text(a)) },
            None => None,
        };
        State {
            title,
            artist,
            art_uri: None,
            can_previous: false,
            can_next: false,
            uri,
            duration_us: if duration_us < 0 { 0 } else { duration_us },
            position_us: 0,
            status: PlaybackStatus::Playing,
            commands: VecDeque::new(),
        }
    }

    /// Queues the command that a remote method call asks for, if any.
    /// `track_id` is the track path argument of `SetPosition`.
    pub fn command(&mut self, root: bool, method: &[u8], track_id: Option<&[u8]>, value: i64)
        requires
            old(self).commands@.len() <= COMMAND_CAPACITY,
        ensures
            final(self).commands@.len() <= COMMAND_CAPACITY,
            final(self).commands@ == match command_spec(
                root,
                method@,
                track_id matches Some(t) && spells(t@, TRACK_ID@),
                value,
            ) {
                Some(c) => enqueue(old(self).commands@, c),
                None => old(self).commands@,
            },
            same_media(*final(self), *old(self)),
            final(self).position_us == old(self).position_us,
            final(self).status == old(self).status,
            final(self).can_previous == old(self).can_previous,
            final(self).can_next == old(self).can_next,
    {
        proof {
            reveal_strlit("Quit");
            reveal_strlit("Play");
        }
        let own_track = match track_id {
            Some(t) => is_name(t, TRACK_ID),
            None => false,
        };
        let command = if root {
            if is_name(method, "Quit") {
                MprisCommand::Quit
            } else {
                return;
            }
        } else if is_name(method, "Play") {
            MprisCommand::Play
        } else if is_name(method, "Pause") {
            MprisCommand::Pause
        } else if is_name(method, "PlayPause") {
            MprisCommand::PlayPause
        } else if is_name(method, "Stop") {
            MprisCommand::Stop
        } else if is_name(method, "Next") {
            MprisCommand::NextChapter
        } else if is_name(method, "Previous") {
            MprisCommand::PreviousChapter
        } else if is_name(method, "Seek") {
            MprisCommand::Seek(value)
        } else if is_name(method, "SetPosition") && own_track {
            MprisCommand::SetPosition(value)
        } else {
            return;
        };
        if self.commands.len() == COMMAND_CAPACITY {
            let _ = self.commands.pop_front();
        }
        self.commands.push_back(command);
    }

    /// The value of property `name` of the root (`root`) or player interface,
    /// if there is such a property.
    pub fn property(&self, root: bool, name: &[u8]) -> (r: Option<MprisValue<'_>>)
        ensures
            match r {
                Some(v) => property_spec(self, root, name@) == Some(value_view(v)),
                None => property_spec(self, root, name@) is None,
            },
    {
        if root {
            if is_name(name, "CanQuit") {
                Some(MprisValue::Bool(true))
            } else if is_name(name, "Fullscreen") || is_name(name, "CanSetFullscreen") || is_name(
                name,
                "CanRaise",
            ) || is_name(name, "HasTrackList") {
                Some(MprisValue::Bool(false))
            } else if is_name(name, "Identity") {
                Some(MprisValue::Text("Undefined Player"))
            } else if is_name(name, "DesktopEntry") {
                Some(MprisValue::Text("undefined-player"))
            } else if is_name(name, "SupportedUriSchemes") || is_name(name, "SupportedMimeTypes") {
                Some(MprisValue::EmptyStrings)
            } else {
                None
            }
        } else if is_name(name, "CanPlay") || is_name(name, "CanPause") || is_name(name, "CanSeek")
            || is_name(name, "CanControl") {
            Some(MprisValue::Bool(true))
        } else if is_name(name, "Shuffle") {
            Some(MprisValue::Bool(false))
        } else if is_name(name, "CanGoNext") {
            Some(MprisValue::Bool(self.can_next))
        } else if is_name(name, "CanGoPrevious") {
            Some(MprisValue::Bool(self.can_previous))
        } else if is_name(name, "PlaybackStatus") {
            Some(MprisValue::Text(self.status.name()))
        } else if is_name(name, "LoopStatus") {
            Some(MprisValue::Text("None"))
        } else if is_name(name, "Rate") || is_name(name, "Volume") || is_name(name, "MinimumRate")
            || is_name(name, "MaximumRate") {
            Some(MprisValue::Real(1))
        } else if is_name(name, "Position") {
            Some(MprisValue::Int64(self.position_us))
        } else if is_name(name, "Metadata") {
            Some(
                MprisValue::Metadata {
                    track_id: TRACK_ID,
                    title: self.title.as_str(),
                    artist: match &self.artist {
                        Some(a) => Some(a.as_str()),
                        None => None,
                    },
                    art_uri: match &self.art_uri {
                        Some(a) => Some(a.as_str()),
                        None => None,
                    },
                    uri: match &self.uri {
                        Some(a) => Some(a.as_str()),
                        None => None,
                    },
                    duration_us: self.duration_us,
                },
            )
        } else {
            None
        }
    }

    /// Takes the oldest queued command.
    pub fn take_command(&mut self) -> (r: Option<MprisCommand>)
        ensures
            old(self).commands@.len() == 0 ==> r is None && final(self).commands@ == old(self).commands@,
            old(self).commands@.len() > 0 ==> r == Some(old(self).commands@[0])
                && final(self).commands@ == old(self).commands@.drop_first(),
            same_media(*final(self), *old(self)),
            final(self).position_us == old(self).position_us,
            final(self).status == old(self).status,
            final(self).can_previous == old(self).can_previous,
            final(self).can_next == old(self).can_next,
    {
        self.commands.pop_front()
    }

    /// Records which chapter moves are possible. Returns whether that
    /// changed.
    pub fn navigation(&mut self, previous: bool, next: bool) -> (changed: bool)
        ensures
            changed == (old(self).can_previous != previous || old(self).can_next != next),
            final(self).can_previous == previous,
            final(self).can_next == next,
            final(self).status == old(self).status,
            final(self).position_us == old(self).position_us,
            final(self).commands@ == old(self).commands@,
            same_media(*final(self), *old(self)),
    {
        let changed = self.can_previous != previous || self.can_next != next;
        self.can_previous = previous;
        self.can_next = next;
        changed
    }

    /// Records the playback status and position, a negative position taken as
    /// zero. Returns whether the status changed.
    pub fn update(&mut self, status: PlaybackStatus, position_us: i64) -> (changed: bool)
        ensures
            changed == (old(self).status != status),
            final(self).status == status,
            final(self).position_us == (if position_us < 0 { 0 } else { position_us }),
            final(self).can_previous == old(self).can_previous,
            final(self).can_next == old(self).can_next,
            final(self).commands@ == old(self).commands@,
            same_media(*final(self), *old(self)),
    {
        self.position_us = if position_us < 0 { 0 } else { position_us };
        let changed = self.status != status;
        self.status = status;
        changed
    }

    /// Records a completed seek, a negative position taken as zero, and
    /// returns the position to announce.
    pub fn seeked(&mut self, position_us: i64) -> (r: i64)
        ensures
            r == (if position_us < 0 { 0 } else { position_us }),
            final(self).position_us == r,
            final(self).status == old(self).status,
            final(self).commands@ == old(self).commands@,
            final(self).can_previous == old(self).can_previous,
            final(self).can_next == old(self).can_next,
            same_media(*final(self), *old(self)),
    {
        self.position_us = if position_us < 0 { 0 } else { position_us };
        self.position_us
    }
}

} // verus!

verus! {

/// Bytes kept as they are in a file URI: ASCII letters and digits and
/// `-._~/`.
pub open spec fn unreserved(b: u8) -> bool {
    (48 <= b <= 57) || (65 <= b <= 90) || (97 <= b <= 122) || b == 45 || b == 46 || b == 95 || b
        == 126 || b == 47
}

/// Upper-case hexadecimal digit of `n < 16`.
pub open spec fn hex_digit(n: int) -> char {
    if n < 10 {
        (48 + n) as char
    } else {
        (55 + n) as char
    }
}

/// Percent-encoding of a path's bytes.
pub open spec fn percent_encoded(bytes: Seq<u8>) -> Seq<char>
    decreases bytes.len(),
{
    if bytes.len() == 0 {
        Seq::empty()
    } else {
        let b = bytes.last();
        percent_encoded(bytes.drop_last()) + if unreserved(b) {
            seq![(b as u32) as char]
        } else {
            seq!['%', hex_digit(b as int / 16), hex_digit(b as int % 16)]
        }
    }
}

fn hex(n: u8) -> (c: char)
    requires
        n < 16,
    ensures
        c == hex_digit(n as int),
{
    if n < 10 {
        (48 + n) as char
    } else {
        (55 + n) as char
    }
}

/// The `file://` URI of an absolute path given as its raw bytes, with every
/// byte but the unreserved ones percent-encoded.
pub fn file_uri(absolute: &[u8]) -> (r: String)
    ensures
        r@ == "file://"@ + percent_encoded(absolute@),
{
    proof {
        reveal_strlit("file://");
    }
    let mut out: Vec<char> = chars_of("file://");
    let mut i: usize = 0;
    while i < absolute.len()
        invariant
            0 <= i <= absolute@.len(),
            out@ == "file://"@ + percent_encoded(absolute@.subrange(0, i as int)),
        decreases absolute@.len() - i,
    {
        proof {
            assert(absolute@.subrange(0, i + 1).drop_last() =~= absolute@.subrange(0, i as int));
        }
        let b = absolute[i];
        if (48 <= b && b <= 57) || (65 <= b && b <= 90) || (97 <= b && b <= 122) || b == 45 || b == 46
            || b == 95 || b == 126 || b == 47 {
            out.push(b as char);
        } else {
            out.push('%');
            out.push(hex(b / 16));
            out.push(hex(b % 16));
        }
        i = i + 1;
    }
    proof {
        assert(absolute@.subrange(0, absolute@.len() as int) =~= absolute@);
    }
    string_of(out.as_slice())
}

} // verus!

verus! {

/// Each MPRIS method queues the command of the same name, whatever the
/// value and track that come with it: on the root interface `Quit`; on the
/// player interface `Play`, `Pause`, `PlayPause` and `Stop` their namesakes,
/// `Next` and `Previous` a chapter step, `Seek` a seek by the value, and
/// `SetPosition` a jump to the value only for the player's own track.
pub proof fn lemma_methods_queue_their_namesakes(method: Seq<u8>, own_track: bool, value: i64)
    ensures
        spells(method, "Quit"@) ==> command_spec(true, method, own_track, value) == Some(MprisCommand::Quit),
        spells(method, "Play"@) ==> command_spec(false, method, own_track, value) == Some(MprisCommand::Play),
        spells(method, "Pause"@) ==> command_spec(false, method, own_track, value) == Some(MprisCommand::Pause),
        spells(method, "PlayPause"@) ==> command_spec(false, method, own_track, value) == Some(
            MprisCommand::PlayPause,
        ),
        spells(method, "Stop"@) ==> command_spec(false, method, own_track, value) == Some(MprisCommand::Stop),
        spells(method, "Next"@) ==> command_spec(false, method, own_track, value) == Some(
            MprisCommand::NextChapter,
        ),
        spells(method, "Previous"@) ==> command_spec(false, method, own_track, value) == Some(
            MprisCommand::PreviousChapter,
        ),
        spells(method, "Seek"@) ==> command_spec(false, method, own_track, value) == Some(MprisCommand::Seek(value)),
        spells(method, "SetPosition"@) ==> command_spec(false, method, own_track, value) == if own_track {
            Some(MprisCommand::SetPosition(value))
        } else {
            None
        },
{
    reveal_strlit("Quit");
    reveal_strlit("Play");
    reveal_strlit("Pause");
    reveal_strlit("PlayPause");
    reveal_strlit("Stop");
    reveal_strlit("Next");
    reveal_strlit("Previous");
    reveal_strlit("Seek");
    reveal_strlit("SetPosition");
    if spells(method, "Stop"@) {
        assert("Stop"@[0] == 'S');
        assert(method[0] as u32 == "Stop"@[0] as u32);
        assert(!spells(method, "Play"@)) by { assert("Play"@[0] == 'P'); }
    }
    if spells(method, "Next"@) {
        assert("Next"@[0] == 'N');
        assert(method[0] as u32 == "Next"@[0] as u32);
        assert(!spells(method, "Play"@)) by { assert("Play"@[0] == 'P'); }
        assert(!spells(method, "Stop"@)) by { assert("Stop"@[0] == 'S'); }
    }
    if spells(method, "Seek"@) {
        assert("Seek"@[0] == 'S' && "Seek"@[1] == 'e');
        assert(method[0] as u32 == "Seek"@[0] as u32);
        assert(method[1] as u32 == "Seek"@[1] as u32);
        assert(!spells(method, "Play"@)) by { assert("Play"@[0] == 'P'); }
        assert(!spells(method, "Stop"@)) by { assert("Stop"@[1] == 't'); }
        assert(!spells(method, "Next"@)) by { assert("Next"@[0] == 'N'); }
    }
}

} // verus!
