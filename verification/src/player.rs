//! How the player is set up, and what its events mean.
//!
//! Where the picture goes is one option, [`VideoOutput`], and nothing else
//! depends on it: the player can put up a window of its own, or hand each frame to
//! a renderer that the caller draws inside its own surface.

use vstd::prelude::*;

use crate::chapters::Chapter;
use crate::text;
use crate::text::owned;
use crate::text::same_text;
use crate::tracks::Track;

verus! {

/// How many blocks the stream layer should read ahead when mpv is the consumer:
/// **none**.
///
/// mpv's demuxer cache already runs ahead of the picture, sequentially and
/// eagerly. Stacking a second speculative layer under that one does not add
/// buffer, it takes bandwidth away from the reads mpv is waiting on right now.
pub const READAHEAD_BLOCKS: usize = 0;

/// Why playback of a file ended.
#[derive(Debug, Clone, Copy, PartialEq, Eq, Structural)]
pub enum EndReason {
    /// Played to the end.
    Eof,
    /// Stopped, or a different file was loaded.
    Stopped,
    /// The player is quitting.
    Quit,
    /// mpv could not play it.
    Failed,
    Other,
}

/// The reason that mpv's number for it names.
pub open spec fn reason_of(code: u32) -> EndReason {
    if code == 0 {
        EndReason::Eof
    } else if code == 2 {
        EndReason::Stopped
    } else if code == 3 {
        EndReason::Quit
    } else if code == 4 {
        EndReason::Failed
    } else {
        EndReason::Other
    }
}

impl From<u32> for EndReason {
    /// From mpv's number for it.
    fn from(code: u32) -> (r: Self) {
        match code {
            0 => EndReason::Eof,
            2 => EndReason::Stopped,
            3 => EndReason::Quit,
            4 => EndReason::Failed,
            _ => EndReason::Other,
        }
    }
}

impl vstd::std_specs::convert::FromSpecImpl<u32> for EndReason {
    open spec fn obeys_from_spec() -> bool {
        true
    }

    open spec fn from_spec(code: u32) -> Self {
        reason_of(code)
    }
}

/// What the window needs from mpv. Times are in milliseconds, the volume in
/// thousandths of a hundredth of full.
#[derive(Debug, PartialEq, Eq)]
pub enum PlayerEvent {
    /// mpv is going away: the window was closed, or `quit` was issued. The only
    /// event that must be acted on.
    Shutdown,
    StartFile,
    /// Demuxing succeeded: duration and tracks are readable from here.
    FileLoaded,
    EndFile(EndReason),
    /// A seek was issued. Playback has not resumed yet.
    Seek,
    /// Playback actually resumed, after a seek or after buffering.
    PlaybackRestart,
    Position(i64),
    Duration(i64),
    Paused(bool),
    /// Output volume.
    Volume(i64),
    Muted(bool),
    /// What the file contains and what is playing of it.
    Tracks(Vec<Track>),
    /// The file's chapters.
    Chapters(Vec<Chapter>),
    /// Anything not worth a variant. Ignorable.
    Other,
}

/// Whether two events are the same, the lists they carry taken as sequences.
pub open spec fn same_event(a: PlayerEvent, b: PlayerEvent) -> bool {
    match (a, b) {
        (PlayerEvent::Tracks(x), PlayerEvent::Tracks(y)) => x@ == y@,
        (PlayerEvent::Chapters(x), PlayerEvent::Chapters(y)) => x@ == y@,
        _ => a == b,
    }
}

impl Clone for PlayerEvent {
    fn clone(&self) -> (r: Self)
        ensures
            same_event(r, *self),
    {
        match self {
            PlayerEvent::Shutdown => PlayerEvent::Shutdown,
            PlayerEvent::StartFile => PlayerEvent::StartFile,
            PlayerEvent::FileLoaded => PlayerEvent::FileLoaded,
            PlayerEvent::EndFile(reason) => PlayerEvent::EndFile(*reason),
            PlayerEvent::Seek => PlayerEvent::Seek,
            PlayerEvent::PlaybackRestart => PlayerEvent::PlaybackRestart,
            PlayerEvent::Position(at) => PlayerEvent::Position(*at),
            PlayerEvent::Duration(length) => PlayerEvent::Duration(*length),
            PlayerEvent::Paused(paused) => PlayerEvent::Paused(*paused),
            PlayerEvent::Volume(volume) => PlayerEvent::Volume(*volume),
            PlayerEvent::Muted(muted) => PlayerEvent::Muted(*muted),
            PlayerEvent::Tracks(tracks) => {
                let copy = tracks.clone();
                assert(copy@ =~= tracks@);
                PlayerEvent::Tracks(copy)
            },
            PlayerEvent::Chapters(chapters) => {
                let copy = chapters.clone();
                assert(copy@ =~= chapters@);
                PlayerEvent::Chapters(copy)
            },
            PlayerEvent::Other => PlayerEvent::Other,
        }
    }
}

/// The value of a property, as mpv reports it.
#[derive(Debug, Clone, Copy, PartialEq, Eq, Structural)]
pub enum PropertyValue {
    /// A number with a fraction, in thousandths.
    Number(i64),
    Flag(bool),
    /// A whole number.
    Whole(i64),
    /// Anything else.
    Other,
}

/// What mpv reports.
#[derive(Debug, PartialEq, Eq)]
pub enum MpvEvent {
    Shutdown,
    StartFile,
    FileLoaded,
    EndFile(EndReason),
    Seek,
    PlaybackRestart,
    Property(String, PropertyValue),
    Other,
}

/// What mpv is asked to do about video.
#[derive(Debug, Clone, Copy, PartialEq, Eq, Structural)]
pub enum VideoOutput {
    /// mpv creates and owns a window, draws into it, and handles its own input.
    Window,
    /// mpv draws nothing on its own. Frames go to a renderer the caller creates
    /// against its own OpenGL context.
    Embedded,
}

impl Default for VideoOutput {
    fn default() -> (r: Self)
        ensures
            r == VideoOutput::Window,
    {
        VideoOutput::Window
    }
}

/// The properties whose changes are reported, and in which format.
#[derive(Debug, Clone, Copy, PartialEq, Eq, Structural)]
pub enum PropertyFormat {
    Number,
    Flag,
}

/// A property event from its name and value. A property that is observed
/// arriving in an unexpected format must not be read as a position of zero.
pub open spec fn property_event(name: Seq<char>, value: PropertyValue) -> PlayerEvent {
    match value {
        PropertyValue::Number(n) => if name == "time-pos"@ {
            PlayerEvent::Position(n)
        } else if name == "duration"@ {
            PlayerEvent::Duration(n)
        } else if name == "volume"@ {
            PlayerEvent::Volume(n)
        } else {
            PlayerEvent::Other
        },
        PropertyValue::Flag(b) => if name == "pause"@ {
            PlayerEvent::Paused(b)
        } else if name == "mute"@ {
            PlayerEvent::Muted(b)
        } else {
            PlayerEvent::Other
        },
        _ => PlayerEvent::Other,
    }
}

/// What an event of mpv's means to the window.
pub fn translate(event: MpvEvent) -> (r: PlayerEvent)
    ensures
        r == match event {
            MpvEvent::Shutdown => PlayerEvent::Shutdown,
            MpvEvent::StartFile => PlayerEvent::StartFile,
            MpvEvent::FileLoaded => PlayerEvent::FileLoaded,
            MpvEvent::EndFile(reason) => PlayerEvent::EndFile(reason),
            MpvEvent::Seek => PlayerEvent::Seek,
            MpvEvent::PlaybackRestart => PlayerEvent::PlaybackRestart,
            MpvEvent::Property(name, value) => property_event(name@, value),
            MpvEvent::Other => PlayerEvent::Other,
        },
{
    match event {
        MpvEvent::Shutdown => PlayerEvent::Shutdown,
        MpvEvent::StartFile => PlayerEvent::StartFile,
        MpvEvent::FileLoaded => PlayerEvent::FileLoaded,
        MpvEvent::EndFile(reason) => PlayerEvent::EndFile(reason),
        MpvEvent::Seek => PlayerEvent::Seek,
        MpvEvent::PlaybackRestart => PlayerEvent::PlaybackRestart,
        MpvEvent::Property(name, value) => {
            let name = name.as_str();
            match value {
                PropertyValue::Number(n) => if same_text(name, "time-pos") {
                    PlayerEvent::Position(n)
                } else if same_text(name, "duration") {
                    PlayerEvent::Duration(n)
                } else if same_text(name, "volume") {
                    PlayerEvent::Volume(n)
                } else {
                    PlayerEvent::Other
                },
                PropertyValue::Flag(b) => if same_text(name, "pause") {
                    PlayerEvent::Paused(b)
                } else if same_text(name, "mute") {
                    PlayerEvent::Muted(b)
                } else {
                    PlayerEvent::Other
                },
                _ => PlayerEvent::Other,
            }
        },
        MpvEvent::Other => PlayerEvent::Other,
    }
}

/// The properties the window draws from. Volume and mute are observed rather
/// than only written, because mpv changes them on its own.
pub fn observed_properties() -> (r: Vec<(&'static str, PropertyFormat)>)
    ensures
        r@.len() == 5,
        r@[0].0@ == "time-pos"@ && r@[0].1 is Number,
        r@[1].0@ == "duration"@ && r@[1].1 is Number,
        r@[2].0@ == "pause"@ && r@[2].1 is Flag,
        r@[3].0@ == "volume"@ && r@[3].1 is Number,
        r@[4].0@ == "mute"@ && r@[4].1 is Flag,
{
    let mut r: Vec<(&'static str, PropertyFormat)> = Vec::new();
    r.push(("time-pos", PropertyFormat::Number));
    r.push(("duration", PropertyFormat::Number));
    r.push(("pause", PropertyFormat::Flag));
    r.push(("volume", PropertyFormat::Number));
    r.push(("mute", PropertyFormat::Flag));
    r
}

/// The loudest this player goes: a hundred hundredths, in thousandths of one.
/// Amplifying past the source is a good way to find out what clipping sounds
/// like.
pub const MAX_VOLUME: i64 = 100_000;

/// A volume inside what this player offers.
pub open spec fn clamped_volume(volume: i64) -> i64 {
    if volume < 0 {
        0
    } else if volume > MAX_VOLUME {
        MAX_VOLUME
    } else {
        volume
    }
}

/// A volume inside what this player offers.
pub fn clamp_volume(volume: i64) -> (r: i64)
    ensures
        r == clamped_volume(volume),
{
    if volume < 0 {
        0
    } else if volume > MAX_VOLUME {
        MAX_VOLUME
    } else {
        volume
    }
}

/// How the mpv instance is set up. The defaults are the ones a person would
/// expect from the `mpv` command, which libmpv does *not* apply on its own.
#[derive(Debug, PartialEq, Eq)]
pub struct PlayerConfig {
    /// Where the picture goes.
    pub video: VideoOutput,
    /// The window title, when mpv owns the window. Ignored when embedded.
    pub window_title: String,
    /// Hardware decode where the driver supports it.
    pub hardware_decoding: bool,
    /// mpv's built-in on-screen controller: the seek bar.
    pub on_screen_controller: bool,
    /// mpv's usual keys: space, arrows, `q`.
    pub default_keybindings: bool,
    /// How much media mpv buffers ahead of the playhead, in milliseconds. A byte
    /// budget would mean two minutes of buffer on one file and eight seconds on
    /// another.
    pub readahead_ms: i64,
    /// Hard ceiling on that buffer, comfortably under the ring's budget.
    pub demuxer_max_bytes: Option<u64>,
    /// Start paused. Useful when the caller wants to seek to a resume position
    /// before the first frame.
    pub start_paused: bool,
    /// Output volume, in thousandths of a hundredth.
    pub volume: i64,
    pub muted: bool,
    /// Which audio track to pick when the file offers a choice, as a language
    /// tag. `None` leaves the container's default.
    pub audio_language: Option<String>,
    pub subtitle_language: Option<String>,
    /// Whether subtitles are shown at all. No language preference can express
    /// that.
    pub subtitles: bool,
    /// Raw mpv options, applied last, so anything here wins.
    pub options: Vec<(String, String)>,
}

impl Clone for PlayerConfig {
    fn clone(&self) -> (r: Self)
        ensures
            r.video == self.video,
            r.window_title == self.window_title,
            r.hardware_decoding == self.hardware_decoding,
            r.on_screen_controller == self.on_screen_controller,
            r.default_keybindings == self.default_keybindings,
            r.readahead_ms == self.readahead_ms,
            r.demuxer_max_bytes == self.demuxer_max_bytes,
            r.start_paused == self.start_paused,
            r.volume == self.volume,
            r.muted == self.muted,
            r.audio_language == self.audio_language,
            r.subtitle_language == self.subtitle_language,
            r.subtitles == self.subtitles,
            r.options@ == self.options@,
    {
        let mut options: Vec<(String, String)> = Vec::new();
        let mut i: usize = 0;
        while i < self.options.len()
            invariant
                i <= self.options@.len(),
                options@ == self.options@.take(i as int),
            decreases self.options.len() - i,
        {
            let option = &self.options[i];
            options.push((option.0.clone(), option.1.clone()));
            i += 1;
            assert(self.options@.take(i as int) =~= self.options@.take(i - 1).push(
                self.options@[i - 1],
            ));
        }
        assert(self.options@.take(self.options@.len() as int) =~= self.options@);
        PlayerConfig {
            video: self.video,
            window_title: self.window_title.clone(),
            hardware_decoding: self.hardware_decoding,
            on_screen_controller: self.on_screen_controller,
            default_keybindings: self.default_keybindings,
            readahead_ms: self.readahead_ms,
            demuxer_max_bytes: self.demuxer_max_bytes,
            start_paused: self.start_paused,
            volume: self.volume,
            muted: self.muted,
            audio_language: text::copy_option(&self.audio_language),
            subtitle_language: text::copy_option(&self.subtitle_language),
            subtitles: self.subtitles,
            options,
        }
    }
}

impl Default for PlayerConfig {
    fn default() -> (r: Self)
        ensures
            r.video == VideoOutput::Window,
            r.window_title@ == "proton-stream"@,
            r.hardware_decoding,
            r.on_screen_controller,
            r.default_keybindings,
            r.readahead_ms == 30_000,
            r.demuxer_max_bytes == Some(50_331_648u64),
            !r.start_paused,
            r.volume == MAX_VOLUME,
            !r.muted,
            r.audio_language is None,
            r.subtitle_language is None,
            r.subtitles,
            r.options@.len() == 0,
    {
        PlayerConfig {
            video: VideoOutput::Window,
            window_title: owned("proton-stream"),
            hardware_decoding: true,
            on_screen_controller: true,
            default_keybindings: true,
            readahead_ms: 30_000,
            demuxer_max_bytes: Some(50_331_648),
            start_paused: false,
            volume: MAX_VOLUME,
            muted: false,
            audio_language: None,
            subtitle_language: None,
            subtitles: true,
            options: Vec::new(),
        }
    }
}

/// What an option is set to.
#[derive(Debug, PartialEq, Eq)]
pub enum Setting {
    Text(String),
    Flag(bool),
    /// A whole number.
    Whole(i64),
    /// A number with a fraction, in thousandths.
    Number(i64),
}

/// What an option is set to, with its text taken as a sequence of characters.
pub enum SettingView {
    Text(Seq<char>),
    Flag(bool),
    Whole(i64),
    Number(i64),
}

impl View for Setting {
    type V = SettingView;

    open spec fn view(&self) -> SettingView {
        match *self {
            Setting::Text(s) => SettingView::Text(s@),
            Setting::Flag(b) => SettingView::Flag(b),
            Setting::Whole(n) => SettingView::Whole(n),
            Setting::Number(n) => SettingView::Number(n),
        }
    }
}

/// Options as plain values, in the order they are set.
pub open spec fn settings_view(s: Seq<(String, Setting)>) -> Seq<(Seq<char>, SettingView)> {
    Seq::new(s.len(), |i: int| (s[i].0@, s[i].1@))
}

pub open spec fn when(
    holds: bool,
    settings: Seq<(Seq<char>, SettingView)>,
) -> Seq<(Seq<char>, SettingView)> {
    if holds {
        settings
    } else {
        Seq::empty()
    }
}

/// What is set for where the picture goes. An embedded player attaches to the
/// render API's output, must not conjure a second window, and must not block the
/// caller's drawing until a frame's display time.
pub open spec fn output_settings(video: VideoOutput) -> Seq<(Seq<char>, SettingView)> {
    match video {
        VideoOutput::Window => seq![("force-window"@, SettingView::Flag(true))],
        VideoOutput::Embedded => seq![
            ("vo"@, SettingView::Text("libmpv"@)),
            ("force-window"@, SettingView::Flag(false)),
            ("video-timing-offset"@, SettingView::Number(0)),
        ],
    }
}

/// The caller's own options.
pub open spec fn own_settings(options: Seq<(String, String)>) -> Seq<(Seq<char>, SettingView)> {
    Seq::new(options.len(), |i: int| (options[i].0@, SettingView::Text(options[i].1@)))
}

pub open spec fn language_settings(name: Seq<char>, language: Option<String>) -> Seq<
    (Seq<char>, SettingView),
> {
    match language {
        Some(language) => seq![(name, SettingView::Text(language@))],
        None => Seq::empty(),
    }
}

/// What is set for the window and its input.
pub open spec fn window_settings(config: PlayerConfig) -> Seq<(Seq<char>, SettingView)> {
    seq![
        ("title"@, SettingView::Text(config.window_title@)),
        (
            "hwdec"@,
            SettingView::Text(
                if config.hardware_decoding {
                    "auto-safe"@
                } else {
                    "no"@
                },
            ),
        ),
        ("osc"@, SettingView::Flag(config.on_screen_controller)),
        ("input-default-bindings"@, SettingView::Flag(config.default_keybindings)),
        ("input-vo-keyboard"@, SettingView::Flag(config.default_keybindings)),
    ]
}

/// What is set for the cache. It is what turns blocks into smooth playback.
pub open spec fn cache_settings(config: PlayerConfig) -> Seq<(Seq<char>, SettingView)> {
    seq![
        ("cache"@, SettingView::Text("yes"@)),
        ("cache-secs"@, SettingView::Number(config.readahead_ms)),
        ("demuxer-readahead-secs"@, SettingView::Number(config.readahead_ms)),
    ] + match config.demuxer_max_bytes {
        Some(bytes) => seq![("demuxer-max-bytes"@, SettingView::Whole(bytes as i64))],
        None => Seq::empty(),
    }
}

/// What is set for how playback starts and sounds.
pub open spec fn start_settings(config: PlayerConfig) -> Seq<(Seq<char>, SettingView)> {
    when(config.start_paused, seq![("pause"@, SettingView::Flag(true))]) + seq![
        ("volume"@, SettingView::Number(clamped_volume(config.volume))),
        ("mute"@, SettingView::Flag(config.muted)),
    ]
}

/// What is set for the tracks that are preferred.
pub open spec fn track_settings(config: PlayerConfig) -> Seq<(Seq<char>, SettingView)> {
    language_settings("alang"@, config.audio_language) + language_settings(
        "slang"@,
        config.subtitle_language,
    ) + when(!config.subtitles, seq![("sid"@, SettingView::Text("no"@))])
}

/// The options a player starts with, in the order they are set. The caller's own
/// come last, so they win.
pub open spec fn initial_settings(config: PlayerConfig) -> Seq<(Seq<char>, SettingView)> {
    window_settings(config) + output_settings(config.video) + cache_settings(config)
        + start_settings(config) + track_settings(config) + own_settings(config.options@)
}

fn set(out: &mut Vec<(String, Setting)>, name: &str, value: Setting)
    ensures
        settings_view(final(out)@) == settings_view(old(out)@).push((name@, value@)),
{
    let ghost before = out@;
    let ghost v = value;
    out.push((owned(name), value));
    assert(settings_view(out@) =~= settings_view(before).push((name@, v@)));
}

fn set_window(out: &mut Vec<(String, Setting)>, config: &PlayerConfig)
    ensures
        settings_view(final(out)@) == settings_view(old(out)@) + window_settings(*config),
{
    let ghost before = settings_view(out@);
    set(out, "title", Setting::Text(config.window_title.clone()));
    set(
        out,
        "hwdec",
        Setting::Text(
            owned(
                if config.hardware_decoding {
                    "auto-safe"
                } else {
                    "no"
                },
            ),
        ),
    );
    set(out, "osc", Setting::Flag(config.on_screen_controller));
    set(out, "input-default-bindings", Setting::Flag(config.default_keybindings));
    set(out, "input-vo-keyboard", Setting::Flag(config.default_keybindings));
    assert(settings_view(out@) =~= before + window_settings(*config));
}

fn set_output(out: &mut Vec<(String, Setting)>, video: VideoOutput)
    ensures
        settings_view(final(out)@) == settings_view(old(out)@) + output_settings(video),
{
    let ghost before = settings_view(out@);
    match video {
        VideoOutput::Window => {
            // Without a window there is nothing to see while audio-only or
            // pre-roll frames are decoding.
            set(out, "force-window", Setting::Flag(true));
        },
        VideoOutput::Embedded => {
            set(out, "vo", Setting::Text(owned("libmpv")));
            set(out, "force-window", Setting::Flag(false));
            set(out, "video-timing-offset", Setting::Number(0));
        },
    }
    assert(settings_view(out@) =~= before + output_settings(video));
}

fn set_cache(out: &mut Vec<(String, Setting)>, config: &PlayerConfig)
    ensures
        settings_view(final(out)@) == settings_view(old(out)@) + cache_settings(*config),
{
    let ghost before = settings_view(out@);
    set(out, "cache", Setting::Text(owned("yes")));
    set(out, "cache-secs", Setting::Number(config.readahead_ms));
    set(out, "demuxer-readahead-secs", Setting::Number(config.readahead_ms));
    match config.demuxer_max_bytes {
        Some(bytes) => {
            set(out, "demuxer-max-bytes", Setting::Whole(#[verifier::truncate] (bytes as i64)));
        },
        None => {},
    }
    assert(settings_view(out@) =~= before + cache_settings(*config));
}

fn set_start(out: &mut Vec<(String, Setting)>, config: &PlayerConfig)
    ensures
        settings_view(final(out)@) == settings_view(old(out)@) + start_settings(*config),
{
    let ghost before = settings_view(out@);
    if config.start_paused {
        set(out, "pause", Setting::Flag(true));
    }
    set(out, "volume", Setting::Number(clamp_volume(config.volume)));
    set(out, "mute", Setting::Flag(config.muted));
    assert(settings_view(out@) =~= before + start_settings(*config));
}

fn set_tracks(out: &mut Vec<(String, Setting)>, config: &PlayerConfig)
    ensures
        settings_view(final(out)@) == settings_view(old(out)@) + track_settings(*config),
{
    let ghost before = settings_view(out@);
    match &config.audio_language {
        Some(language) => {
            set(out, "alang", Setting::Text(language.clone()));
        },
        None => {},
    }
    match &config.subtitle_language {
        Some(language) => {
            set(out, "slang", Setting::Text(language.clone()));
        },
        None => {},
    }
    if !config.subtitles {
        set(out, "sid", Setting::Text(owned("no")));
    }
    assert(settings_view(out@) =~= before + track_settings(*config));
}

/// The options a player starts with.
pub fn initial_options(config: &PlayerConfig) -> (r: Vec<(String, Setting)>)
    ensures
        settings_view(r@) == initial_settings(*config),
{
    let mut out: Vec<(String, Setting)> = Vec::new();
    assert(settings_view(out@) + window_settings(*config) =~= window_settings(*config));
    set_window(&mut out, config);
    set_output(&mut out, config.video);
    set_cache(&mut out, config);
    set_start(&mut out, config);
    set_tracks(&mut out, config);
    let ghost before = settings_view(out@);
    let ghost own = own_settings(config.options@);
    assert(before + own.take(0) =~= before);
    let mut i: usize = 0;
    while i < config.options.len()
        invariant
            i <= config.options@.len(),
            own == own_settings(config.options@),
            settings_view(out@) == before + own.take(i as int),
        decreases config.options.len() - i,
    {
        let option = &config.options[i];
        set(&mut out, option.0.as_str(), Setting::Text(option.1.clone()));
        i += 1;
        assert(before + own.take(i as int) =~= (before + own.take(i - 1)).push(own[i - 1]));
    }
    assert(own.take(own.len() as int) =~= own);
    out
}

/// The decoded video's size in pixels, once there is one.
pub fn video_size(width: Option<i64>, height: Option<i64>) -> (r: Option<(i64, i64)>)
    ensures
        r == match (width, height) {
            (Some(w), Some(h)) => if w > 0 && h > 0 {
                Some((w, h))
            } else {
                None
            },
            _ => None,
        },
{
    match (width, height) {
        (Some(w), Some(h)) => if w > 0 && h > 0 {
            Some((w, h))
        } else {
            None
        },
        _ => None,
    }
}

/// The GL libraries to look in, most likely first: EGL leads on a Wayland
/// session and GLX on an X11 one.
pub fn gl_candidates(wayland: bool) -> (r: Vec<&'static str>)
    ensures
        r@.len() == 2,
        wayland ==> r@[0]@ == "libEGL.so.1"@ && r@[1]@ == "libGL.so.1"@,
        !wayland ==> r@[0]@ == "libGL.so.1"@ && r@[1]@ == "libEGL.so.1"@,
{
    let mut r: Vec<&'static str> = Vec::new();
    if wayland {
        r.push("libEGL.so.1");
        r.push("libGL.so.1");
    } else {
        r.push("libGL.so.1");
        r.push("libEGL.so.1");
    }
    r
}

/// The setting that holds for a name once all have been applied in order: the
/// last of that name.
pub open spec fn in_force(settings: Seq<(Seq<char>, SettingView)>, name: Seq<char>) -> Option<
    SettingView,
>
    decreases settings.len(),
{
    if settings.len() == 0 {
        None
    } else if settings.last().0 == name {
        Some(settings.last().1)
    } else {
        in_force(settings.drop_last(), name)
    }
}

/// A setting that none of its name follows is the one that holds.
proof fn lemma_last_is_in_force(settings: Seq<(Seq<char>, SettingView)>, at: int)
    requires
        0 <= at < settings.len(),
        forall|k: int| at < k < settings.len() ==> (#[trigger] settings[k]).0 != settings[at].0,
    ensures
        in_force(settings, settings[at].0) == Some(settings[at].1),
    decreases settings.len(),
{
    if at + 1 < settings.len() {
        assert(settings[settings.len() - 1].0 != settings[at].0);
        lemma_last_is_in_force(settings.drop_last(), at);
    }
}

/// Whether an option is the last of its name.
pub open spec fn is_last_of_its_name(options: Seq<(String, String)>, i: int) -> bool {
    &&& 0 <= i < options.len()
    &&& forall|k: int| i < k < options.len() ==> (#[trigger] options[k]).0@ != options[i].0@
}

/// The caller's own options are set last, so for a name that is set more than
/// once theirs is the one that holds: the last that they give for it.
pub proof fn law_own_options_win(config: PlayerConfig, i: int)
    requires
        0 <= i < config.options@.len(),
    ensures
        exists|j: int|
            i <= j && #[trigger] is_last_of_its_name(config.options@, j)
                && config.options@[j].0@ == config.options@[i].0@ && in_force(
                initial_settings(config),
                config.options@[i].0@,
            ) == Some(SettingView::Text(config.options@[j].1@)),
    decreases config.options@.len() - i,
{
    let options = config.options@;
    if is_last_of_its_name(options, i) {
        let all = initial_settings(config);
        let before = all.len() - options.len();
        assert(all[before + i] == own_settings(options)[i]);
        assert forall|k: int| before + i < k < all.len() implies (#[trigger] all[k]).0
            != all[before + i].0 by {
            assert(all[k] == own_settings(options)[k - before]);
            assert(options[k - before].0@ != options[i].0@);
        }
        lemma_last_is_in_force(all, before + i);
    } else {
        let k = choose|k: int| i < k < options.len() && (#[trigger] options[k]).0@ == options[i].0@;
        law_own_options_win(config, k);
    }
}

/// A player draws in one place only: an embedded one never asks for a window.
pub proof fn law_an_embedded_player_opens_no_window()
    ensures
        output_settings(VideoOutput::Embedded).contains(
            ("force-window"@, SettingView::Flag(false)),
        ),
        !output_settings(VideoOutput::Embedded).contains(("force-window"@, SettingView::Flag(true))),
{
    let s = output_settings(VideoOutput::Embedded);
    assert(s[1] == ("force-window"@, SettingView::Flag(false)));
}

/// Whether the caller's own options leave a name alone.
pub open spec fn leaves_alone(options: Seq<(String, String)>, name: Seq<char>) -> bool {
    forall|i: int| 0 <= i < options.len() ==> (#[trigger] options[i]).0@ != name
}

proof fn lemma_in_force_concat(
    a: Seq<(Seq<char>, SettingView)>,
    b: Seq<(Seq<char>, SettingView)>,
    name: Seq<char>,
)
    ensures
        in_force(a + b, name) == if in_force(b, name) is Some {
            in_force(b, name)
        } else {
            in_force(a, name)
        },
    decreases b.len(),
{
    if b.len() == 0 {
        assert(a + b =~= a);
    } else {
        assert((a + b).drop_last() =~= a + b.drop_last());
        assert((a + b).last() == b.last());
        lemma_in_force_concat(a, b.drop_last(), name);
    }
}

proof fn lemma_own_leave_alone(options: Seq<(String, String)>, name: Seq<char>)
    requires
        leaves_alone(options, name),
    ensures
        in_force(own_settings(options), name) is None,
    decreases options.len(),
{
    let own = own_settings(options);
    if options.len() > 0 {
        let front = options.drop_last();
        assert(own.drop_last() =~= own_settings(front));
        assert(options[options.len() - 1].0@ != name);
        assert(leaves_alone(front, name)) by {
            assert forall|i: int| 0 <= i < front.len() implies (#[trigger] front[i]).0@ != name by {
                assert(options[i].0@ != name);
            }
        }
        lemma_own_leave_alone(front, name);
    }
}

/// What each of the groups of settings says of a name.
#[verifier::rlimit(40)]
proof fn lemma_in_force_groups(config: PlayerConfig, name: Seq<char>)
    requires
        leaves_alone(config.options@, name),
    ensures
        in_force(initial_settings(config), name) == {
            let tracks = in_force(track_settings(config), name);
            let start = in_force(start_settings(config), name);
            let cache = in_force(cache_settings(config), name);
            let output = in_force(output_settings(config.video), name);
            if tracks is Some {
                tracks
            } else if start is Some {
                start
            } else if cache is Some {
                cache
            } else if output is Some {
                output
            } else {
                in_force(window_settings(config), name)
            }
        },
{
    let a = window_settings(config);
    let b = output_settings(config.video);
    let c = cache_settings(config);
    let d = start_settings(config);
    let e = track_settings(config);
    let f = own_settings(config.options@);
    lemma_own_leave_alone(config.options@, name);
    lemma_in_force_concat(a + b + c + d + e, f, name);
    lemma_in_force_concat(a + b + c + d, e, name);
    lemma_in_force_concat(a + b + c, d, name);
    lemma_in_force_concat(a + b, c, name);
    lemma_in_force_concat(a, b, name);
}

/// The player starts at the volume that was chosen, kept between nothing and full,
/// muted where that was chosen, and paused only where it was asked to be.
#[verifier::rlimit(40)]
pub proof fn law_the_player_starts_as_it_was_told(config: PlayerConfig)
    ensures
        leaves_alone(config.options@, "volume"@) ==> in_force(
            initial_settings(config),
            "volume"@,
        ) == Some(
            SettingView::Number(
                if config.volume < 0 {
                    0
                } else if config.volume > 100_000 {
                    100_000
                } else {
                    config.volume
                },
            ),
        ),
        leaves_alone(config.options@, "mute"@) ==> in_force(initial_settings(config), "mute"@)
            == Some(SettingView::Flag(config.muted)),
        leaves_alone(config.options@, "pause"@) ==> in_force(initial_settings(config), "pause"@)
            == if config.start_paused {
            Some(SettingView::Flag(true))
        } else {
            None
        },
{
    lemma_setting_names();
    reveal_with_fuel(in_force, 6);
    if leaves_alone(config.options@, "volume"@) {
        lemma_in_force_groups(config, "volume"@);
    }
    if leaves_alone(config.options@, "mute"@) {
        lemma_in_force_groups(config, "mute"@);
    }
    if leaves_alone(config.options@, "pause"@) {
        lemma_in_force_groups(config, "pause"@);
    }
    lemma_tracks_in_force(config, "volume"@);
    lemma_tracks_in_force(config, "mute"@);
    lemma_tracks_in_force(config, "pause"@);
    lemma_cache_in_force(config, "pause"@);
    let start = start_settings(config);
    if config.start_paused {
        assert(start =~= seq![
            ("pause"@, SettingView::Flag(true)),
            ("volume"@, SettingView::Number(clamped_volume(config.volume))),
            ("mute"@, SettingView::Flag(config.muted)),
        ]);
    } else {
        assert(start =~= seq![
            ("volume"@, SettingView::Number(clamped_volume(config.volume))),
            ("mute"@, SettingView::Flag(config.muted)),
        ]);
    }
}

/// The languages that were chosen are the ones that are asked for, and subtitles
/// are off exactly where they were switched off.
#[verifier::rlimit(40)]
pub proof fn law_the_chosen_languages_are_asked_for(config: PlayerConfig)
    ensures
        leaves_alone(config.options@, "alang"@) ==> in_force(initial_settings(config), "alang"@)
            == match config.audio_language {
            Some(language) => Some(SettingView::Text(language@)),
            None => None,
        },
        leaves_alone(config.options@, "slang"@) ==> in_force(initial_settings(config), "slang"@)
            == match config.subtitle_language {
            Some(language) => Some(SettingView::Text(language@)),
            None => None,
        },
        leaves_alone(config.options@, "sid"@) ==> in_force(initial_settings(config), "sid"@)
            == if config.subtitles {
            None
        } else {
            Some(SettingView::Text("no"@))
        },
{
    lemma_setting_names();
    lemma_tracks_in_force(config, "alang"@);
    lemma_tracks_in_force(config, "slang"@);
    lemma_tracks_in_force(config, "sid"@);
    lemma_rest_in_force(config, "alang"@);
    lemma_rest_in_force(config, "slang"@);
    lemma_rest_in_force(config, "sid"@);
    if leaves_alone(config.options@, "alang"@) {
        lemma_in_force_groups(config, "alang"@);
    }
    if leaves_alone(config.options@, "slang"@) {
        lemma_in_force_groups(config, "slang"@);
    }
    if leaves_alone(config.options@, "sid"@) {
        lemma_in_force_groups(config, "sid"@);
    }
}

/// As much is buffered ahead as was asked for, and no more bytes than the ceiling.
#[verifier::rlimit(40)]
pub proof fn law_the_buffer_is_as_it_was_told(config: PlayerConfig)
    ensures
        leaves_alone(config.options@, "cache-secs"@) ==> in_force(
            initial_settings(config),
            "cache-secs"@,
        ) == Some(SettingView::Number(config.readahead_ms)),
        leaves_alone(config.options@, "demuxer-readahead-secs"@) ==> in_force(
            initial_settings(config),
            "demuxer-readahead-secs"@,
        ) == Some(SettingView::Number(config.readahead_ms)),
        leaves_alone(config.options@, "demuxer-max-bytes"@) ==> in_force(
            initial_settings(config),
            "demuxer-max-bytes"@,
        ) == match config.demuxer_max_bytes {
            Some(bytes) => Some(SettingView::Whole(bytes as i64)),
            None => None,
        },
{
    lemma_setting_names();
    lemma_tracks_in_force(config, "cache-secs"@);
    lemma_tracks_in_force(config, "demuxer-readahead-secs"@);
    lemma_tracks_in_force(config, "demuxer-max-bytes"@);
    lemma_start_in_force(config, "cache-secs"@);
    lemma_start_in_force(config, "demuxer-readahead-secs"@);
    lemma_start_in_force(config, "demuxer-max-bytes"@);
    lemma_cache_in_force(config, "cache-secs"@);
    lemma_cache_in_force(config, "demuxer-readahead-secs"@);
    lemma_cache_in_force(config, "demuxer-max-bytes"@);
    lemma_window_in_force(config, "demuxer-max-bytes"@);
    if leaves_alone(config.options@, "cache-secs"@) {
        lemma_in_force_groups(config, "cache-secs"@);
    }
    if leaves_alone(config.options@, "demuxer-readahead-secs"@) {
        lemma_in_force_groups(config, "demuxer-readahead-secs"@);
    }
    if leaves_alone(config.options@, "demuxer-max-bytes"@) {
        lemma_in_force_groups(config, "demuxer-max-bytes"@);
    }
}

#[verifier::rlimit(40)]
proof fn lemma_tracks_in_force(config: PlayerConfig, name: Seq<char>)
    ensures
        name != "alang"@ && name != "slang"@ && name != "sid"@ ==> in_force(
            track_settings(config),
            name,
        ) is None,
        in_force(track_settings(config), "alang"@) == match config.audio_language {
            Some(language) => Some(SettingView::Text(language@)),
            None => None,
        },
        in_force(track_settings(config), "slang"@) == match config.subtitle_language {
            Some(language) => Some(SettingView::Text(language@)),
            None => None,
        },
        in_force(track_settings(config), "sid"@) == if config.subtitles {
            None
        } else {
            Some(SettingView::Text("no"@))
        },
{
    lemma_setting_names();
    reveal_with_fuel(in_force, 3);
    let a = language_settings("alang"@, config.audio_language);
    let b = language_settings("slang"@, config.subtitle_language);
    let c = when(!config.subtitles, seq![("sid"@, SettingView::Text("no"@))]);
    lemma_in_force_concat(a + b, c, name);
    lemma_in_force_concat(a, b, name);
    lemma_in_force_concat(a + b, c, "alang"@);
    lemma_in_force_concat(a, b, "alang"@);
    lemma_in_force_concat(a + b, c, "slang"@);
    lemma_in_force_concat(a, b, "slang"@);
    lemma_in_force_concat(a + b, c, "sid"@);
    lemma_in_force_concat(a, b, "sid"@);
}

proof fn lemma_start_in_force(config: PlayerConfig, name: Seq<char>)
    ensures
        name != "pause"@ && name != "volume"@ && name != "mute"@ ==> in_force(
            start_settings(config),
            name,
        ) is None,
{
    reveal_with_fuel(in_force, 3);
    let a = when(config.start_paused, seq![("pause"@, SettingView::Flag(true))]);
    let b = seq![
        ("volume"@, SettingView::Number(clamped_volume(config.volume))),
        ("mute"@, SettingView::Flag(config.muted)),
    ];
    lemma_in_force_concat(a, b, name);
    assert(b.drop_last() =~= seq![b[0]]);
}

#[verifier::rlimit(40)]
proof fn lemma_cache_in_force(config: PlayerConfig, name: Seq<char>)
    ensures
        name != "cache"@ && name != "cache-secs"@ && name != "demuxer-readahead-secs"@ && name
            != "demuxer-max-bytes"@ ==> in_force(cache_settings(config), name) is None,
        in_force(cache_settings(config), "cache-secs"@) == Some(
            SettingView::Number(config.readahead_ms),
        ),
        in_force(cache_settings(config), "demuxer-readahead-secs"@) == Some(
            SettingView::Number(config.readahead_ms),
        ),
        in_force(cache_settings(config), "demuxer-max-bytes"@) == match config.demuxer_max_bytes {
            Some(bytes) => Some(SettingView::Whole(bytes as i64)),
            None => None,
        },
{
    lemma_setting_names();
    reveal_with_fuel(in_force, 4);
    let a = seq![
        ("cache"@, SettingView::Text("yes"@)),
        ("cache-secs"@, SettingView::Number(config.readahead_ms)),
        ("demuxer-readahead-secs"@, SettingView::Number(config.readahead_ms)),
    ];
    let b = match config.demuxer_max_bytes {
        Some(bytes) => seq![("demuxer-max-bytes"@, SettingView::Whole(bytes as i64))],
        None => Seq::empty(),
    };
    assert(a.drop_last() =~= seq![a[0], a[1]]);
    assert(a.drop_last().drop_last() =~= seq![a[0]]);
    lemma_in_force_concat(a, b, name);
    lemma_in_force_concat(a, b, "cache-secs"@);
    lemma_in_force_concat(a, b, "demuxer-readahead-secs"@);
    lemma_in_force_concat(a, b, "demuxer-max-bytes"@);
}

proof fn lemma_window_in_force(config: PlayerConfig, name: Seq<char>)
    ensures
        name != "title"@ && name != "hwdec"@ && name != "osc"@ && name != "input-default-bindings"@
            && name != "input-vo-keyboard"@ ==> in_force(window_settings(config), name) is None,
        name != "vo"@ && name != "force-window"@ && name != "video-timing-offset"@ ==> in_force(
            output_settings(config.video),
            name,
        ) is None,
{
    reveal_with_fuel(in_force, 6);
    let a = window_settings(config);
    assert(a.drop_last() =~= seq![a[0], a[1], a[2], a[3]]);
    assert(a.drop_last().drop_last() =~= seq![a[0], a[1], a[2]]);
    assert(a.drop_last().drop_last().drop_last() =~= seq![a[0], a[1]]);
    assert(a.drop_last().drop_last().drop_last().drop_last() =~= seq![a[0]]);
    let b = output_settings(config.video);
    if config.video is Embedded {
        assert(b.drop_last() =~= seq![b[0], b[1]]);
        assert(b.drop_last().drop_last() =~= seq![b[0]]);
    }
}

proof fn lemma_rest_in_force(config: PlayerConfig, name: Seq<char>)
    requires
        name == "alang"@ || name == "slang"@ || name == "sid"@,
    ensures
        in_force(start_settings(config), name) is None,
        in_force(cache_settings(config), name) is None,
        in_force(output_settings(config.video), name) is None,
        in_force(window_settings(config), name) is None,
{
    lemma_setting_names();
    lemma_start_in_force(config, name);
    lemma_cache_in_force(config, name);
    lemma_window_in_force(config, name);
}

/// How long each of the names of settings is, and what it begins with: no two of
/// them are the same.
proof fn lemma_setting_names()
    ensures
        "title"@.len() == 5 && "title"@[0] == 't' && "title"@[1] == 'i',
        "hwdec"@.len() == 5 && "hwdec"@[0] == 'h' && "hwdec"@[1] == 'w',
        "osc"@.len() == 3 && "osc"@[0] == 'o' && "osc"@[1] == 's',
        "input-default-bindings"@.len() == 22 && "input-default-bindings"@[0] == 'i' && "input-default-bindings"@[1] == 'n',
        "input-vo-keyboard"@.len() == 17 && "input-vo-keyboard"@[0] == 'i' && "input-vo-keyboard"@[1] == 'n',
        "vo"@.len() == 2 && "vo"@[0] == 'v' && "vo"@[1] == 'o',
        "force-window"@.len() == 12 && "force-window"@[0] == 'f' && "force-window"@[1] == 'o',
        "video-timing-offset"@.len() == 19 && "video-timing-offset"@[0] == 'v' && "video-timing-offset"@[1] == 'i',
        "cache"@.len() == 5 && "cache"@[0] == 'c' && "cache"@[1] == 'a',
        "cache-secs"@.len() == 10 && "cache-secs"@[0] == 'c' && "cache-secs"@[1] == 'a',
        "demuxer-readahead-secs"@.len() == 22 && "demuxer-readahead-secs"@[0] == 'd' && "demuxer-readahead-secs"@[1] == 'e',
        "demuxer-max-bytes"@.len() == 17 && "demuxer-max-bytes"@[0] == 'd' && "demuxer-max-bytes"@[1] == 'e',
        "pause"@.len() == 5 && "pause"@[0] == 'p' && "pause"@[1] == 'a',
        "volume"@.len() == 6 && "volume"@[0] == 'v' && "volume"@[1] == 'o',
        "mute"@.len() == 4 && "mute"@[0] == 'm' && "mute"@[1] == 'u',
        "alang"@.len() == 5 && "alang"@[0] == 'a' && "alang"@[1] == 'l',
        "slang"@.len() == 5 && "slang"@[0] == 's' && "slang"@[1] == 'l',
        "sid"@.len() == 3 && "sid"@[0] == 's' && "sid"@[1] == 'i',
{
    reveal_strlit("title");
    reveal_strlit("hwdec");
    reveal_strlit("osc");
    reveal_strlit("input-default-bindings");
    reveal_strlit("input-vo-keyboard");
    reveal_strlit("vo");
    reveal_strlit("force-window");
    reveal_strlit("video-timing-offset");
    reveal_strlit("cache");
    reveal_strlit("cache-secs");
    reveal_strlit("demuxer-readahead-secs");
    reveal_strlit("demuxer-max-bytes");
    reveal_strlit("pause");
    reveal_strlit("volume");
    reveal_strlit("mute");
    reveal_strlit("alang");
    reveal_strlit("slang");
    reveal_strlit("sid");
}

/// What the player observes comes back as what it is of: each property that is
/// watched has an event of its own, with the value as it was reported.
pub proof fn law_what_is_observed_is_told(number: i64, flag: bool, name: Seq<char>)
    ensures
        property_event("time-pos"@, PropertyValue::Number(number)) == PlayerEvent::Position(number),
        property_event("duration"@, PropertyValue::Number(number)) == PlayerEvent::Duration(number),
        property_event("volume"@, PropertyValue::Number(number)) == PlayerEvent::Volume(number),
        property_event("pause"@, PropertyValue::Flag(flag)) == PlayerEvent::Paused(flag),
        property_event("mute"@, PropertyValue::Flag(flag)) == PlayerEvent::Muted(flag),
        name != "time-pos"@ && name != "duration"@ && name != "volume"@ ==> property_event(
            name,
            PropertyValue::Number(number),
        ) == PlayerEvent::Other,
        name != "pause"@ && name != "mute"@ ==> property_event(name, PropertyValue::Flag(flag))
            == PlayerEvent::Other,
{
    reveal_strlit("time-pos");
    reveal_strlit("duration");
    reveal_strlit("volume");
    reveal_strlit("pause");
    reveal_strlit("mute");
    assert("time-pos"@[0] == 't' && "duration"@[0] == 'd' && "volume"@[0] == 'v' && "pause"@[0]
        == 'p' && "mute"@[0] == 'm');
}

/// A volume between nothing and full is played as it is; any other at the nearest
/// of the two.
pub proof fn law_a_volume_is_kept_in_range(volume: i64)
    ensures
        0 <= volume <= 100_000 ==> clamped_volume(volume) == volume,
        volume < 0 ==> clamped_volume(volume) == 0,
        volume > 100_000 ==> clamped_volume(volume) == 100_000,
{
}

/// The window is called what it was to be called, decodes in hardware where that
/// was chosen, and has the controls and the keys that were chosen.
#[verifier::rlimit(40)]
pub proof fn law_the_window_is_as_it_was_told(config: PlayerConfig)
    ensures
        leaves_alone(config.options@, "title"@) ==> in_force(initial_settings(config), "title"@)
            == Some(SettingView::Text(config.window_title@)),
        leaves_alone(config.options@, "hwdec"@) ==> in_force(initial_settings(config), "hwdec"@)
            == Some(
            SettingView::Text(
                if config.hardware_decoding {
                    "auto-safe"@
                } else {
                    "no"@
                },
            ),
        ),
        leaves_alone(config.options@, "osc"@) ==> in_force(initial_settings(config), "osc"@)
            == Some(SettingView::Flag(config.on_screen_controller)),
        leaves_alone(config.options@, "input-default-bindings"@) ==> in_force(
            initial_settings(config),
            "input-default-bindings"@,
        ) == Some(SettingView::Flag(config.default_keybindings)),
        leaves_alone(config.options@, "force-window"@) ==> in_force(
            initial_settings(config),
            "force-window"@,
        ) == Some(SettingView::Flag(config.video is Window)),
        leaves_alone(config.options@, "vo"@) ==> in_force(initial_settings(config), "vo"@)
            == if config.video is Window {
            None
        } else {
            Some(SettingView::Text("libmpv"@))
        },
{
    lemma_window_setting(config, "title"@);
    lemma_window_setting(config, "hwdec"@);
    lemma_window_setting(config, "osc"@);
    lemma_window_setting(config, "input-default-bindings"@);
    lemma_window_setting(config, "force-window"@);
    lemma_window_setting(config, "vo"@);
    lemma_window_values(config);
}

/// Nothing but the window and the output says anything of these.
#[verifier::rlimit(40)]
proof fn lemma_window_setting(config: PlayerConfig, name: Seq<char>)
    requires
        name == "title"@ || name == "hwdec"@ || name == "osc"@ || name == "input-default-bindings"@
            || name == "force-window"@ || name == "vo"@,
    ensures
        leaves_alone(config.options@, name) ==> in_force(initial_settings(config), name)
            == if in_force(output_settings(config.video), name) is Some {
            in_force(output_settings(config.video), name)
        } else {
            in_force(window_settings(config), name)
        },
{
    lemma_setting_names();
    lemma_tracks_in_force(config, name);
    lemma_start_in_force(config, name);
    lemma_cache_in_force(config, name);
    if leaves_alone(config.options@, name) {
        lemma_in_force_groups(config, name);
    }
}

#[verifier::rlimit(40)]
proof fn lemma_window_values(config: PlayerConfig)
    ensures
        in_force(window_settings(config), "title"@) == Some(
            SettingView::Text(config.window_title@),
        ),
        in_force(window_settings(config), "hwdec"@) == Some(
            SettingView::Text(
                if config.hardware_decoding {
                    "auto-safe"@
                } else {
                    "no"@
                },
            ),
        ),
        in_force(window_settings(config), "osc"@) == Some(
            SettingView::Flag(config.on_screen_controller),
        ),
        in_force(window_settings(config), "input-default-bindings"@) == Some(
            SettingView::Flag(config.default_keybindings),
        ),
        in_force(window_settings(config), "vo"@) is None,
        in_force(window_settings(config), "force-window"@) is None,
        in_force(output_settings(config.video), "title"@) is None,
        in_force(output_settings(config.video), "hwdec"@) is None,
        in_force(output_settings(config.video), "osc"@) is None,
        in_force(output_settings(config.video), "input-default-bindings"@) is None,
        in_force(output_settings(config.video), "force-window"@) == Some(
            SettingView::Flag(config.video is Window),
        ),
        in_force(output_settings(config.video), "vo"@) == if config.video is Window {
            None
        } else {
            Some(SettingView::Text("libmpv"@))
        },
{
    lemma_setting_names();
    let a = window_settings(config);
    lemma_last_is_in_force(a, 0);
    lemma_last_is_in_force(a, 1);
    lemma_last_is_in_force(a, 2);
    lemma_last_is_in_force(a, 3);
    lemma_window_in_force(config, "vo"@);
    lemma_window_in_force(config, "force-window"@);
    lemma_window_in_force(config, "title"@);
    lemma_window_in_force(config, "hwdec"@);
    lemma_window_in_force(config, "osc"@);
    lemma_window_in_force(config, "input-default-bindings"@);
    let b = output_settings(config.video);
    if config.video is Embedded {
        lemma_last_is_in_force(b, 0);
        lemma_last_is_in_force(b, 1);
    } else {
        lemma_last_is_in_force(b, 0);
        reveal_with_fuel(in_force, 2);
    }
}

} // verus!
