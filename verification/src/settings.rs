//! The learner's settings.
//!
//! Not study data: nothing here is graded, scheduled or reviewed, and losing it
//! costs a preference rather than work. Every persisted thing follows one shape:
//! a small typed document, and a sink that decides where it lives (see
//! [`SettingsSink`]).
//!
//! `None` means the learner has not chosen, which is not the same as `false`.
//! That only earns its keep for a preference the interface can resolve from the
//! device (click-to-draw). A preference with no device signal ([`Pace`],
//! [`BoardSize`]) is a plain value with a `Default` instead.
//!
//! Every setter answers whether it changed anything, and a save with nothing
//! changed is not a write.

use vstd::prelude::*;

use crate::text::{append_str, decimal, decimal_string, lemma_trim_trimmed, str_equal, trim, trimmed};

verus! {

/// Format version written into the settings document.
pub const FORMAT_VERSION: u32 = 1;

/// Why a settings operation failed.
#[derive(Clone, Debug)]
pub enum SettingsError {
    /// The document could not be read or written.
    Io(String),
    /// The document is not valid JSON, or does not match the schema.
    Malformed(String),
    /// The document was written by a newer version of the app.
    UnsupportedVersion(u32),
}

impl SettingsError {
    /// The sentence that reports this error.
    pub open spec fn spec_message(&self) -> Seq<char> {
        match self {
            SettingsError::Io(why) => why@,
            SettingsError::Malformed(why) => "it is not valid JSON: "@ + why@,
            SettingsError::UnsupportedVersion(v) => "it was written by a newer version of the app (format "@
                + decimal(*v as nat) + ", this build understands "@ + decimal(
                FORMAT_VERSION as nat,
            ) + ")"@,
        }
    }

    /// The sentence that reports this error, as it is shown to the learner.
    pub fn message(&self) -> (r: String)
        ensures
            r@ == self.spec_message(),
    {
        match self {
            SettingsError::Io(why) => why.clone(),
            SettingsError::Malformed(why) => {
                let mut m = "it is not valid JSON: ".to_owned();
                append_str(&mut m, why.as_str());
                m
            },
            SettingsError::UnsupportedVersion(v) => {
                let mut m = "it was written by a newer version of the app (format ".to_owned();
                append_str(&mut m, decimal_string(*v as u64).as_str());
                append_str(&mut m, ", this build understands ");
                append_str(&mut m, decimal_string(FORMAT_VERSION as u64).as_str());
                append_str(&mut m, ")");
                m
            },
        }
    }
}

/// How fast the stroke-order animation runs.
///
/// A closed choice rather than a number of milliseconds. The value is a name,
/// not a scale: what each name does to the animation is the interface's
/// business.
#[derive(Clone, Copy, Debug, PartialEq, Eq, Structural)]
pub enum Pace {
    /// Slower: for a learner meeting stroke order for the first time.
    Slow,
    /// The pace the animation has always had.
    Normal,
    /// Faster: for revising a character already known.
    Fast,
}

impl Pace {
    /// Every pace, in the order the settings screen offers them.
    pub const ALL: [Pace; 3] = [Pace::Slow, Pace::Normal, Pace::Fast];
}

impl Default for Pace {
    /// Normal, the pace the animation shipped with.
    fn default() -> (r: Pace)
        ensures
            r == Pace::Normal,
    {
        Pace::Normal
    }
}

/// How large the practice board is drawn: a scale, named, rather than a pixel
/// size.
#[derive(Clone, Copy, Debug, PartialEq, Eq, Structural)]
pub enum BoardSize {
    /// Smallest, for a window with little room to spare.
    Compact,
    /// The size the board has always been.
    Normal,
    /// Largest, for a big screen or a stylus.
    Large,
}

impl BoardSize {
    /// Every size, in the order the settings screen offers them.
    pub const ALL: [BoardSize; 3] = [BoardSize::Compact, BoardSize::Normal, BoardSize::Large];
}

impl Default for BoardSize {
    /// Normal, for the reason [`Pace::default`] gives.
    fn default() -> (r: BoardSize)
        ensures
            r == BoardSize::Normal,
    {
        BoardSize::Normal
    }
}


/// The learner's preferences.
///
/// Absent options are unset, not defaulted: `Default` is every option `None`,
/// which is exactly a fresh install.
#[derive(Clone, Debug, PartialEq)]
pub struct Settings {
    /// How a stroke is drawn: `Some(true)` click to start and click to finish,
    /// `Some(false)` press and drag, `None` let the device decide.
    pub click_to_draw: Option<bool>,
    /// The pronunciation voice to use, by name; `None` is the automatic choice.
    pub voice: Option<String>,
    /// How fast the stroke-order animation runs.
    pub animation_pace: Pace,
    /// How large the board is drawn.
    pub board_size: BoardSize,
    /// Whether characters are shown coloured by the tone they are read with.
    /// Off by default.
    pub tone_colours: bool,
    /// Whether the introduction has been read and dismissed.
    pub intro_seen: bool,
    /// The app version whose "what's new" pages have been read, if any.
    pub whats_new_seen: Option<String>,
}

impl Default for Settings {
    fn default() -> (r: Settings)
        ensures
            r.is_fresh(),
    {
        Settings {
            click_to_draw: None,
            voice: None,
            animation_pace: Pace::Normal,
            board_size: BoardSize::Normal,
            tone_colours: false,
            intro_seen: false,
            whats_new_seen: None,
        }
    }
}

impl Settings {
    /// Nothing chosen: a fresh install.
    pub open spec fn is_fresh(&self) -> bool {
        &&& self.click_to_draw is None
        &&& self.voice is None
        &&& self.animation_pace == Pace::Normal
        &&& self.board_size == BoardSize::Normal
        &&& !self.tone_colours
        &&& !self.intro_seen
        &&& self.whats_new_seen is None
    }
}

/// The characters of an optional string.
pub open spec fn text_of(o: Option<String>) -> Option<Seq<char>> {
    match o {
        Some(s) => Some(s@),
        None => None,
    }
}

/// The characters of an optional string slice.
pub open spec fn str_text_of(o: Option<&str>) -> Option<Seq<char>> {
    match o {
        Some(s) => Some(s@),
        None => None,
    }
}

/// A name as it is stored: trimmed, and a blank one is no name at all.
pub open spec fn chosen_name(value: Option<Seq<char>>) -> Option<Seq<char>> {
    match value {
        Some(v) => if trim(v).len() == 0 {
            None
        } else {
            Some(trim(v))
        },
        None => None,
    }
}

/// Where settings are kept.
///
/// A file or a database implements this; the store hands it the whole document
/// when something changed.
pub trait SettingsSink {
    /// The settings last handed to this sink with success, if any were.
    spec fn written(&self) -> Option<Settings>;

    /// What the last save answered, if a save was made.
    spec fn outcome(&self) -> Option<Result<(), SettingsError>>;

    fn load(&self) -> Result<Settings, SettingsError>;

    fn save(&mut self, settings: &Settings) -> (r: Result<(), SettingsError>)
        ensures
            r is Ok ==> final(self).written() == Some(*settings),
            final(self).outcome() == Some(r),
    ;
}

/// One change to the preferences, as a screen sends it. Every field is
/// optional, and absent means leave that preference alone.
#[derive(Clone, Debug, PartialEq)]
pub struct SettingsPatch {
    /// Choose how a stroke is drawn.
    pub click_to_draw: Option<bool>,
    /// Choose the pronunciation voice by name; `""` goes back to the automatic
    /// choice.
    pub voice: Option<String>,
    /// Choose how fast the stroke-order animation runs.
    pub animation_pace: Option<Pace>,
    /// Choose how large the board is drawn.
    pub board_size: Option<BoardSize>,
    /// Turn colouring by tone on or off.
    pub tone_colours: Option<bool>,
    /// Record that the introduction has been dismissed.
    pub intro_seen: Option<bool>,
    /// Record whose "what's new" pages have been read.
    pub whats_new_seen: Option<String>,
}

impl Default for SettingsPatch {
    fn default() -> (r: SettingsPatch)
        ensures
            r.asks_nothing(),
    {
        SettingsPatch {
            click_to_draw: None,
            voice: None,
            animation_pace: None,
            board_size: None,
            tone_colours: None,
            intro_seen: None,
            whats_new_seen: None,
        }
    }
}

impl SettingsPatch {
    /// Every field absent.
    pub open spec fn asks_nothing(&self) -> bool {
        &&& self.click_to_draw is None
        &&& self.voice is None
        &&& self.animation_pace is None
        &&& self.board_size is None
        &&& self.tone_colours is None
        &&& self.intro_seen is None
        &&& self.whats_new_seen is None
    }

    /// True when the patch asks for nothing at all, so that it is answered
    /// without a write.
    pub fn is_empty(&self) -> (r: bool)
        ensures
            r == self.asks_nothing(),
    {
        self.click_to_draw.is_none() && self.voice.is_none() && self.animation_pace.is_none()
            && self.board_size.is_none() && self.tone_colours.is_none() && self.intro_seen.is_none()
            && self.whats_new_seen.is_none()
    }
}

/// The persisted document: a version, and the settings. A document written by
/// a newer build is refused rather than read for fields this build does not
/// know.
#[derive(Clone, Debug)]
pub struct SettingsDocument {
    pub version: u32,
    pub settings: Settings,
}

/// The interface's view of the settings, with the save-failure warning the other
/// views carry.
#[derive(Clone, Debug, PartialEq)]
pub struct SettingsView {
    pub settings: Settings,
    pub warning: Option<String>,
}

impl SettingsView {
    /// How a stroke should be drawn, or `None` if nobody has chosen.
    pub fn click_to_draw(&self) -> (r: Option<bool>)
        ensures
            r == self.settings.click_to_draw,
    {
        self.settings.click_to_draw
    }

    /// The voice to pronounce with, or `None` for the automatic choice.
    pub fn voice(&self) -> (r: Option<&str>)
        ensures
            str_text_of(r) == text_of(self.settings.voice),
    {
        match &self.settings.voice {
            Some(v) => Some(v.as_str()),
            None => None,
        }
    }

    /// How fast the stroke-order animation should run.
    pub fn pace(&self) -> (r: Pace)
        ensures
            r == self.settings.animation_pace,
    {
        self.settings.animation_pace
    }

    /// How large the board should be drawn.
    pub fn board_size(&self) -> (r: BoardSize)
        ensures
            r == self.settings.board_size,
    {
        self.settings.board_size
    }

    /// Whether characters should be coloured by the tone they are read with.
    pub fn tone_colours(&self) -> (r: bool)
        ensures
            r == self.settings.tone_colours,
    {
        self.settings.tone_colours
    }

    /// Whether the introduction has been read and dismissed.
    pub fn intro_seen(&self) -> (r: bool)
        ensures
            r == self.settings.intro_seen,
    {
        self.settings.intro_seen
    }

    /// The version whose "what's new" pages have been read, if any.
    pub fn whats_new_seen(&self) -> (r: Option<&str>)
        ensures
            str_text_of(r) == text_of(self.settings.whats_new_seen),
    {
        match &self.settings.whats_new_seen {
            Some(v) => Some(v.as_str()),
            None => None,
        }
    }
}


fn copy_text(o: &Option<String>) -> (r: Option<String>)
    ensures
        r == *o,
{
    match o {
        Some(v) => Some(v.clone()),
        None => None,
    }
}

fn same_text(a: &Option<String>, b: &Option<String>) -> (r: bool)
    ensures
        r == (text_of(*a) == text_of(*b)),
{
    match (a, b) {
        (Some(x), Some(y)) => str_equal(x.as_str(), y.as_str()),
        (None, None) => true,
        _ => false,
    }
}

/// A name as it is stored: trimmed, and blank is none.
fn chosen(value: Option<&str>) -> (r: Option<String>)
    ensures
        text_of(r) == chosen_name(str_text_of(value)),
{
    match value {
        Some(v) => {
            let t = trimmed(v);
            if t.as_str().is_empty() {
                None
            } else {
                Some(t)
            }
        },
        None => None,
    }
}

/// A copy of `s`, field by field.
fn copy_settings(s: &Settings) -> (r: Settings)
    ensures
        r == *s,
{
    Settings {
        click_to_draw: s.click_to_draw,
        voice: copy_text(&s.voice),
        animation_pace: s.animation_pace,
        board_size: s.board_size,
        tone_colours: s.tone_colours,
        intro_seen: s.intro_seen,
        whats_new_seen: copy_text(&s.whats_new_seen),
    }
}

/// The learner's settings, kept by a [`SettingsSink`] or only in memory.
pub struct SettingsStore {
    path: String,
    settings: Settings,
    sink: Option<Box<dyn SettingsSink>>,
    /// Set when a change has been made but not yet written, so a save that has
    /// nothing to do can say so rather than rewriting the file.
    dirty: bool,
}

impl SettingsStore {
    /// The settings as they stand.
    pub closed spec fn current(&self) -> Settings {
        self.settings
    }

    /// Whether a change has been made since the last save.
    pub closed spec fn unsaved(&self) -> bool {
        self.dirty
    }

    /// The file the settings are kept in; empty when a sink or nothing holds
    /// them.
    pub closed spec fn file(&self) -> Seq<char> {
        self.path@
    }

    /// Whether a sink keeps the settings.
    pub closed spec fn kept(&self) -> bool {
        self.sink is Some
    }

    /// What the sink, if there is one, was last handed with success.
    pub closed spec fn sink_written(&self) -> Option<Settings> {
        match self.sink {
            Some(sink) => sink.written(),
            None => None,
        }
    }

    /// What the sink, if there is one, answered to its last save.
    pub closed spec fn sink_outcome(&self) -> Option<Result<(), SettingsError>> {
        match self.sink {
            Some(sink) => sink.outcome(),
            None => None,
        }
    }

    /// Everything but the settings is as it was in `old`.
    pub open spec fn same_place(&self, old: &SettingsStore) -> bool {
        self.file() == old.file() && self.kept() == old.kept()
    }

    /// Open the settings kept in the file at `path`, which `file` writes.
    ///
    /// `found` is the document read from the file, `None` when there is no file
    /// yet, which is a fresh install. A document from a newer version of the app
    /// is refused.
    pub fn open(path: String, found: Option<SettingsDocument>, file: Box<dyn SettingsSink>) -> (r:
        Result<Self, SettingsError>)
        ensures
            match found {
                None => r is Ok && r->Ok_0.current().is_fresh(),
                Some(d) => if d.version > FORMAT_VERSION {
                    r == Err::<Self, SettingsError>(SettingsError::UnsupportedVersion(d.version))
                } else {
                    r is Ok && r->Ok_0.current() == d.settings
                },
            },
            r is Ok ==> {
                &&& r->Ok_0.file() == path@
                &&& r->Ok_0.kept()
                &&& !r->Ok_0.unsaved()
            },
    {
        let settings = match found {
            None => Settings::default(),
            Some(d) => {
                if d.version > FORMAT_VERSION {
                    return Err(SettingsError::UnsupportedVersion(d.version));
                }
                d.settings
            },
        };
        Ok(SettingsStore { path, settings, sink: Some(file), dirty: false })
    }

    /// Open settings kept by `sink`: whatever it loads, or its error.
    pub fn open_with(sink: Box<dyn SettingsSink>) -> (r: Result<Self, SettingsError>)
        ensures
            r is Ok ==> {
                &&& r->Ok_0.file().len() == 0
                &&& r->Ok_0.kept()
                &&& !r->Ok_0.unsaved()
            },
    {
        let loaded = sink.load();
        Self::from_loaded(loaded, sink)
    }

    /// A store over `sink`, given what the sink loaded: the settings it gave,
    /// with nothing unsaved, or its error handed on unchanged.
    pub fn from_loaded(loaded: Result<Settings, SettingsError>, sink: Box<dyn SettingsSink>) -> (r:
        Result<Self, SettingsError>)
        ensures
            match loaded {
                Ok(s) => r is Ok && r->Ok_0.current() == s && r->Ok_0.file().len() == 0
                    && r->Ok_0.kept() && !r->Ok_0.unsaved(),
                Err(e) => r is Err && r->Err_0 == e,
            },
    {
        match loaded {
            Ok(settings) => Ok(
                SettingsStore { path: String::new(), settings, sink: Some(sink), dirty: false },
            ),
            Err(e) => Err(e),
        }
    }

    /// Settings in memory, with nothing behind them.
    pub fn in_memory() -> (r: Self)
        ensures
            r.current().is_fresh(),
            r.file().len() == 0,
            !r.kept(),
            !r.unsaved(),
    {
        SettingsStore {
            path: String::new(),
            settings: Settings::default(),
            sink: None,
            dirty: false,
        }
    }

    /// The file these settings are kept in, or empty when a sink of its own or
    /// nothing holds them.
    pub fn path(&self) -> (r: &str)
        ensures
            r@ == self.file(),
    {
        self.path.as_str()
    }

    pub fn settings(&self) -> (r: &Settings)
        ensures
            *r == self.current(),
    {
        &self.settings
    }

    /// How a stroke should be drawn, or `None` if the learner has not chosen.
    pub fn click_to_draw(&self) -> (r: Option<bool>)
        ensures
            r == self.current().click_to_draw,
    {
        self.settings.click_to_draw
    }

    /// Choose how a stroke is drawn, or pass `None` to go back to the device's
    /// own default. Returns true when that was a change.
    pub fn set_click_to_draw(&mut self, value: Option<bool>) -> (changed: bool)
        ensures
            changed == (old(self).current().click_to_draw != value),
            final(self).current() == (Settings { click_to_draw: value, ..old(self).current() }),
            final(self).unsaved() == (old(self).unsaved() || changed),
            final(self).same_place(old(self)),
    {
        if self.settings.click_to_draw == value {
            return false;
        }
        self.settings.click_to_draw = value;
        self.dirty = true;
        true
    }

    /// Choose the voice to pronounce with, or `None` for the automatic choice.
    ///
    /// The name is trimmed, and a blank one is stored as `None`, so a field the
    /// learner has cleared goes back to the automatic choice.
    pub fn set_voice(&mut self, value: Option<&str>) -> (changed: bool)
        ensures
            changed == (text_of(old(self).current().voice) != chosen_name(str_text_of(value))),
            text_of(final(self).current().voice) == chosen_name(str_text_of(value)),
            changed || final(self).current() == old(self).current(),
            final(self).current() == (Settings {
                voice: final(self).current().voice,
                ..old(self).current()
            }),
            final(self).unsaved() == (old(self).unsaved() || changed),
            final(self).same_place(old(self)),
    {
        let value = chosen(value);
        if same_text(&self.settings.voice, &value) {
            return false;
        }
        self.settings.voice = value;
        self.dirty = true;
        true
    }

    /// Choose how fast the stroke-order animation runs.
    pub fn set_animation_pace(&mut self, value: Pace) -> (changed: bool)
        ensures
            changed == (old(self).current().animation_pace != value),
            final(self).current() == (Settings { animation_pace: value, ..old(self).current() }),
            final(self).unsaved() == (old(self).unsaved() || changed),
            final(self).same_place(old(self)),
    {
        if self.settings.animation_pace == value {
            return false;
        }
        self.settings.animation_pace = value;
        self.dirty = true;
        true
    }

    /// Choose how large the board is drawn.
    pub fn set_board_size(&mut self, value: BoardSize) -> (changed: bool)
        ensures
            changed == (old(self).current().board_size != value),
            final(self).current() == (Settings { board_size: value, ..old(self).current() }),
            final(self).unsaved() == (old(self).unsaved() || changed),
            final(self).same_place(old(self)),
    {
        if self.settings.board_size == value {
            return false;
        }
        self.settings.board_size = value;
        self.dirty = true;
        true
    }

    /// Turn colouring by tone on or off.
    pub fn set_tone_colours(&mut self, value: bool) -> (changed: bool)
        ensures
            changed == (old(self).current().tone_colours != value),
            final(self).current() == (Settings { tone_colours: value, ..old(self).current() }),
            final(self).unsaved() == (old(self).unsaved() || changed),
            final(self).same_place(old(self)),
    {
        if self.settings.tone_colours == value {
            return false;
        }
        self.settings.tone_colours = value;
        self.dirty = true;
        true
    }

    /// Record that the introduction has (or has not) been read.
    pub fn set_intro_seen(&mut self, value: bool) -> (changed: bool)
        ensures
            changed == (old(self).current().intro_seen != value),
            final(self).current() == (Settings { intro_seen: value, ..old(self).current() }),
            final(self).unsaved() == (old(self).unsaved() || changed),
            final(self).same_place(old(self)),
    {
        if self.settings.intro_seen == value {
            return false;
        }
        self.settings.intro_seen = value;
        self.dirty = true;
        true
    }

    /// Record which release's "what's new" pages have been read.
    ///
    /// The version is trimmed, and a blank one is stored as `None`: a version
    /// nobody can name is not a release whose notes have been read.
    pub fn set_whats_new_seen(&mut self, value: Option<&str>) -> (changed: bool)
        ensures
            changed == (text_of(old(self).current().whats_new_seen) != chosen_name(
                str_text_of(value),
            )),
            text_of(final(self).current().whats_new_seen) == chosen_name(str_text_of(value)),
            changed || final(self).current() == old(self).current(),
            final(self).current() == (Settings {
                whats_new_seen: final(self).current().whats_new_seen,
                ..old(self).current()
            }),
            final(self).unsaved() == (old(self).unsaved() || changed),
            final(self).same_place(old(self)),
    {
        let value = chosen(value);
        if same_text(&self.settings.whats_new_seen, &value) {
            return false;
        }
        self.settings.whats_new_seen = value;
        self.dirty = true;
        true
    }

    /// Settings as the interface sees them.
    pub fn view(&self) -> (r: SettingsView)
        ensures
            r.settings == self.current(),
            r.warning is None,
    {
        SettingsView { settings: copy_settings(&self.settings), warning: None }
    }

    /// Persist the settings, if anything changed.
    ///
    /// Through a sink the whole document is handed over; a store with none has
    /// nowhere to write. A save with nothing to write is not a write, and a save
    /// that fails leaves the change unsaved.
    pub fn save(&mut self) -> (r: Result<(), SettingsError>)
        ensures
            final(self).current() == old(self).current(),
            final(self).same_place(old(self)),
            !old(self).unsaved() ==> r is Ok && !final(self).unsaved(),
            !old(self).kept() ==> r is Ok && !final(self).unsaved(),
            r is Ok ==> !final(self).unsaved(),
            r is Err ==> final(self).unsaved(),
            old(self).unsaved() && old(self).kept() && r is Ok ==> final(self).sink_written()
                == Some(old(self).current()),
            old(self).unsaved() && old(self).kept() ==> final(self).sink_outcome() == Some(r),
            !(old(self).unsaved() && old(self).kept()) ==> r is Ok && final(self).sink_written()
                == old(self).sink_written() && final(self).sink_outcome() == old(self).sink_outcome(),
    {
        if !self.dirty {
            return Ok(());
        }
        let answer = match &mut self.sink {
            Some(sink) => sink.save(&self.settings),
            None => Ok(()),
        };
        if answer.is_ok() {
            self.dirty = false;
        }
        answer
    }
}


/// A stored voice or version name is trimmed and never blank, and storing the
/// stored name again is no change: setting a name that is already set answers
/// `false`.
pub proof fn law_a_stored_name_is_trimmed_and_storing_it_again_is_no_change(
    value: Option<Seq<char>>,
)
    ensures
        chosen_name(value) matches Some(n) ==> n.len() > 0 && trim(n) == n,
        chosen_name(chosen_name(value)) == chosen_name(value),
{
    if let Some(v) = value {
        lemma_trim_trimmed(v);
    }
}

} // verus!
