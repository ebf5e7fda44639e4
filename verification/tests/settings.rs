use hanzi_core::settings::{
    BoardSize, Pace, SettingsError, SettingsPatch, SettingsStore, FORMAT_VERSION,
};

#[test]
fn setting_the_same_value_is_not_a_change() {
    let mut store = SettingsStore::in_memory();
    assert!(store.set_click_to_draw(Some(true)));
    assert!(!store.set_click_to_draw(Some(true)));
    assert!(store.set_click_to_draw(Some(false)));
    assert!(store.set_click_to_draw(None));
    assert!(!store.set_click_to_draw(None));
}

#[test]
fn clearing_the_seen_version_goes_back_to_never_shown() {
    // The absence is the only "unread" there is — a blank version is not a
    // release whose notes were read, so it clears rather than storing "".
    let mut store = SettingsStore::in_memory();
    assert!(store.set_whats_new_seen(Some("0.5.6")));
    assert!(store.set_whats_new_seen(Some("   ")));
    assert_eq!(store.view().whats_new_seen(), None);
    assert!(!store.set_whats_new_seen(None), "already unread");
}

#[test]
fn clearing_the_voice_goes_back_to_automatic_rather_than_an_empty_name() {
    let mut store = SettingsStore::in_memory();
    assert!(store.set_voice(Some("Meijia")));
    assert!(store.set_voice(Some("   ")));
    assert_eq!(store.view().voice(), None);
    assert!(!store.set_voice(None), "already unset");
}

#[test]
fn setting_a_preference_to_its_current_value_is_not_a_change() {
    let mut store = SettingsStore::in_memory();
    assert!(store.set_animation_pace(Pace::Fast));
    assert!(!store.set_animation_pace(Pace::Fast));
    assert!(store.set_board_size(BoardSize::Compact));
    assert!(!store.set_board_size(BoardSize::Compact));
    assert!(store.set_voice(Some("Tingting")));
    assert!(!store.set_voice(Some("Tingting")));
}

#[test]
fn a_preference_with_no_device_signal_defaults_rather_than_going_unset() {
    let store = SettingsStore::in_memory();
    assert_eq!(store.settings().animation_pace, Pace::Normal);
    assert_eq!(store.settings().board_size, BoardSize::Normal);
    assert_eq!(store.settings().voice, None);
    assert!(!store.settings().intro_seen);
    assert_eq!(store.settings().whats_new_seen, None);
    assert!(!store.settings().tone_colours, "colour is off until asked for");
    assert_eq!(store.click_to_draw(), None);
    assert!(store.view().warning.is_none());
}

#[test]
fn every_choice_is_offered_in_order() {
    assert_eq!(Pace::ALL, [Pace::Slow, Pace::Normal, Pace::Fast]);
    assert_eq!(Pace::default(), Pace::Normal);
    assert_eq!(BoardSize::ALL, [BoardSize::Compact, BoardSize::Normal, BoardSize::Large]);
    assert_eq!(BoardSize::default(), BoardSize::Normal);
}

#[test]
fn a_voice_name_is_stored_trimmed() {
    let mut store = SettingsStore::in_memory();
    assert!(store.set_voice(Some("  Meijia ")));
    assert_eq!(store.view().voice(), Some("Meijia"));
    assert!(!store.set_voice(Some("Meijia")), "the same name once trimmed");
}

#[test]
fn a_save_with_nothing_changed_writes_nothing() {
    let mut store = SettingsStore::in_memory();
    store.save().unwrap();
    assert!(store.set_intro_seen(true));
    assert!(!store.set_intro_seen(true), "already dismissed");
    store.save().unwrap();
    assert!(store.view().intro_seen());
    assert!(store.set_tone_colours(true));
    assert!(store.view().tone_colours());
    assert_eq!(store.path(), "");
}

#[test]
fn an_empty_patch_asks_for_nothing() {
    assert!(SettingsPatch::default().is_empty());
    let patch = SettingsPatch {
        voice: Some(String::new()),
        ..SettingsPatch::default()
    };
    assert!(!patch.is_empty(), "an empty voice is a real instruction");
}

#[test]
fn settings_errors_are_worded() {
    assert_eq!(SettingsError::Io("disk full".into()).message(), "disk full");
    assert_eq!(
        SettingsError::Malformed("eof".into()).message(),
        "it is not valid JSON: eof"
    );
    assert_eq!(
        SettingsError::UnsupportedVersion(FORMAT_VERSION + 1).message(),
        "it was written by a newer version of the app (format 2, this build understands 1)"
    );
}

use hanzi_core::settings::{Settings, SettingsDocument, SettingsSink};
use std::cell::RefCell;
use std::rc::Rc;

struct CountingSink {
    saved: Rc<RefCell<Vec<Settings>>>,
    fail: bool,
    answered: Option<Result<(), SettingsError>>,
}

impl SettingsSink for CountingSink {
    fn written(&self) -> Option<Settings> {
        self.saved.borrow().last().cloned()
    }

    fn outcome(&self) -> Option<Result<(), SettingsError>> {
        self.answered.clone()
    }

    fn load(&self) -> Result<Settings, SettingsError> {
        match self.saved.borrow().last() {
            Some(s) => Ok(s.clone()),
            None => Ok(Settings::default()),
        }
    }

    fn save(&mut self, settings: &Settings) -> Result<(), SettingsError> {
        if self.fail {
            self.answered = Some(Err(SettingsError::Io("refused".into())));
            return Err(SettingsError::Io("refused".into()));
        }
        self.saved.borrow_mut().push(settings.clone());
        self.answered = Some(Ok(()));
        Ok(())
    }
}

#[test]
fn a_sink_is_written_only_when_something_changed() {
    let saved = Rc::new(RefCell::new(Vec::new()));
    let sink = CountingSink { saved: Rc::clone(&saved), fail: false, answered: None };
    let mut store = SettingsStore::open_with(Box::new(sink)).unwrap();
    store.save().unwrap();
    assert!(saved.borrow().is_empty(), "nothing chosen is not a document");
    assert!(store.set_click_to_draw(Some(false)));
    store.save().unwrap();
    assert_eq!(saved.borrow().len(), 1);
    assert_eq!(saved.borrow()[0].click_to_draw, Some(false));
    store.save().unwrap();
    assert_eq!(saved.borrow().len(), 1, "a second save has nothing to write");

    let reopened = SettingsStore::open_with(Box::new(CountingSink {
        saved: Rc::clone(&saved),
        fail: false,
        answered: None,
    }))
    .unwrap();
    assert_eq!(reopened.click_to_draw(), Some(false));
}

#[test]
fn a_failed_save_keeps_the_change_for_the_next_one() {
    let saved = Rc::new(RefCell::new(Vec::new()));
    let mut store = SettingsStore::open_with(Box::new(CountingSink {
        saved: Rc::clone(&saved),
        fail: true,
        answered: None,
    }))
    .unwrap();
    assert!(store.set_tone_colours(true));
    assert!(matches!(store.save(), Err(SettingsError::Io(_))));
    assert!(matches!(store.save(), Err(SettingsError::Io(_))), "still unsaved, so tried again");
}

#[test]
fn a_future_version_is_refused() {
    let sink = CountingSink { saved: Rc::new(RefCell::new(Vec::new())), fail: false, answered: None };
    let document = SettingsDocument { version: FORMAT_VERSION + 1, settings: Settings::default() };
    assert!(matches!(
        SettingsStore::open("settings.json".to_string(), Some(document), Box::new(sink)),
        Err(SettingsError::UnsupportedVersion(2))
    ));

    let sink = CountingSink { saved: Rc::new(RefCell::new(Vec::new())), fail: false, answered: None };
    let store = SettingsStore::open("settings.json".to_string(), None, Box::new(sink)).unwrap();
    assert_eq!(store.path(), "settings.json");
    assert_eq!(store.click_to_draw(), None);
}

#[test]
fn a_store_keeps_what_its_sink_loaded_and_hands_on_its_error() {
    let saved = Rc::new(RefCell::new(Vec::new()));
    let mut chosen = Settings::default();
    chosen.tone_colours = true;
    let sink = CountingSink { saved: Rc::clone(&saved), fail: false, answered: None };
    let mut store = SettingsStore::from_loaded(Ok(chosen.clone()), Box::new(sink)).unwrap();
    assert_eq!(*store.settings(), chosen);
    assert_eq!(store.path(), "");
    store.save().unwrap();
    assert!(saved.borrow().is_empty(), "what was loaded is not a change");
    assert!(store.set_intro_seen(true));
    store.save().unwrap();
    assert_eq!(saved.borrow().last(), Some(store.settings()));

    let sink = CountingSink { saved: Rc::new(RefCell::new(Vec::new())), fail: false, answered: None };
    let refused = SettingsStore::from_loaded(Err(SettingsError::Malformed("bad".into())), Box::new(sink));
    assert!(matches!(refused, Err(SettingsError::Malformed(m)) if m == "bad"));
}
