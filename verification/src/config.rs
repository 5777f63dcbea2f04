//! The settings that the store consumes, and their defaults.

use vstd::prelude::*;
use crate::summary::Favorite;
use crate::text::chars_of;

verus! {

/// The number of entries that are kept, unless configured otherwise.
pub const DEFAULT_HISTORY_SIZE: usize = 50;

/// A clipboard buffer that can be listened on.
#[derive(Clone, Copy, Debug, PartialEq, Eq, Structural)]
pub enum Buffer {
    /// The primary selection.
    Primary,
    /// The clipboard proper.
    Clipboard,
}

/// The settings.
#[derive(Clone, Debug, PartialEq, Eq)]
pub struct Config {
    /// The chooser: its executable, then its arguments.
    pub launcher: Vec<String>,
    /// The number of entries that are kept.
    pub history_size: usize,
    /// The favorites, in the order in which they are listed.
    pub favorites: Vec<Favorite>,
}

/// The number of entries to keep for a configured value: the value where it
/// is a positive number that fits, else the default.
pub open spec fn history_size_for(value: Option<i64>) -> usize {
    match value {
        Some(v) => if 1 <= v <= usize::MAX {
            v as usize
        } else {
            DEFAULT_HISTORY_SIZE
        },
        None => DEFAULT_HISTORY_SIZE,
    }
}

/// The buffers that a recording mode listens on: `primary`, `clipboard`, or
/// `both`; any other word names none.
pub open spec fn buffers_for(mode: Seq<char>) -> Seq<Buffer> {
    if mode == "primary"@ {
        seq![Buffer::Primary]
    } else if mode == "clipboard"@ {
        seq![Buffer::Clipboard]
    } else if mode == "both"@ {
        seq![Buffer::Primary, Buffer::Clipboard]
    } else {
        Seq::empty()
    }
}

/// The number of entries to keep for the configured value `value`.
pub fn history_size_of(value: Option<i64>) -> (size: usize)
    ensures
        size == history_size_for(value),
{
    match value {
        Some(v) => {
            if v >= 1 && v as u64 <= usize::MAX as u64 {
                v as usize
            } else {
                DEFAULT_HISTORY_SIZE
            }
        },
        None => DEFAULT_HISTORY_SIZE,
    }
}

/// Whether two strings hold the same characters.
pub fn same_text(a: &str, b: &str) -> (r: bool)
    ensures
        r == (a@ == b@),
{
    let x = chars_of(a);
    let y = chars_of(b);
    if x.len() != y.len() {
        return false;
    }
    let mut i: usize = 0;
    while i < x.len()
        invariant
            i <= x.len(),
            x.len() == y.len(),
            x@ == a@,
            y@ == b@,
            forall|k: int| 0 <= k < i ==> x@[k] == y@[k],
        decreases x.len() - i,
    {
        if x[i] != y[i] {
            return false;
        }
        i += 1;
    }
    assert(a@ =~= b@);
    true
}

/// The buffers that the recording mode `mode` listens on.
pub fn listeners_for(mode: &str) -> (buffers: Vec<Buffer>)
    ensures
        buffers@ == buffers_for(mode@),
{
    let mut buffers: Vec<Buffer> = Vec::new();
    if same_text(mode, "primary") {
        buffers.push(Buffer::Primary);
        assert(buffers@ =~= buffers_for(mode@));
    } else if same_text(mode, "clipboard") {
        buffers.push(Buffer::Clipboard);
        assert(buffers@ =~= buffers_for(mode@));
    } else if same_text(mode, "both") {
        buffers.push(Buffer::Primary);
        buffers.push(Buffer::Clipboard);
        assert(buffers@ =~= buffers_for(mode@));
    } else {
        assert(buffers@ =~= buffers_for(mode@));
    }
    buffers
}

/// The chooser that is run where none is configured: `tofi` with fuzzy
/// matching and a prompt.
pub open spec fn default_launcher() -> Seq<Seq<char>> {
    seq!["tofi"@, "--fuzzy-match=true"@, "--prompt-text=clapboard: "@]
}

/// The words of a command line, as sequences of characters.
pub open spec fn words_of(words: Seq<String>) -> Seq<Seq<char>> {
    Seq::new(words.len(), |i: int| words[i]@)
}

/// The chooser for a configured value: the value where it names an
/// executable, else the default.
pub open spec fn launcher_for(value: Option<Vec<String>>) -> Seq<Seq<char>> {
    match value {
        Some(words) => if words@.len() > 0 {
            words_of(words@)
        } else {
            default_launcher()
        },
        None => default_launcher(),
    }
}

impl Config {
    /// The settings that hold where nothing is configured: the default
    /// chooser, fifty entries, no favorites.
    pub fn defaults() -> (config: Config)
        ensures
            words_of(config.launcher@) == default_launcher(),
            config.history_size == DEFAULT_HISTORY_SIZE,
            config.favorites@.len() == 0,
    {
        let mut launcher: Vec<String> = Vec::new();
        launcher.push("tofi".to_owned());
        launcher.push("--fuzzy-match=true".to_owned());
        launcher.push("--prompt-text=clapboard: ".to_owned());
        assert(words_of(launcher@) =~= default_launcher());
        Config { launcher, history_size: DEFAULT_HISTORY_SIZE, favorites: Vec::new() }
    }

    /// The settings for what a settings file holds; whatever it lacks, or
    /// holds in a form that cannot be used, is as in the defaults.
    pub fn from_settings(
        launcher: Option<Vec<String>>,
        history_size: Option<i64>,
        favorites: Vec<Favorite>,
    ) -> (config: Config)
        ensures
            words_of(config.launcher@) == launcher_for(launcher),
            config.history_size == history_size_for(history_size),
            config.favorites == favorites,
    {
        let mut config = Config::defaults();
        match launcher {
            Some(words) => {
                if words.len() > 0 {
                    config.launcher = words;
                }
            },
            None => {},
        }
        config.history_size = history_size_of(history_size);
        config.favorites = favorites;
        config
    }
}

} // verus!
