use clapboard::capture::{capture, Offer};
use clapboard::config::{history_size_of, listeners_for, same_text, Buffer, Config, DEFAULT_HISTORY_SIZE};
use clapboard::index::{Source, SummaryIndex};
use clapboard::repository::{Repository, Representation};
use clapboard::resolve::{resolve, ResolveError, RestorePlan};
use clapboard::summary::{build, selection_of, Favorite};

fn favorite(label: &str, value: &str) -> Favorite {
    Favorite { label: label.to_string(), value: value.to_string() }
}

fn text_offer(text: &str) -> Vec<Offer> {
    vec![Offer { format: "text/plain".to_string(), bytes: Some(text.as_bytes().to_vec()) }]
}

#[test]
fn favorite_resolves_to_its_value() {
    let favorites = vec![favorite("todo", "buy milk")];
    let repo = Repository::new();
    let index = build(&repo, &favorites, 50);
    assert_eq!(
        resolve("todo", &index, &repo, &favorites),
        Ok(Some(RestorePlan::Text("buy milk".to_string())))
    );
    assert_eq!(
        resolve("  todo \n", &index, &repo, &favorites),
        Ok(Some(RestorePlan::Text("buy milk".to_string())))
    );
}

#[test]
fn entry_resolves_to_all_its_formats() {
    let mut repo = Repository::new();
    repo.put(7, "text/plain", b"hello".to_vec());
    repo.put(7, "text/html", b"<i>hello</i>".to_vec());
    let index = build(&repo, &Vec::new(), 50);
    assert_eq!(
        resolve("hello", &index, &repo, &Vec::new()),
        Ok(Some(RestorePlan::Formats(vec![
            Representation { format: "text/plain".to_string(), bytes: b"hello".to_vec() },
            Representation { format: "text/html".to_string(), bytes: b"<i>hello</i>".to_vec() },
        ])))
    );
}

#[test]
fn empty_selection_restores_nothing() {
    let mut repo = Repository::new();
    repo.put(7, "text/plain", b"hello".to_vec());
    let index = build(&repo, &Vec::new(), 50);
    assert_eq!(resolve("", &index, &repo, &Vec::new()), Ok(None));
    assert_eq!(resolve("  \n", &index, &repo, &Vec::new()), Ok(None));
    assert_eq!(resolve(&selection_of("\n"), &index, &repo, &Vec::new()), Ok(None));
}

#[test]
fn unknown_label_is_a_fault() {
    let mut repo = Repository::new();
    repo.put(7, "text/plain", b"hello".to_vec());
    let index = build(&repo, &Vec::new(), 50);
    assert_eq!(resolve("goodbye", &index, &repo, &Vec::new()), Err(ResolveError::UnknownLabel));
}

#[test]
fn entry_deleted_after_listing_is_a_fault() {
    let mut repo = Repository::new();
    repo.put(7, "text/plain", b"hello".to_vec());
    repo.put(8, "text/plain", b"world".to_vec());
    let index = build(&repo, &Vec::new(), 50);
    assert!(repo.delete(7));
    assert_eq!(resolve("hello", &index, &repo, &Vec::new()), Err(ResolveError::EntryMissing));
    assert!(matches!(resolve("world", &index, &repo, &Vec::new()), Ok(Some(RestorePlan::Formats(_)))));
}

#[test]
fn favorite_that_is_not_configured_is_a_fault() {
    let mut index = SummaryIndex::new();
    index.offer("ghost".to_string(), Source::Favorite(3));
    let favorites = vec![favorite("todo", "buy milk")];
    assert_eq!(
        resolve("ghost", &index, &Repository::new(), &favorites),
        Err(ResolveError::UnknownLabel)
    );
}

#[test]
fn label_that_ends_in_a_space_is_found_as_it_is() {
    let mut repo = Repository::new();
    repo.put(1, "text/plain", b"ab cd".to_vec());
    let index = build(&repo, &Vec::new(), 3);
    assert_eq!(index.labels(), vec!["ab "]);
    assert!(matches!(resolve("ab ", &index, &repo, &Vec::new()), Ok(Some(RestorePlan::Formats(_)))));
}

#[test]
fn older_entry_with_the_same_label_is_not_restored() {
    let mut repo = Repository::new();
    repo.put(1, "text/plain", b"hello".to_vec());
    repo.put(1, "text/html", b"old".to_vec());
    repo.put(2, "text/plain", b"hello".to_vec());
    let index = build(&repo, &Vec::new(), 50);
    assert_eq!(
        resolve("hello", &index, &repo, &Vec::new()),
        Ok(Some(RestorePlan::Formats(vec![Representation {
            format: "text/plain".to_string(),
            bytes: b"hello".to_vec()
        }])))
    );
}

#[test]
fn three_captures_with_bound_two() {
    let mut repo = Repository::new();
    assert_eq!(capture(&mut repo, 1, &text_offer("a"), 2), Vec::<u64>::new());
    assert_eq!(capture(&mut repo, 2, &text_offer("b"), 2), Vec::<u64>::new());
    assert_eq!(capture(&mut repo, 3, &text_offer("c"), 2), vec![1]);
    let index = build(&repo, &Vec::new(), 50);
    assert_eq!(index.labels(), vec!["c", "b"]);
    assert_eq!(resolve("a", &index, &repo, &Vec::new()), Err(ResolveError::UnknownLabel));
    assert_eq!(
        resolve("c", &index, &repo, &Vec::new()),
        Ok(Some(RestorePlan::Formats(vec![Representation {
            format: "text/plain".to_string(),
            bytes: b"c".to_vec()
        }])))
    );
}

#[test]
fn capture_never_leaves_more_than_the_bound() {
    let mut repo = Repository::new();
    let mut id: u64 = 0;
    while id < 20 {
        let stamp = (id * 7) % 20 + 100;
        capture(&mut repo, stamp, &text_offer("x"), 5);
        assert!(repo.len() <= 5);
        let ids = repo.ids();
        let mut k = 1;
        while k < ids.len() {
            assert!(ids[k - 1] > ids[k]);
            k += 1;
        }
        id += 1;
    }
    assert_eq!(repo.len(), 5);
}

#[test]
fn failed_fetch_is_passed_over() {
    let mut repo = Repository::new();
    let offers = vec![
        Offer { format: "text/plain".to_string(), bytes: Some(b"t".to_vec()) },
        Offer { format: "image/png".to_string(), bytes: None },
        Offer { format: "text/html".to_string(), bytes: Some(b"h".to_vec()) },
    ];
    assert_eq!(capture(&mut repo, 5, &offers, 10), Vec::<u64>::new());
    assert_eq!(
        repo.read_all(5),
        Ok(vec![
            Representation { format: "text/plain".to_string(), bytes: b"t".to_vec() },
            Representation { format: "text/html".to_string(), bytes: b"h".to_vec() },
        ])
    );
}

#[test]
fn event_without_any_fetched_format_still_trims() {
    let mut repo = Repository::new();
    repo.put(1, "TEXT", b"1".to_vec());
    repo.put(2, "TEXT", b"2".to_vec());
    let offers = vec![Offer { format: "image/png".to_string(), bytes: None }];
    assert_eq!(capture(&mut repo, 3, &offers, 1), vec![1]);
    assert_eq!(repo.ids(), vec![2]);
}

#[test]
fn two_listeners_with_one_identifier_share_the_entry() {
    let mut repo = Repository::new();
    capture(&mut repo, 9, &text_offer("from primary"), 3);
    let more = vec![Offer { format: "text/html".to_string(), bytes: Some(b"<p>".to_vec()) }];
    capture(&mut repo, 9, &more, 3);
    assert_eq!(repo.len(), 1);
    assert_eq!(repo.read(9, "text/plain"), Ok(b"from primary".to_vec()));
    assert_eq!(repo.read(9, "text/html"), Ok(b"<p>".to_vec()));
}

#[test]
fn history_size_falls_back_to_the_default() {
    assert_eq!(DEFAULT_HISTORY_SIZE, 50);
    assert_eq!(history_size_of(None), 50);
    assert_eq!(history_size_of(Some(0)), 50);
    assert_eq!(history_size_of(Some(-3)), 50);
    assert_eq!(history_size_of(Some(1)), 1);
    assert_eq!(history_size_of(Some(200)), 200);
}

#[test]
fn recording_modes_name_their_buffers() {
    assert_eq!(listeners_for("primary"), vec![Buffer::Primary]);
    assert_eq!(listeners_for("clipboard"), vec![Buffer::Clipboard]);
    assert_eq!(listeners_for("both"), vec![Buffer::Primary, Buffer::Clipboard]);
    assert_eq!(listeners_for("neither"), Vec::<Buffer>::new());
    assert_eq!(listeners_for(""), Vec::<Buffer>::new());
    assert!(same_text("abc", "abc"));
    assert!(!same_text("abc", "abd"));
    assert!(!same_text("abc", "ab"));
}

#[test]
fn defaults_are_as_documented() {
    let config = Config::defaults();
    assert_eq!(config.launcher, vec!["tofi", "--fuzzy-match=true", "--prompt-text=clapboard: "]);
    assert_eq!(config.history_size, 50);
    assert!(config.favorites.is_empty());
}

#[test]
fn settings_fall_back_to_the_defaults() {
    let favorites = vec![favorite("todo", "buy milk")];
    let config = Config::from_settings(None, None, favorites.clone());
    assert_eq!(config.launcher, Config::defaults().launcher);
    assert_eq!(config.history_size, 50);
    assert_eq!(config.favorites, favorites);
    let empty = Config::from_settings(Some(Vec::new()), Some(-1), Vec::new());
    assert_eq!(empty, Config::defaults());
    let words = vec!["fuzzel".to_string(), "--dmenu".to_string()];
    let own = Config::from_settings(Some(words.clone()), Some(7), Vec::new());
    assert_eq!(own.launcher, words);
    assert_eq!(own.history_size, 7);
}
