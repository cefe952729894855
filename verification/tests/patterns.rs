use file_matcher_rs::pattern::regex_verdict;
use file_matcher_rs::text::same_text;
use file_matcher_rs::{Entry, EntryKind, EntryName, EntryNamed, EntryType};

fn exact(name: &str) -> EntryName {
    EntryName::Exact(name.to_string())
}

fn any(list: &[&str]) -> EntryName {
    EntryName::Any(list.iter().map(|name| name.to_string()).collect())
}

fn regex(pattern: &str) -> EntryName {
    EntryName::Regex(pattern.to_string())
}

fn wild(pattern: &str) -> EntryName {
    EntryName::Wildmatch(pattern.to_string())
}

const CANDIDATES: [&str; 12] = [
    "",
    "a",
    "b",
    "c",
    "d",
    "ab",
    "cat.txt",
    "dog.txt",
    "bird.png",
    "Cat.txt",
    "cat",
    "notes.md",
];

#[test]
fn exact_matches_only_the_same_text() {
    let pattern = exact("cat.txt");
    for candidate in CANDIDATES {
        assert_eq!(pattern.matches(candidate), candidate == "cat.txt");
    }
}

#[test]
fn exact_is_case_sensitive() {
    assert!(!exact("cat.txt").matches("Cat.txt"));
    assert!(!exact("cat.txt").matches("CAT.TXT"));
    assert!(!exact("Cat.txt").matches("cat.txt"));
}

#[test]
fn exact_does_not_trim_or_extend() {
    assert!(!exact("cat.txt").matches("cat.txt "));
    assert!(!exact("cat.txt").matches(" cat.txt"));
    assert!(!exact("cat.txt").matches("cat"));
    assert!(!exact("cat").matches("cat.txt"));
    assert!(exact("").matches(""));
    assert!(!exact("").matches("a"));
}

#[test]
fn exact_does_not_normalise_unicode() {
    let composed = "caf\u{e9}";
    let decomposed = "cafe\u{301}";
    assert!(exact(composed).matches(composed));
    assert!(exact(decomposed).matches(decomposed));
    assert!(!exact(composed).matches(decomposed));
    assert!(!exact(decomposed).matches(composed));
}

#[test]
fn same_text_compares_byte_for_byte() {
    assert!(same_text("", ""));
    assert!(same_text("cat.txt", "cat.txt"));
    assert!(!same_text("cat.txt", "cat.tx"));
    assert!(!same_text("cat.txt", "cat.txT"));
    assert!(!same_text("cat.txt", "dog.txt"));
    assert!(same_text("\u{1f408}.txt", "\u{1f408}.txt"));
    assert!(!same_text("\u{1f408}.txt", "\u{1f415}.txt"));
}

#[test]
fn any_matches_each_listed_name_and_no_other() {
    let pattern = any(&["cat.txt", "dog.txt"]);
    for candidate in CANDIDATES {
        let listed = candidate == "cat.txt" || candidate == "dog.txt";
        assert_eq!(pattern.matches(candidate), listed);
    }
}

#[test]
fn any_of_nothing_never_matches() {
    let pattern = any(&[]);
    for candidate in CANDIDATES {
        assert!(!pattern.matches(candidate));
    }
}

#[test]
fn any_uses_the_equality_of_exact() {
    let pattern = any(&["cat.txt"]);
    assert!(pattern.matches("cat.txt"));
    assert!(!pattern.matches("Cat.txt"));
    assert!(!pattern.matches("cat.txt.bak"));
}

#[test]
fn any_named_matches_when_a_nested_pattern_does() {
    let pattern = EntryName::AnyNamed(vec![exact("notes.md"), regex("^cat"), wild("*.png")]);
    assert!(pattern.matches("notes.md"));
    assert!(pattern.matches("cat.txt"));
    assert!(pattern.matches("cat"));
    assert!(pattern.matches("bird.png"));
    assert!(!pattern.matches("dog.txt"));
    assert!(!pattern.matches("Cat.txt"));
    assert!(!pattern.matches(""));
}

#[test]
fn any_named_of_nothing_never_matches() {
    let pattern = EntryName::AnyNamed(vec![]);
    for candidate in CANDIDATES {
        assert!(!pattern.matches(candidate));
    }
    let nested = EntryName::AnyNamed(vec![EntryName::AnyNamed(vec![]), any(&[])]);
    for candidate in CANDIDATES {
        assert!(!nested.matches(candidate));
    }
}

#[test]
fn flattening_nested_lists_keeps_the_match_result() {
    let nested = EntryName::AnyNamed(vec![
        exact("a"),
        EntryName::AnyNamed(vec![
            exact("b"),
            EntryName::AnyNamed(vec![wild("c*"), EntryName::AnyNamed(vec![])]),
        ]),
        EntryName::AnyNamed(vec![regex("^d")]),
    ]);
    let flat = EntryName::AnyNamed(vec![exact("a"), exact("b"), wild("c*"), regex("^d")]);
    for candidate in CANDIDATES {
        assert_eq!(nested.matches(candidate), flat.matches(candidate));
    }
    assert!(nested.matches("a"));
    assert!(nested.matches("b"));
    assert!(nested.matches("cat.txt"));
    assert!(nested.matches("dog.txt"));
    assert!(!nested.matches("ab"));
    assert!(!nested.matches("bird.png"));
}

#[test]
fn splicing_one_nested_list_keeps_the_match_result() {
    let wrapped = EntryName::AnyNamed(vec![
        exact("a"),
        EntryName::AnyNamed(vec![exact("b"), exact("c")]),
        exact("d"),
    ]);
    let spliced = EntryName::AnyNamed(vec![exact("a"), exact("b"), exact("c"), exact("d")]);
    for candidate in CANDIDATES {
        assert_eq!(wrapped.matches(candidate), spliced.matches(candidate));
    }
}

#[test]
fn regex_matches_anywhere_in_the_name() {
    assert!(regex("cat.*").matches("cat.txt"));
    assert!(regex("at").matches("cat.txt"));
    assert!(regex("\\.txt").matches("cat.txt"));
    assert!(!regex("\\.png").matches("cat.txt"));
    assert!(regex("").matches("cat.txt"));
    assert!(regex("").matches(""));
}

#[test]
fn regex_can_be_anchored_over_the_whole_name() {
    let whole = regex("^cat\\.txt$");
    assert!(whole.matches("cat.txt"));
    assert!(!whole.matches("cat.txt.bak"));
    assert!(!whole.matches("tomcat.txt"));
    assert!(!whole.matches("catxtxt"));
}

#[test]
fn regex_is_case_sensitive_by_default() {
    assert!(!regex("^cat").matches("Cat.txt"));
    assert!(regex("(?i)^cat").matches("Cat.txt"));
}

#[test]
fn regex_that_does_not_compile_matches_nothing() {
    for broken in ["(", "[a-", "a{2,1}", "*", "(?P<n>"] {
        let pattern = regex(broken);
        for candidate in CANDIDATES {
            assert!(!pattern.matches(candidate));
        }
        assert!(!pattern.matches(broken));
    }
}

#[test]
fn regex_verdict_accepts_only_a_found_match() {
    assert!(regex_verdict(Some(true)));
    assert!(!regex_verdict(Some(false)));
    assert!(!regex_verdict(None));
}

#[test]
fn wildcard_star_stands_for_any_run() {
    assert!(wild("*").matches(""));
    assert!(wild("*").matches("cat.txt"));
    assert!(wild("*.txt").matches("cat.txt"));
    assert!(wild("*.txt").matches(".txt"));
    assert!(wild("cat*").matches("cat"));
    assert!(wild("cat*").matches("cat.txt"));
    assert!(wild("c*t*t").matches("cat.txt"));
    assert!(wild("**").matches("cat.txt"));
    assert!(!wild("*.txt").matches("bird.png"));
    assert!(!wild("*.txt").matches("cat.txt.bak"));
    assert!(!wild("cat*").matches("tomcat"));
}

#[test]
fn wildcard_question_mark_stands_for_one_character() {
    assert!(wild("c?t.txt").matches("cat.txt"));
    assert!(wild("c?t.txt").matches("cot.txt"));
    assert!(wild("???").matches("cat"));
    assert!(wild("?").matches("\u{e9}"));
    assert!(wild("caf?").matches("caf\u{e9}"));
    assert!(!wild("?").matches(""));
    assert!(!wild("?").matches("ab"));
    assert!(!wild("c?t.txt").matches("ct.txt"));
    assert!(!wild("c?t.txt").matches("coat.txt"));
    assert!(!wild("????").matches("cat"));
}

#[test]
fn wildcard_covers_the_whole_name() {
    assert!(wild("cat.txt").matches("cat.txt"));
    assert!(!wild("cat").matches("cat.txt"));
    assert!(!wild("at.tx").matches("cat.txt"));
    assert!(!wild("").matches("cat.txt"));
    assert!(wild("").matches(""));
    assert!(!wild("Cat.txt").matches("cat.txt"));
}

#[test]
fn wildcard_has_no_escape_character() {
    assert!(wild("a\\*").matches("a\\b"));
    assert!(wild("a\\*").matches("a\\"));
    assert!(!wild("a\\*").matches("a*"));
    assert!(wild("[ab]").matches("[ab]"));
    assert!(!wild("[ab]").matches("a"));
}

#[test]
fn wildcard_backtracks_over_repeated_text() {
    assert!(wild("*ab").matches("abab"));
    assert!(wild("*a*b").matches("aaab"));
    assert!(wild("*121").matches("12121"));
    assert!(!wild("*12").matches("122"));
    assert!(wild("a*b*c").matches("a.b.b.c"));
    assert!(!wild("a*b*c").matches("a.b.b"));
}

#[test]
fn type_filter_file_accepts_files_only() {
    assert!(EntryType::File.matches(EntryKind::File));
    assert!(!EntryType::File.matches(EntryKind::Folder));
    assert!(!EntryType::File.matches(EntryKind::Other));
}

#[test]
fn type_filter_folder_accepts_folders_only() {
    assert!(!EntryType::Folder.matches(EntryKind::File));
    assert!(EntryType::Folder.matches(EntryKind::Folder));
    assert!(!EntryType::Folder.matches(EntryKind::Other));
}

#[test]
fn type_filter_any_accepts_files_and_folders() {
    assert!(EntryType::Any.matches(EntryKind::File));
    assert!(EntryType::Any.matches(EntryKind::Folder));
    assert!(!EntryType::Any.matches(EntryKind::Other));
}

#[test]
fn constructors_fix_the_type_and_keep_the_name() {
    let file = EntryNamed::file(exact("cat.txt"));
    assert_eq!(file.entry_name(), &exact("cat.txt"));
    assert_eq!(file.entry_type(), &EntryType::File);

    let folder = EntryNamed::folder(any(&["src", "tests"]));
    assert_eq!(folder.entry_name(), &any(&["src", "tests"]));
    assert_eq!(folder.entry_type(), &EntryType::Folder);

    let either = EntryNamed::any(wild("*"));
    assert_eq!(either.entry_name(), &wild("*"));
    assert_eq!(either.entry_type(), &EntryType::Any);

    let built = EntryNamed::new(regex("^a"), EntryType::Folder);
    assert_eq!(built.entry_name(), &regex("^a"));
    assert_eq!(built.entry_type(), &EntryType::Folder);
}

#[test]
fn criterion_needs_both_name_and_type() {
    let file = EntryNamed::file(exact("data"));
    assert!(file.matches(&Entry::new("data", EntryKind::File)));
    assert!(!file.matches(&Entry::new("data", EntryKind::Folder)));
    assert!(!file.matches(&Entry::new("data", EntryKind::Other)));
    assert!(!file.matches(&Entry::new("other", EntryKind::File)));

    let folder = EntryNamed::folder(exact("data"));
    assert!(!folder.matches(&Entry::new("data", EntryKind::File)));
    assert!(folder.matches(&Entry::new("data", EntryKind::Folder)));
    assert!(!folder.matches(&Entry::new("other", EntryKind::Folder)));

    let either = EntryNamed::any(exact("data"));
    assert!(either.matches(&Entry::new("data", EntryKind::File)));
    assert!(either.matches(&Entry::new("data", EntryKind::Folder)));
    assert!(!either.matches(&Entry::new("data", EntryKind::Other)));
    assert!(!either.matches(&Entry::new("other", EntryKind::File)));
}

#[test]
fn clones_stand_for_the_same_pattern() {
    let pattern = EntryName::AnyNamed(vec![
        exact("a"),
        any(&["b", "c"]),
        EntryName::AnyNamed(vec![regex("^d"), wild("e*")]),
    ]);
    let copy = pattern.clone();
    assert_eq!(copy, pattern);

    let criterion = EntryNamed::folder(pattern);
    let twin = criterion.clone();
    assert_eq!(twin.entry_name(), criterion.entry_name());
    assert_eq!(twin.entry_type(), criterion.entry_type());
}

#[test]
fn entry_keeps_its_name_and_kind() {
    let entry = Entry::new("cat.txt", EntryKind::File);
    assert_eq!(entry.name, "cat.txt");
    assert_eq!(entry.kind, EntryKind::File);
}

/// The meaning of a wildcard pattern, written out directly: `?` takes one
/// character, `*` takes any run, anything else takes itself.
fn covers(pattern: &[char], text: &[char]) -> bool {
    match pattern.split_first() {
        None => text.is_empty(),
        Some(('*', rest)) => {
            covers(rest, text) || (!text.is_empty() && covers(pattern, &text[1..]))
        }
        Some((wanted, rest)) => {
            !text.is_empty()
                && (*wanted == '?' || *wanted == text[0])
                && covers(rest, &text[1..])
        }
    }
}

fn words(alphabet: &[char], longest: usize) -> Vec<String> {
    let mut all = vec![String::new()];
    let mut last = vec![String::new()];
    for _ in 0..longest {
        let mut next = Vec::new();
        for word in &last {
            for letter in alphabet {
                let mut longer = word.clone();
                longer.push(*letter);
                next.push(longer);
            }
        }
        all.extend(next.iter().cloned());
        last = next;
    }
    all
}

#[test]
fn wildcard_agrees_with_its_meaning_on_all_short_inputs() {
    let patterns = words(&['a', 'b', '*', '?'], 4);
    let texts = words(&['a', 'b'], 5);
    assert_eq!(patterns.len(), 341);
    assert_eq!(texts.len(), 63);
    for pattern in &patterns {
        let wanted: Vec<char> = pattern.chars().collect();
        let matcher = wild(pattern);
        for text in &texts {
            let given: Vec<char> = text.chars().collect();
            assert_eq!(matcher.matches(text), covers(&wanted, &given));
        }
    }
}

#[test]
fn wildcard_agrees_with_its_meaning_beyond_ascii() {
    let patterns = words(&['\u{e9}', '*', '?'], 3);
    let texts = words(&['\u{e9}', '\u{1f408}'], 3);
    for pattern in &patterns {
        let wanted: Vec<char> = pattern.chars().collect();
        let matcher = wild(pattern);
        for text in &texts {
            let given: Vec<char> = text.chars().collect();
            assert_eq!(matcher.matches(text), covers(&wanted, &given));
        }
    }
}
