use bookmarker::bookmarks::{add_bookmark, get_all_tags, Bookmarks};
use bookmarker::filter::filter;
use bookmarker::form::parse_tags;
use bookmarker::matcher::{fuzzy_match_score, Query};
use bookmarker::ranker::fuzzy_score;

/// A small deterministic generator of test data.
struct Dice(u64);

impl Dice {
    fn roll(&mut self, sides: usize) -> usize {
        self.0 = self.0.wrapping_mul(6364136223846793005).wrapping_add(1442695040888963407);
        ((self.0 >> 33) as usize) % sides
    }

    fn text(&mut self, alphabet: &[char], longest: usize) -> String {
        let len = self.roll(longest + 1);
        (0..len).map(|_| alphabet[self.roll(alphabet.len())]).collect()
    }
}

const LETTERS: [char; 12] = ['a', 'b', 'c', 'A', 'B', '/', '.', '-', '_', ' ', 'é', 'É'];

fn plain_score(pattern: &[char], text: &str) -> i64 {
    if pattern.is_empty() {
        return 0;
    }
    let text: Vec<char> = text.chars().collect();
    let mut next = 0;
    let mut score = 0;
    let mut last: Option<usize> = None;
    let mut run = 0;
    for (i, &c) in text.iter().enumerate() {
        if next < pattern.len() && c == pattern[next] {
            if let Some(before) = last {
                run = if i == before + 1 { run + 10 } else { 0 };
            }
            let boundary = if i == 0 || "/.-_ ".contains(text[i - 1]) { 20 } else { 0 };
            score += 10 + run + boundary + 10 - (i.min(10) as i64);
            last = Some(i);
            next += 1;
        }
    }
    if next == pattern.len() {
        score
    } else {
        -1
    }
}

fn plain_rank(query: &str, key: &str, url: &str, desc: &str, tags: &[String]) -> i64 {
    let pattern: Vec<char> = query.to_lowercase().chars().collect();
    let key_score = plain_score(&pattern, &key.to_lowercase());
    let url_score = plain_score(&pattern, &url.to_lowercase());
    let desc_score = plain_score(&pattern, &desc.to_lowercase());
    let tags_score =
        tags.iter().map(|t| plain_score(&pattern, &t.to_lowercase())).max().unwrap_or(-1);
    if key_score >= 0 {
        key_score + 1000
    } else if url_score >= 0 {
        url_score + 500
    } else if desc_score >= 0 {
        desc_score + 100
    } else if tags_score >= 0 {
        tags_score
    } else {
        -1
    }
}

type Entry = (String, String, String, Vec<String>);

fn entries(dice: &mut Dice, count: usize) -> Vec<Entry> {
    let mut made: Vec<Entry> = Vec::new();
    while made.len() < count {
        let key = dice.text(&LETTERS, 4);
        if made.iter().any(|entry| entry.0 == key) {
            continue;
        }
        let tag_count = dice.roll(3);
        let tags = (0..tag_count).map(|_| dice.text(&LETTERS[..5], 2)).collect();
        made.push((key, dice.text(&LETTERS, 8), dice.text(&LETTERS, 8), tags));
    }
    made
}

fn collection(entries: &[Entry]) -> Bookmarks {
    let mut bookmarks = Bookmarks::new();
    for (key, url, desc, tags) in entries {
        add_bookmark(&mut bookmarks, key.clone(), url.clone(), desc.clone(), tags.clone())
            .unwrap();
    }
    bookmarks
}

#[test]
fn scores_agree_with_a_plain_scan() {
    let mut dice = Dice(1);
    for _ in 0..20000 {
        let pattern: Vec<char> = dice.text(&LETTERS, 4).chars().collect();
        let text = dice.text(&LETTERS, 14);
        assert_eq!(
            fuzzy_match_score(&pattern, &text),
            plain_score(&pattern, &text),
            "pattern {pattern:?} against {text:?}"
        );
    }
}

#[test]
fn scores_are_minus_one_or_ten_per_character() {
    let mut dice = Dice(2);
    for _ in 0..20000 {
        let pattern: Vec<char> = dice.text(&LETTERS[..3], 5).chars().collect();
        let text = dice.text(&LETTERS[..3], 12);
        let score = fuzzy_match_score(&pattern, &text);
        let mut rest = text.chars();
        let embedded = pattern.iter().all(|&p| rest.any(|t| t == p));
        if embedded {
            assert!(score >= 10 * pattern.len() as i64);
        } else {
            assert_eq!(score, -1);
        }
    }
}

#[test]
fn ranks_agree_with_a_plain_ranking() {
    let mut dice = Dice(3);
    for _ in 0..5000 {
        let typed = dice.text(&LETTERS, 3);
        let query = Query::new(&typed).unwrap();
        let key = dice.text(&LETTERS, 5);
        let url = dice.text(&LETTERS, 8);
        let desc = dice.text(&LETTERS, 8);
        let tags: Vec<String> = (0..dice.roll(3)).map(|_| dice.text(&LETTERS, 4)).collect();
        assert_eq!(
            fuzzy_score(&query, &key, &url, &desc, &tags),
            plain_rank(&typed, &key, &url, &desc, &tags),
            "query {typed:?}"
        );
    }
}

#[test]
fn visible_sets_agree_with_sorted_ranks() {
    let mut dice = Dice(4);
    for _ in 0..500 {
        let count = dice.roll(8);
        let made = entries(&mut dice, count);
        let bookmarks = collection(&made);
        let typed = dice.text(&LETTERS[..5], 2);
        let tag = if dice.roll(2) == 0 { None } else { Some(dice.text(&LETTERS[..5], 2)) };
        let mut expected: Vec<(i64, &str, usize)> = Vec::new();
        for (place, (key, url, desc, tags)) in made.iter().enumerate() {
            if let Some(wanted) = &tag {
                if !tags.iter().any(|t| t.eq_ignore_ascii_case(wanted)) {
                    continue;
                }
            }
            let score = if typed.is_empty() { 0 } else { plain_rank(&typed, key, url, desc, tags) };
            if score >= 0 {
                expected.push((score, key.as_str(), place));
            }
        }
        expected.sort_by(|a, b| b.0.cmp(&a.0).then_with(|| a.1.cmp(b.1)));
        let places: Vec<usize> = expected.iter().map(|entry| entry.2).collect();
        let query = Query::new(&typed).unwrap();
        assert_eq!(filter(&bookmarks, &query, tag.as_deref()), places);
    }
}

#[test]
fn tag_lists_agree_with_sort_and_dedup() {
    let mut dice = Dice(5);
    for _ in 0..500 {
        let count = dice.roll(8);
        let made = entries(&mut dice, count);
        let bookmarks = collection(&made);
        let mut expected: Vec<String> = made.iter().flat_map(|entry| entry.3.clone()).collect();
        expected.sort();
        expected.dedup();
        assert_eq!(get_all_tags(&bookmarks), expected);
    }
}

#[test]
fn tag_lines_agree_with_split_and_trim() {
    let mut dice = Dice(6);
    let alphabet = ['a', 'b', ',', ' ', '\t', '\u{a0}', 'é'];
    for _ in 0..5000 {
        let line = dice.text(&alphabet, 12);
        let expected: Vec<String> =
            line.split(',').map(|t| t.trim().to_string()).filter(|t| !t.is_empty()).collect();
        assert_eq!(parse_tags(&line), expected, "line {line:?}");
    }
}
