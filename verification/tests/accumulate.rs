use blame::author_stats::AuthorStats;
use blame::parser::parse_blame;
use blame::collect::collect_blame_stats;
use blame::event::AttributionEvent;
use blame::stats_map::{fold_events, StatsMap};

fn event(author: &str, commit: Option<&str>, time: i64) -> AttributionEvent {
    AttributionEvent {
        author: author.to_string(),
        commit_id: commit.map(|c| c.to_string()),
        author_time: time,
    }
}

fn snapshot(stats: &StatsMap) -> Vec<(String, usize, i64, Vec<String>)> {
    let mut rows = Vec::new();
    for i in 0..stats.len() {
        let s = stats.stats_at(i);
        let mut commits = Vec::new();
        for c in ["c1", "c2", "c3", "c4", "c5"] {
            if s.has_commit(c) {
                commits.push(c.to_string());
            }
        }
        assert_eq!(commits.len(), s.commit_count());
        rows.push((stats.author_at(i).clone(), s.lines(), s.last_commit_time(), commits));
    }
    rows.sort();
    rows
}

fn sample_a() -> Vec<AttributionEvent> {
    vec![
        event("alice", Some("c1"), 100),
        event("bob", Some("c2"), 300),
        event("alice", Some("c3"), 50),
        event("alice", Some("c1"), 100),
    ]
}

fn sample_b() -> Vec<AttributionEvent> {
    vec![
        event("carol", Some("c4"), 10),
        event("bob", Some("c5"), 200),
        event("bob", Some("c2"), 300),
        event("alice", None, 400),
    ]
}

#[test]
fn new_accumulator_is_empty() {
    let stats = StatsMap::new();
    assert!(stats.is_empty());
    assert_eq!(stats.len(), 0);
    assert_eq!(stats.total_lines(), 0);
    assert!(stats.get("anyone").is_none());
}

#[test]
fn record_counts_lines_per_author() {
    let mut stats = StatsMap::new();
    fold_events(&sample_a(), &mut stats);
    assert!(!stats.is_empty());
    assert_eq!(stats.len(), 2);
    assert_eq!(stats.total_lines(), 4);
    let alice = stats.get("alice").unwrap();
    assert_eq!(alice.lines(), 3);
    assert_eq!(alice.last_commit_time(), 100);
    assert_eq!(alice.commit_count(), 2);
    assert!(alice.has_commit("c1"));
    assert!(alice.has_commit("c3"));
    assert!(!alice.has_commit("c2"));
    let bob = stats.get("bob").unwrap();
    assert_eq!(bob.lines(), 1);
    assert_eq!(bob.last_commit_time(), 300);
    assert_eq!(bob.commit_count(), 1);
    assert!(stats.get("carol").is_none());
    let mut authors = vec![stats.author_at(0).clone(), stats.author_at(1).clone()];
    authors.sort();
    assert_eq!(authors, vec!["alice", "bob"]);
}

#[test]
fn last_commit_time_is_the_maximum_seen() {
    let mut stats = StatsMap::new();
    stats.record(&event("a", None, 5));
    assert_eq!(stats.get("a").unwrap().last_commit_time(), 5);
    stats.record(&event("a", None, 3));
    assert_eq!(stats.get("a").unwrap().last_commit_time(), 5);
    stats.record(&event("a", None, 9));
    assert_eq!(stats.get("a").unwrap().last_commit_time(), 9);
}

#[test]
fn times_before_the_epoch_leave_the_initial_zero() {
    let mut stats = StatsMap::new();
    stats.record(&event("a", None, -5));
    assert_eq!(stats.get("a").unwrap().last_commit_time(), 0);
    assert_eq!(stats.get("a").unwrap().lines(), 1);
}

#[test]
fn event_without_revision_adds_none() {
    let mut stats = StatsMap::new();
    stats.record(&event("a", None, 1));
    let a = stats.get("a").unwrap();
    assert_eq!(a.commit_count(), 0);
    assert!(a.first_commit().is_none());
}

#[test]
fn fold_twice_equals_fold_into_two_and_merge() {
    let events = sample_a();
    let mut once = StatsMap::new();
    fold_events(&events, &mut once);
    fold_events(&events, &mut once);

    let mut left = StatsMap::new();
    fold_events(&events, &mut left);
    let mut right = StatsMap::new();
    fold_events(&events, &mut right);
    left.merge(right);

    assert_eq!(snapshot(&once), snapshot(&left));
    assert_eq!(once.total_lines(), 8);
    assert_eq!(left.total_lines(), 8);
    assert_eq!(
        snapshot(&once),
        vec![
            ("alice".to_string(), 6, 100, vec!["c1".to_string(), "c3".to_string()]),
            ("bob".to_string(), 2, 300, vec!["c2".to_string()]),
        ]
    );
}

#[test]
fn order_of_files_does_not_matter() {
    let mut ab = StatsMap::new();
    fold_events(&sample_a(), &mut ab);
    fold_events(&sample_b(), &mut ab);
    let mut ba = StatsMap::new();
    fold_events(&sample_b(), &mut ba);
    fold_events(&sample_a(), &mut ba);
    assert_eq!(snapshot(&ab), snapshot(&ba));
    assert_eq!(
        snapshot(&ab),
        vec![
            ("alice".to_string(), 4, 400, vec!["c1".to_string(), "c3".to_string()]),
            ("bob".to_string(), 3, 300, vec!["c2".to_string(), "c5".to_string()]),
            ("carol".to_string(), 1, 10, vec!["c4".to_string()]),
        ]
    );
}

#[test]
fn merge_equals_folding_everything_into_one() {
    let mut all = StatsMap::new();
    fold_events(&sample_a(), &mut all);
    fold_events(&sample_b(), &mut all);
    let mut a = StatsMap::new();
    fold_events(&sample_a(), &mut a);
    let mut b = StatsMap::new();
    fold_events(&sample_b(), &mut b);
    a.merge(b);
    assert_eq!(snapshot(&a), snapshot(&all));
    assert_eq!(a.total_lines(), 8);
}

#[test]
fn merge_with_empty_changes_nothing() {
    let mut a = StatsMap::new();
    fold_events(&sample_a(), &mut a);
    let before = snapshot(&a);
    a.merge(StatsMap::new());
    assert_eq!(snapshot(&a), before);
    let mut e = StatsMap::new();
    e.merge(a);
    assert_eq!(snapshot(&e), before);
}

#[test]
fn total_equals_number_of_content_lines() {
    let sha = "0123456789abcdef0123456789abcdef01234567";
    let mut text = String::new();
    for i in 0..7 {
        text.push_str(&format!("{} {} {}\n", sha, i, i));
        if i % 3 == 0 {
            text.push_str(&format!("author author{}\nauthor-time {}\n", i % 2, i));
        }
        text.push_str(&format!("\tline {}\n", i));
    }
    let content_lines = text.lines().filter(|l| l.starts_with('\t')).count();
    assert_eq!(content_lines, 7);
    let mut stats = StatsMap::new();
    assert_eq!(collect_blame_stats(&text, &mut stats), Some(7));
    assert_eq!(stats.total_lines(), content_lines);
    let mut sum = 0;
    for i in 0..stats.len() {
        sum += stats.stats_at(i).lines();
    }
    assert_eq!(sum, content_lines);
    assert_eq!(collect_blame_stats(&text, &mut stats), Some(7));
    assert_eq!(stats.total_lines(), 2 * content_lines);
}

#[test]
fn content_before_an_author_is_not_counted() {
    let mut stats = StatsMap::new();
    assert_eq!(collect_blame_stats("\tfoo\n", &mut stats), Some(0));
    assert!(stats.is_empty());
    assert_eq!(collect_blame_stats("\tfoo\nauthor A\n\tbar\n", &mut stats), Some(1));
    assert_eq!(stats.total_lines(), 1);
}

#[test]
fn collect_matches_parse_then_fold() {
    let text = "author A\nauthor-time 5\n\tx\nauthor B\n\ty\n\tz\n";
    let mut direct = StatsMap::new();
    assert_eq!(collect_blame_stats(text, &mut direct), Some(3));
    let mut stepwise = StatsMap::new();
    fold_events(&parse_blame(text), &mut stepwise);
    assert_eq!(snapshot(&direct), snapshot(&stepwise));
    assert_eq!(direct.get("B").unwrap().lines(), 2);
    assert_eq!(direct.get("B").unwrap().last_commit_time(), 5);
}

#[test]
fn pop_takes_entries_out_one_by_one() {
    let mut stats = StatsMap::new();
    fold_events(&sample_a(), &mut stats);
    let mut seen = Vec::new();
    while let Some((author, s)) = stats.pop() {
        seen.push((author, s.lines()));
    }
    seen.sort();
    assert_eq!(seen, vec![("alice".to_string(), 3), ("bob".to_string(), 1)]);
    assert!(stats.is_empty());
    assert_eq!(stats.total_lines(), 0);
    assert!(stats.pop().is_none());
}

#[test]
fn absorb_adds_to_an_entry_or_makes_one() {
    let mut part = AuthorStats::new();
    part.record_line(40, &Some("c1".to_string()));
    part.record_line(20, &Some("c2".to_string()));
    let mut stats = StatsMap::new();
    stats.absorb("x".to_string(), part);
    assert_eq!(stats.total_lines(), 2);
    let mut more = AuthorStats::new();
    more.record_line(60, &Some("c2".to_string()));
    stats.absorb("x".to_string(), more);
    let x = stats.get("x").unwrap();
    assert_eq!(x.lines(), 3);
    assert_eq!(x.last_commit_time(), 60);
    assert_eq!(x.commit_count(), 2);
    assert_eq!(stats.total_lines(), 3);
    assert_eq!(stats.len(), 1);
}

#[test]
fn author_stats_start_at_zero() {
    let s = AuthorStats::new();
    assert_eq!(s.lines(), 0);
    assert_eq!(s.last_commit_time(), 0);
    assert_eq!(s.commit_count(), 0);
    let d = AuthorStats::default();
    assert_eq!(d.lines(), 0);
    assert_eq!(d.last_commit_time(), 0);
    assert_eq!(d.commit_count(), 0);
}

#[test]
fn author_stats_keep_each_revision_once() {
    let mut s = AuthorStats::new();
    s.add_commit(&"c1".to_string());
    s.add_commit(&"c1".to_string());
    s.add_commit(&"c2".to_string());
    assert_eq!(s.commit_count(), 2);
    assert_eq!(s.first_commit(), Some(&"c1".to_string()));
    assert_eq!(s.lines(), 0);
    let mut t = AuthorStats::new();
    t.record_line(9, &Some("c2".to_string()));
    t.record_line(3, &Some("c3".to_string()));
    s.absorb(&t);
    assert_eq!(s.lines(), 2);
    assert_eq!(s.last_commit_time(), 9);
    assert_eq!(s.commit_count(), 3);
    assert!(s.has_commit("c3"));
}
