use rplaylist::song::Song;
use rplaylist::table::{build_table, find_entry, find_row, table_is_wf, Table, TableError};

fn s(name: &str) -> Song {
    Song::new(
        format!("{}-track", name),
        format!("{}-artist", name),
        format!("{}-album", name),
    )
}

fn history(names: &[&str]) -> Vec<Song> {
    names.iter().map(|n| s(n)).collect()
}

fn weight_of(t: &Table, from: &Song, to: &Song) -> Option<(u64, u64)> {
    let r = find_row(&t.rows, from)?;
    let e = find_entry(&t.rows[r].entries, to)?;
    Some((t.rows[r].entries[e].num, t.rows[r].den))
}

#[test]
fn rejects_empty_history() {
    let res = build_table(&history(&[]));
    assert!(matches!(res, Err(TableError::HistoryTooShort)));
}

#[test]
fn rejects_singleton_history() {
    let res = build_table(&history(&["A"]));
    assert!(matches!(res, Err(TableError::HistoryTooShort)));
}

#[test]
fn two_song_alternation_counts() {
    // Oldest-to-newest alternation of two songs.
    let t = build_table(&history(&["A", "B", "A", "B", "A", "B"])).unwrap();
    assert_eq!(t.rows.len(), 2);
    assert_eq!(weight_of(&t, &s("A"), &s("B")), Some((3, 1)));
    assert_eq!(weight_of(&t, &s("B"), &s("A")), Some((2, 1)));
    assert_eq!(weight_of(&t, &s("B"), &s("B")), None);
    assert_eq!(weight_of(&t, &s("A"), &s("A")), None);
}

#[test]
fn counts_duplicate_pairs_and_branches() {
    let t = build_table(&history(&["C", "A", "B", "A", "B", "A"])).unwrap();
    assert_eq!(weight_of(&t, &s("C"), &s("A")), Some((1, 1)));
    assert_eq!(weight_of(&t, &s("A"), &s("B")), Some((2, 1)));
    assert_eq!(weight_of(&t, &s("B"), &s("A")), Some((2, 1)));
    // The newest song A is a "from" key here because it also occurs earlier.
    assert!(find_row(&t.rows, &s("A")).is_some());
}

#[test]
fn self_transitions_are_counted() {
    let t = build_table(&history(&["A", "A", "A"])).unwrap();
    assert_eq!(t.rows.len(), 1);
    assert_eq!(weight_of(&t, &s("A"), &s("A")), Some((2, 1)));
}

#[test]
fn terminal_song_owns_no_row() {
    let t = build_table(&history(&["A", "B"])).unwrap();
    assert_eq!(t.rows.len(), 1);
    assert!(find_row(&t.rows, &s("A")).is_some());
    assert!(find_row(&t.rows, &s("B")).is_none());
}

#[test]
fn history_coverage_on_concrete_history() {
    // Every adjacent pair of the history is present with weight at least 1.
    let names = ["A", "B", "A", "C", "A", "B", "C"];
    let h = history(&names);
    let t = build_table(&h).unwrap();
    for w in h.windows(2) {
        let (num, den) = weight_of(&t, &w[0], &w[1]).unwrap();
        assert!(num >= den && den == 1);
    }
}

#[test]
fn no_phantom_successors_on_concrete_history() {
    // Every row entry corresponds to some adjacent pair of the history.
    let names = ["A", "B", "A", "C", "A", "B", "C"];
    let h = history(&names);
    let t = build_table(&h).unwrap();
    for row in &t.rows {
        for ent in &row.entries {
            let occurs = h.windows(2).any(|w| w[0] == row.from && w[1] == ent.to);
            assert!(occurs);
        }
    }
}

#[test]
fn songs_differing_only_in_album_are_distinct() {
    let a1 = Song::new("t".to_string(), "x".to_string(), "album-one".to_string());
    let a2 = Song::new("t".to_string(), "x".to_string(), "album-two".to_string());
    assert!(a1 != a2);
    let h = vec![a1.clone(), a2.clone(), a1.clone()];
    let t = build_table(&h).unwrap();
    assert_eq!(t.rows.len(), 2);
    assert_eq!(weight_of(&t, &a1, &a2), Some((1, 1)));
    assert_eq!(weight_of(&t, &a2, &a1), Some((1, 1)));
}

#[test]
fn built_tables_pass_the_wf_check() {
    let t = build_table(&history(&["A", "B", "A", "C", "A", "B"])).unwrap();
    assert!(table_is_wf(&t));
}

#[test]
fn wf_check_rejects_malformed_tables() {
    let t = build_table(&history(&["A", "B", "A"])).unwrap();
    // Duplicate the only row: two rows owned by the same song.
    let dup = Table {
        rows: vec![
            rplaylist::table::Row {
                from: t.rows[0].from.clone(),
                entries: vec![rplaylist::table::Entry {
                    to: t.rows[0].entries[0].to.clone(),
                    num: t.rows[0].entries[0].num,
                }],
                den: t.rows[0].den,
            },
            rplaylist::table::Row {
                from: t.rows[0].from.clone(),
                entries: vec![rplaylist::table::Entry {
                    to: t.rows[0].entries[0].to.clone(),
                    num: t.rows[0].entries[0].num,
                }],
                den: t.rows[0].den,
            },
        ],
    };
    assert!(!table_is_wf(&dup));
    // A zero weight numerator breaks the floor invariant.
    let zero = Table {
        rows: vec![rplaylist::table::Row {
            from: t.rows[0].from.clone(),
            entries: vec![rplaylist::table::Entry {
                to: t.rows[0].entries[0].to.clone(),
                num: 0,
            }],
            den: 1,
        }],
    };
    assert!(!table_is_wf(&zero));
}
