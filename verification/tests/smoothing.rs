use rplaylist::song::Song;
use rplaylist::table::{build_table, find_entry, find_row, sum_entries, Entry, Row, Table};
use rplaylist::smooth::smoothed;

fn s(name: &str) -> Song {
    Song::new(
        format!("{}-track", name),
        format!("{}-artist", name),
        format!("{}-album", name),
    )
}

fn history(names: &[&str]) -> Vec<Song> {
    names.iter().map(|n| s(n)).collect()
}

fn weight_of(t: &Table, from: &Song, to: &Song) -> Option<(u64, u64)> {
    let r = find_row(&t.rows, from)?;
    let e = find_entry(&t.rows[r].entries, to)?;
    Some((t.rows[r].entries[e].num, t.rows[r].den))
}

#[test]
fn zero_creativity_is_identity_on_weights() {
    let t = build_table(&history(&["A", "B", "A", "C", "A", "B"])).unwrap();
    let t2 = smoothed(&t, 0, 1).unwrap();
    for (r1, r2) in t.rows.iter().zip(t2.rows.iter()) {
        assert!(r1.from == r2.from);
        for (e1, e2) in r1.entries.iter().zip(r2.entries.iter()) {
            assert!(e1.to == e2.to);
            // Equal rational values: num2 / den2 == num1 / den1.
            assert_eq!(
                e2.num as u128 * r1.den as u128,
                e1.num as u128 * r2.den as u128
            );
        }
    }
}

#[test]
fn creativity_boosts_rare_and_damps_dominant() {
    // Row for A is {B: 2, C: 1}, mean 1.5.  With creativity 3 the dominant
    // weight 2 drops below zero and clamps to 1; the rare weight 1 becomes
    // 1 + 1.5 * 3 = 5.5.
    let t = build_table(&history(&["A", "B", "A", "C", "A", "B"])).unwrap();
    let t2 = smoothed(&t, 3, 1).unwrap();
    let (bn, bd) = weight_of(&t2, &s("A"), &s("B")).unwrap();
    let (cn, cd) = weight_of(&t2, &s("A"), &s("C")).unwrap();
    // B clamps to exactly 1.
    assert_eq!(bn, bd);
    // C becomes exactly 11/2 = 5.5.
    assert_eq!(cn as u128 * 2, 11 * cd as u128);
}

#[test]
fn equal_weights_stay_at_mean_under_clamping_creativity() {
    // Newest-first [A, B, A, B, A, C] reversed to oldest-first: rows
    // C -> {A: 1}, A -> {B: 2}, B -> {A: 2}; every row's weights equal the
    // row mean, so creativity 2 changes nothing and all weights stay >= 1.
    let t = build_table(&history(&["C", "A", "B", "A", "B", "A"])).unwrap();
    let t2 = smoothed(&t, 2, 1).unwrap();
    for (r1, r2) in t.rows.iter().zip(t2.rows.iter()) {
        for (e1, e2) in r1.entries.iter().zip(r2.entries.iter()) {
            assert_eq!(
                e2.num as u128 * r1.den as u128,
                e1.num as u128 * r2.den as u128
            );
            assert!(e2.num >= r2.den);
        }
    }
}

#[test]
fn weight_floor_holds_after_heavy_smoothing() {
    let t = build_table(&history(&["A", "B", "A", "C", "A", "B", "B", "C", "A"])).unwrap();
    for creativity in [0u32, 1, 2, 5, 100] {
        let t2 = smoothed(&t, creativity, 1).unwrap();
        for row in &t2.rows {
            assert!(row.den >= 1);
            for ent in &row.entries {
                // Every weight is >= 1: numerator at least the denominator.
                assert!(ent.num >= row.den);
            }
        }
    }
}

#[test]
fn uniform_row_ends_at_its_mean_for_creativity_one() {
    // Row for A is {B: 1, C: 1}: both weights equal the mean 1.
    let t = build_table(&history(&["A", "B", "A", "C"])).unwrap();
    let t2 = smoothed(&t, 1, 1).unwrap();
    let r = find_row(&t.rows, &s("A")).unwrap();
    let r2 = find_row(&t2.rows, &s("A")).unwrap();
    let row = &t.rows[r];
    let row2 = &t2.rows[r2];
    let k = row.entries.len() as u128;
    let sum: u128 = row.entries.iter().map(|e| e.num as u128).sum();
    for ent in &row2.entries {
        // New weight equals the old row mean: num2 / den2 == sum / (k * den1).
        assert_eq!(ent.num as u128 * k * row.den as u128, sum * row2.den as u128);
    }
}

#[test]
fn fractional_creativity_is_exact() {
    // Row for A is {B: 2, C: 1}, mean 1.5, creativity 0.35 = 35/100:
    // B: 2 - 0.525 = 1.475 and C: 1 + 0.525 = 1.525, exactly.
    let t = build_table(&history(&["A", "B", "A", "C", "A", "B"])).unwrap();
    let t2 = smoothed(&t, 35, 100).unwrap();
    let (bn, bd) = weight_of(&t2, &s("A"), &s("B")).unwrap();
    let (cn, cd) = weight_of(&t2, &s("A"), &s("C")).unwrap();
    assert_eq!(bn as u128 * 1000, 1475 * bd as u128);
    assert_eq!(cn as u128 * 1000, 1525 * cd as u128);
}

#[test]
fn oversized_row_is_refused() {
    let row = Row {
        from: s("A"),
        entries: vec![
            Entry { to: s("B"), num: u64::MAX },
            Entry { to: s("C"), num: u64::MAX },
        ],
        den: 1,
    };
    let t = Table { rows: vec![row] };
    assert!(smoothed(&t, 0, 1).is_none());
}

#[test]
fn sum_entries_adds_numerators() {
    let entries = vec![
        Entry { to: s("B"), num: 2 },
        Entry { to: s("C"), num: 3 },
        Entry { to: s("D"), num: 5 },
    ];
    assert_eq!(sum_entries(&entries), 10);
}
