use vstd::prelude::*;

use crate::song::Song;
use crate::table::{
    find_row, lemma_entry_le_sum, lemma_mul_le, lemma_sum_le_len_max, lemma_sum_nonneg,
    sum_entries, sum_of, Entry, Row, Table,
};

verus! {

#[verifier::external_type_specification]
#[verifier::external_body]
pub struct ExStdRng(rand::rngs::StdRng);

/// Relies on `rand::Rng::gen_range` over the range `0..n`: it panics only on
/// an empty range and otherwise returns a value of the range, uniformly
/// distributed.  Nothing further can be promised of a random draw.
#[verifier::external_body]
pub fn rand_below(rng: &mut rand::rngs::StdRng, n: u128) -> (r: u128)
    requires
        n >= 1,
    ensures
        r < n,
{
    rand::Rng::gen_range(rng, 0..n)
}

/// Finds the entry whose weight interval contains `x`: the prefix sums of the
/// row's weight numerators split `0..total` into one interval of length `num`
/// per entry, and a uniform draw of `x` therefore selects each entry with
/// probability `num / total`.
pub fn pick_index(entries: &Vec<Entry>, x: u128) -> (i: usize)
    requires
        0 <= x < sum_of(entries@),
    ensures
        i < entries@.len(),
        sum_of(entries@.take(i as int)) <= x < sum_of(entries@.take(i as int)) + entries@[
            i as int].num,
{
    proof {
        lemma_sum_nonneg(entries@);
        if entries@.len() == 0 {
            assert(sum_of(entries@) == 0);
        }
    }
    let n = entries.len();
    let mut i: usize = 0;
    let mut acc: u128 = 0;
    while i < n - 1
        invariant
            1 <= n == entries@.len(),
            x < sum_of(entries@),
            i < n,
            acc == sum_of(entries@.take(i as int)),
            acc <= x,
        decreases n - i,
    {
        proof {
            assert(entries@.take(i as int + 1).drop_last() =~= entries@.take(i as int));
            assert(entries@.take(i as int + 1).last() == entries@[i as int]);
            lemma_sum_le_len_max(entries@.take(i as int + 1));
            lemma_mul_le(
                entries@.take(i as int + 1).len() as int,
                u64::MAX as int,
                usize::MAX as int,
                u64::MAX as int,
            );
            lemma_sum_nonneg(entries@.take(i as int));
        }
        let next = acc + entries[i].num as u128;
        if x < next {
            return i;
        }
        acc = next;
        i = i + 1;
    }
    proof {
        assert(entries@.take(n - 1 as int) =~= entries@.drop_last());
        assert(entries@.take(n as int) =~= entries@);
        assert(entries@.take(n as int).drop_last() =~= entries@.drop_last());
        assert(sum_of(entries@) == sum_of(entries@.take(i as int)) + entries@[i as int].num);
    }
    i
}

/// Draws one successor from a non-empty row, with probability proportional to
/// its weight: `num / sum` for each entry.
pub fn choose_by_prob(row: &Row, rng: &mut rand::rngs::StdRng) -> (s: Song)
    requires
        row.wf(),
    ensures
        row.has_to(s@),
{
    let total = sum_entries(&row.entries);
    proof {
        lemma_entry_le_sum(row.entries@, 0);
        assert(total >= 1);
    }
    let x = rand_below(rng, total);
    let i = pick_index(&row.entries, x);
    row.entries[i].to.clone()
}

/// Draws a seed song uniformly from the table's row keys.
pub fn random_song(t: &Table, rng: &mut rand::rngs::StdRng) -> (s: Song)
    requires
        t.rows@.len() >= 1,
    ensures
        t.has_from(s@),
{
    let n = t.rows.len();
    let x = rand_below(rng, n as u128);
    let i = x as usize;
    t.rows[i].from.clone()
}

/// One step of the walk: if the current song owns a row (always non-empty in
/// a well-formed table), draws a weighted successor from it; otherwise the
/// chain has dead-ended and a fresh uniform seed is drawn silently.
pub fn predict_next(current: &Song, t: &Table, rng: &mut rand::rngs::StdRng) -> (s: Song)
    requires
        t.wf(),
        t.rows@.len() >= 1,
    ensures
        t.knows(s@),
        t.has_from(current@) ==> t.has_edge(current@, s@),
        !t.has_from(current@) ==> t.has_from(s@),
{
    match find_row(&t.rows, current) {
        Some(r) => {
            if t.rows[r].entries.len() != 0 {
                let s = choose_by_prob(&t.rows[r], rng);
                proof {
                    assert(t.rows@[r as int].has_to(s@));
                }
                s
            } else {
                random_song(t, rng)
            }
        },
        None => random_song(t, rng),
    }
}

/// The full walk: seeds uniformly from the table's row keys, then repeatedly
/// steps, emitting exactly `n` songs.  Every emitted song occurs in the
/// table, as a row key or as a successor.
pub fn walk(t: &Table, n: u64, rng: &mut rand::rngs::StdRng) -> (out: Vec<Song>)
    requires
        t.wf(),
        t.rows@.len() >= 1,
        n >= 1,
    ensures
        out@.len() == n,
        t.has_from(out@[0]@),
        forall|j: int|
            1 <= j < out@.len() ==> if t.has_from(out@[j - 1]@) {
                t.has_edge(out@[j - 1]@, #[trigger] out@[j]@)
            } else {
                t.has_from(out@[j]@)
            },
        forall|j: int| 0 <= j < out@.len() ==> t.knows(#[trigger] out@[j]@),
{
    let mut out: Vec<Song> = Vec::new();
    let first = random_song(t, rng);
    let mut current = first.clone();
    out.push(first);
    let mut i: u64 = 1;
    while i < n
        invariant
            t.wf(),
            t.rows@.len() >= 1,
            1 <= i <= n,
            out@.len() == i,
            current@ == out@[i - 1]@,
            t.has_from(out@[0]@),
            forall|j: int|
                1 <= j < out@.len() ==> if t.has_from(out@[j - 1]@) {
                    t.has_edge(out@[j - 1]@, #[trigger] out@[j]@)
                } else {
                    t.has_from(out@[j]@)
                },
            forall|j: int| 0 <= j < out@.len() ==> t.knows(#[trigger] out@[j]@),
        decreases n - i,
    {
        let next = predict_next(&current, t, rng);
        current = next.clone();
        out.push(next);
        i = i + 1;
    }
    out
}

} // verus!
