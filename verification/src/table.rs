use vstd::prelude::*;

use crate::song::{Song, SongView};

verus! {

/// One observed successor of a "from" song.  `num` is the numerator of the
/// successor's weight; the denominator is shared by the whole row, so the
/// weight is the rational `num / den`.
pub struct Entry {
    pub to: Song,
    pub num: u64,
}

/// One row of the transition table: a "from" song, its observed successors,
/// and the denominator shared by all the row's weights.
pub struct Row {
    pub from: Song,
    pub entries: Vec<Entry>,
    pub den: u64,
}

/// The transition table: one row per "from" song observed in the history.
pub struct Table {
    pub rows: Vec<Row>,
}

/// Why a table could not be built.
#[derive(Clone, Copy, Debug, PartialEq, Eq, Structural)]
pub enum TableError {
    /// The history has fewer than two songs, so no transition is definable.
    HistoryTooShort,
}

/// The views of a sequence of songs.
pub open spec fn song_views(h: Seq<Song>) -> Seq<SongView> {
    h.map_values(|s: Song| s@)
}

/// The sum of the weight numerators of a sequence of entries.
pub open spec fn sum_of(es: Seq<Entry>) -> int
    decreases es.len(),
{
    if es.len() == 0 {
        0
    } else {
        sum_of(es.drop_last()) + es.last().num
    }
}

/// How many adjacent pairs of `h` are exactly `(a, b)`.
pub open spec fn pair_count(h: Seq<SongView>, a: SongView, b: SongView) -> int
    decreases h.len(),
{
    if h.len() < 2 {
        0
    } else {
        pair_count(h.drop_last(), a, b) + if h[h.len() - 2] == a && h.last() == b {
            1int
        } else {
            0int
        }
    }
}

impl Row {
    /// The row records `t` as a successor.
    pub open spec fn has_to(self, t: SongView) -> bool {
        exists|j: int| 0 <= j < self.entries@.len() && self.entries@[j].to@ == t
    }

    /// No successor appears twice in the row.
    pub open spec fn tos_distinct(self) -> bool {
        forall|j1: int, j2: int|
            0 <= j1 < j2 < self.entries@.len() ==> self.entries@[j1].to@ != self.entries@[j2].to@
    }

    /// The sum of the row's weight numerators.
    pub open spec fn sum_nums(self) -> int {
        sum_of(self.entries@)
    }

    /// Well-formedness: a positive shared denominator, at least one
    /// successor, distinct successors, and every weight at least 1
    /// (numerator at least the denominator).
    pub open spec fn wf(self) -> bool {
        &&& self.den >= 1
        &&& self.entries@.len() >= 1
        &&& self.tos_distinct()
        &&& forall|j: int| 0 <= j < self.entries@.len() ==> (#[trigger] self.entries@[j]).num >= self.den
    }
}

/// Well-formedness of a sequence of rows: each row well formed and no "from"
/// song owning two rows.
pub open spec fn rows_wf(rows: Seq<Row>) -> bool {
    &&& forall|i: int| 0 <= i < rows.len() ==> (#[trigger] rows[i]).wf()
    &&& forall|i1: int, i2: int|
        0 <= i1 < i2 < rows.len() ==> rows[i1].from@ != rows[i2].from@
}

impl Table {
    /// `s` owns a row of the table.
    pub open spec fn has_from(self, s: SongView) -> bool {
        seq_has_from(self.rows@, s)
    }

    /// The table records a transition from `a` to `b`.
    pub open spec fn has_edge(self, a: SongView, b: SongView) -> bool {
        seq_has_edge(self.rows@, a, b)
    }

    /// `s` occurs somewhere in the table, as a row key or as a successor.
    pub open spec fn knows(self, s: SongView) -> bool {
        self.has_from(s) || exists|i: int|
            0 <= i < self.rows@.len() && (#[trigger] self.rows@[i]).has_to(s)
    }

    pub open spec fn wf(self) -> bool {
        rows_wf(self.rows@)
    }
}

/// Every weight numerator of every row equals the number of times its
/// (from, to) pair occurs adjacently in `h`.
pub open spec fn counts_match(rows: Seq<Row>, h: Seq<SongView>) -> bool {
    forall|i: int, j: int|
        0 <= i < rows.len() && 0 <= j < rows[i].entries@.len()
            ==> (#[trigger] rows[i].entries@[j]).num == pair_count(h, rows[i].from@, rows[i].entries@[j].to@)
}

/// Every adjacent pair of `h` has an edge among `rows`.
pub open spec fn seq_covers(rows: Seq<Row>, h: Seq<SongView>) -> bool {
    forall|i: int| 0 <= i < h.len() - 1 ==> #[trigger] seq_has_edge(rows, h[i], h[i + 1])
}

/// There is a row owned by `s`.
pub open spec fn seq_has_from(rows: Seq<Row>, s: SongView) -> bool {
    exists|i: int| 0 <= i < rows.len() && rows[i].from@ == s
}

/// There is a row for `a` recording `b` as a successor.
pub open spec fn seq_has_edge(rows: Seq<Row>, a: SongView, b: SongView) -> bool {
    exists|i: int| 0 <= i < rows.len() && rows[i].from@ == a && rows[i].has_to(b)
}

/// The builder's full postcondition: the table is exactly the empirical
/// transition-count model of the history `h`, with all denominators 1.
pub open spec fn builds(t: Table, h: Seq<SongView>) -> bool {
    &&& t.wf()
    &&& forall|i: int| 0 <= i < t.rows@.len() ==> (#[trigger] t.rows@[i]).den == 1
    &&& counts_match(t.rows@, h)
    &&& seq_covers(t.rows@, h)
    &&& forall|i: int| 0 <= i < t.rows@.len() ==> (#[trigger] t.rows@[i]).sum_nums() <= h.len() - 1
}

pub proof fn lemma_sum_nonneg(es: Seq<Entry>)
    ensures
        sum_of(es) >= 0,
    decreases es.len(),
{
    if es.len() > 0 {
        lemma_sum_nonneg(es.drop_last());
    }
}

pub proof fn lemma_entry_le_sum(es: Seq<Entry>, j: int)
    requires
        0 <= j < es.len(),
    ensures
        es[j].num <= sum_of(es),
    decreases es.len(),
{
    if j == es.len() - 1 {
        lemma_sum_nonneg(es.drop_last());
    } else {
        lemma_entry_le_sum(es.drop_last(), j);
    }
}

pub proof fn lemma_sum_push(es: Seq<Entry>, e: Entry)
    ensures
        sum_of(es.push(e)) == sum_of(es) + e.num,
{
    assert(es.push(e).drop_last() =~= es);
}

pub proof fn lemma_sum_update(es: Seq<Entry>, j: int, e: Entry)
    requires
        0 <= j < es.len(),
    ensures
        sum_of(es.update(j, e)) == sum_of(es) - es[j].num + e.num,
    decreases es.len(),
{
    if j == es.len() - 1 {
        assert(es.update(j, e).drop_last() =~= es.drop_last());
    } else {
        assert(es.update(j, e).drop_last() =~= es.drop_last().update(j, e));
        lemma_sum_update(es.drop_last(), j, e);
    }
}

pub proof fn lemma_pair_count_nonneg(h: Seq<SongView>, a: SongView, b: SongView)
    ensures
        pair_count(h, a, b) >= 0,
    decreases h.len(),
{
    if h.len() >= 2 {
        lemma_pair_count_nonneg(h.drop_last(), a, b);
    }
}

/// Extending a history by one song adds exactly one to the count of the pair
/// (old last song, new song) and leaves every other count unchanged.
pub proof fn lemma_pair_count_push(h: Seq<SongView>, x: SongView, a: SongView, b: SongView)
    ensures
        pair_count(h.push(x), a, b) == pair_count(h, a, b) + if h.len() >= 1 && h.last() == a && x
            == b {
            1int
        } else {
            0int
        },
{
    let hp = h.push(x);
    if h.len() == 0 {
        assert(hp.len() == 1);
    } else {
        assert(hp.drop_last() =~= h);
        assert(hp[hp.len() - 2] == h.last());
        assert(hp.last() == x);
    }
}

/// A pair has a positive count exactly when it occurs adjacently.
pub proof fn lemma_pair_count_pos(h: Seq<SongView>, a: SongView, b: SongView)
    ensures
        (pair_count(h, a, b) >= 1) <==> (exists|i: int|
            0 <= i < h.len() - 1 && #[trigger] h[i] == a && h[i + 1] == b),
    decreases h.len(),
{
    lemma_pair_count_nonneg(h, a, b);
    if h.len() >= 2 {
        let hd = h.drop_last();
        lemma_pair_count_pos(hd, a, b);
        lemma_pair_count_nonneg(hd, a, b);
        if pair_count(h, a, b) >= 1 {
            if h[h.len() - 2] == a && h.last() == b {
                assert(h[h.len() - 2] == a && h[h.len() - 2 + 1] == b);
            } else {
                let i = choose|i: int| 0 <= i < hd.len() - 1 && #[trigger] hd[i] == a && hd[i + 1] == b;
                assert(h[i] == a && h[i + 1] == b);
            }
        }
        if exists|i: int| 0 <= i < h.len() - 1 && #[trigger] h[i] == a && h[i + 1] == b {
            let i = choose|i: int| 0 <= i < h.len() - 1 && #[trigger] h[i] == a && h[i + 1] == b;
            if i < h.len() - 2 {
                assert(hd[i] == a && hd[i + 1] == b);
            }
        }
    }
}

/// Products of bounded nonnegative factors are bounded.
pub proof fn lemma_mul_le(a: int, b: int, c: int, d: int)
    requires
        0 <= a <= c,
        0 <= b <= d,
    ensures
        a * b <= c * d,
{
    assert(a * b <= c * d) by (nonlinear_arith)
        requires
            0 <= a <= c,
            0 <= b <= d,
    ;
}

/// A sum of `u64` numerators is at most the length times `u64::MAX`.
pub proof fn lemma_sum_le_len_max(es: Seq<Entry>)
    ensures
        sum_of(es) <= es.len() * (u64::MAX as int),
    decreases es.len(),
{
    if es.len() > 0 {
        lemma_sum_le_len_max(es.drop_last());
        assert((es.len() - 1) * (u64::MAX as int) + (u64::MAX as int) == es.len() * (
        u64::MAX as int)) by (nonlinear_arith);
    }
}

/// The sum of a row's weight numerators.  A `u128` cannot overflow here:
/// the sum is at most the number of entries times `u64::MAX`.
pub fn sum_entries(entries: &Vec<Entry>) -> (s: u128)
    ensures
        s == sum_of(entries@),
{
    let mut s: u128 = 0;
    let mut j: usize = 0;
    while j < entries.len()
        invariant
            j <= entries@.len(),
            s == sum_of(entries@.take(j as int)),
            s <= (j as int) * (u64::MAX as int),
        decreases entries@.len() - j,
    {
        proof {
            assert(entries@.take(j as int + 1).drop_last() =~= entries@.take(j as int));
            assert(entries@.take(j as int + 1).last() == entries@[j as int]);
            assert((j as int) * (u64::MAX as int) + (u64::MAX as int) == (j as int + 1) * (
            u64::MAX as int)) by (nonlinear_arith);
            lemma_mul_le(j as int + 1, u64::MAX as int, usize::MAX as int, u64::MAX as int);
        }
        s = s + entries[j].num as u128;
        j = j + 1;
    }
    proof {
        assert(entries@.take(entries@.len() as int) =~= entries@);
    }
    s
}

/// Runtime check of a row's well-formedness, for callers outside the
/// verified world.
pub fn row_is_wf(row: &Row) -> (r: bool)
    ensures
        r == row.wf(),
{
    if row.den < 1 {
        return false;
    }
    let k = row.entries.len();
    if k < 1 {
        return false;
    }
    let mut j: usize = 0;
    while j < k
        invariant
            k == row.entries@.len(),
            j <= k,
            row.den >= 1,
            k >= 1,
            forall|x: int| 0 <= x < j ==> (#[trigger] row.entries@[x]).num >= row.den,
            forall|x1: int, x2: int|
                0 <= x1 < j && x1 < x2 < k ==> row.entries@[x1].to@ != row.entries@[x2].to@,
        decreases k - j,
    {
        if row.entries[j].num < row.den {
            return false;
        }
        let mut l = j + 1;
        while l < k
            invariant
                k == row.entries@.len(),
                j < l <= k,
                forall|x2: int| j < x2 < l ==> row.entries@[j as int].to@ != row.entries@[x2].to@,
            decreases k - l,
        {
            if row.entries[j].to == row.entries[l].to {
                return false;
            }
            l = l + 1;
        }
        j = j + 1;
    }
    true
}

/// Runtime check of a table's well-formedness, for callers outside the
/// verified world.
pub fn table_is_wf(t: &Table) -> (r: bool)
    ensures
        r == t.wf(),
{
    let n = t.rows.len();
    let mut i: usize = 0;
    while i < n
        invariant
            n == t.rows@.len(),
            i <= n,
            forall|x: int| 0 <= x < i ==> (#[trigger] t.rows@[x]).wf(),
            forall|x1: int, x2: int|
                0 <= x1 < i && x1 < x2 < n ==> t.rows@[x1].from@ != t.rows@[x2].from@,
        decreases n - i,
    {
        if !row_is_wf(&t.rows[i]) {
            return false;
        }
        let mut l = i + 1;
        while l < n
            invariant
                n == t.rows@.len(),
                i < l <= n,
                forall|x2: int| i < x2 < l ==> t.rows@[i as int].from@ != t.rows@[x2].from@,
            decreases n - l,
        {
            if t.rows[i].from == t.rows[l].from {
                return false;
            }
            l = l + 1;
        }
        i = i + 1;
    }
    true
}

/// Finds the row owned by `s`, if any.
pub fn find_row(rows: &Vec<Row>, s: &Song) -> (r: Option<usize>)
    ensures
        match r {
            Some(i) => i < rows@.len() && rows@[i as int].from@ == s@,
            None => forall|i: int| 0 <= i < rows@.len() ==> rows@[i].from@ != s@,
        },
{
    let mut i: usize = 0;
    while i < rows.len()
        invariant
            i <= rows@.len(),
            forall|k: int| 0 <= k < i ==> rows@[k].from@ != s@,
        decreases rows@.len() - i,
    {
        if rows[i].from == *s {
            return Some(i);
        }
        i = i + 1;
    }
    None
}

/// Finds the entry for successor `s` within a row's entries, if any.
pub fn find_entry(entries: &Vec<Entry>, s: &Song) -> (r: Option<usize>)
    ensures
        match r {
            Some(j) => j < entries@.len() && entries@[j as int].to@ == s@,
            None => forall|j: int| 0 <= j < entries@.len() ==> entries@[j].to@ != s@,
        },
{
    let mut j: usize = 0;
    while j < entries.len()
        invariant
            j <= entries@.len(),
            forall|k: int| 0 <= k < j ==> entries@[k].to@ != s@,
        decreases entries@.len() - j,
    {
        if entries[j].to == *s {
            return Some(j);
        }
        j = j + 1;
    }
    None
}

/// Adds one to the weight numerator of entry `e` of row `r`, leaving
/// everything else in place.
fn bump_entry(rows: &mut Vec<Row>, r: usize, e: usize)
    requires
        r < old(rows)@.len(),
        e < old(rows)@[r as int].entries@.len(),
        old(rows)@[r as int].entries@[e as int].num < u64::MAX,
    ensures
        final(rows)@.len() == old(rows)@.len(),
        forall|i: int| 0 <= i < old(rows)@.len() && i != r ==> final(rows)@[i] == old(rows)@[i],
        final(rows)@[r as int].from == old(rows)@[r as int].from,
        final(rows)@[r as int].den == old(rows)@[r as int].den,
        final(rows)@[r as int].entries@ == old(rows)@[r as int].entries@.update(
            e as int,
            Entry {
                to: old(rows)@[r as int].entries@[e as int].to,
                num: (old(rows)@[r as int].entries@[e as int].num + 1) as u64,
            },
        ),
{
    let eref = &mut rows[r].entries[e];
    eref.num = eref.num + 1;
}

/// Appends a new entry to row `r`, leaving everything else in place.
fn push_entry(rows: &mut Vec<Row>, r: usize, ent: Entry)
    requires
        r < old(rows)@.len(),
    ensures
        final(rows)@.len() == old(rows)@.len(),
        forall|i: int| 0 <= i < old(rows)@.len() && i != r ==> final(rows)@[i] == old(rows)@[i],
        final(rows)@[r as int].from == old(rows)@[r as int].from,
        final(rows)@[r as int].den == old(rows)@[r as int].den,
        final(rows)@[r as int].entries@ == old(rows)@[r as int].entries@.push(ent),
{
    let rref = &mut rows[r];
    rref.entries.push(ent);
}

/// Builds the transition table of a history given oldest-to-newest: for every
/// pair of adjacent songs, the weight of the edge between them is the number
/// of times that pair occurs.  A history of fewer than two songs is rejected:
/// it defines no transition.
pub fn build_table(history: &Vec<Song>) -> (res: Result<Table, TableError>)
    ensures
        match res {
            Ok(t) => history@.len() >= 2 && builds(t, song_views(history@)),
            Err(e) => history@.len() < 2 && e == TableError::HistoryTooShort,
        },
{
    if history.len() < 2 {
        return Err(TableError::HistoryTooShort);
    }
    let ghost hv = song_views(history@);
    let n = history.len();
    let mut rows: Vec<Row> = Vec::new();
    let mut p: usize = 0;
    while p < n - 1
        invariant
            2 <= n == history@.len(),
            hv == song_views(history@),
            p <= n - 1,
            rows_wf(rows@),
            forall|i: int| 0 <= i < rows@.len() ==> (#[trigger] rows@[i]).den == 1,
            counts_match(rows@, hv.take(p + 1)),
            forall|i: int| 0 <= i < p ==> #[trigger] seq_has_edge(rows@, hv[i], hv[i + 1]),
            forall|i: int| 0 <= i < rows@.len() ==> (#[trigger] rows@[i]).sum_nums() <= p as int,
        decreases n - 1 - p,
    {
        let cur = &history[p];
        let nxt = &history[p + 1];
        let ghost a = hv[p as int];
        let ghost b = hv[p as int + 1];
        let ghost prefix = hv.take(p + 1);
        let ghost prefix2 = hv.take(p + 2);
        proof {
            assert(cur@ == a && nxt@ == b);
            assert(prefix2 =~= prefix.push(b));
            assert(prefix.len() >= 1 && prefix.last() == a);
        }
        match find_row(&rows, cur) {
            Some(r) => {
                let ghost row0 = rows@[r as int];
                match find_entry(&rows[r].entries, nxt) {
                    Some(e) => {
                        proof {
                            lemma_entry_le_sum(row0.entries@, e as int);
                        }
                        let ghost rows0 = rows@;
                        bump_entry(&mut rows, r, e);
                        proof {
                            let ghost row1 = rows@[r as int];
                            lemma_sum_update(
                                row0.entries@,
                                e as int,
                                row1.entries@[e as int],
                            );
                            assert forall|i: int, j: int|
                                0 <= i < rows@.len() && 0 <= j < rows@[i].entries@.len() implies (
                            #[trigger] rows@[i].entries@[j]).num == pair_count(
                                prefix2,
                                rows@[i].from@,
                                rows@[i].entries@[j].to@,
                            ) by {
                                lemma_pair_count_push(
                                    prefix,
                                    b,
                                    rows@[i].from@,
                                    rows@[i].entries@[j].to@,
                                );
                                if i == r {
                                    assert(rows0[i].entries@[j].num == pair_count(
                                        prefix,
                                        rows0[i].from@,
                                        rows0[i].entries@[j].to@,
                                    ));
                                } else {
                                    assert(rows@[i] == rows0[i]);
                                    assert(rows@[i].from@ != a);
                                    assert(rows0[i].entries@[j].num == pair_count(
                                        prefix,
                                        rows0[i].from@,
                                        rows0[i].entries@[j].to@,
                                    ));
                                }
                            };
                            assert forall|i: int| 0 <= i < p + 1 implies #[trigger] seq_has_edge(
                                rows@,
                                hv[i],
                                hv[i + 1],
                            ) by {
                                if i < p {
                                    assert(seq_has_edge(rows0, hv[i], hv[i + 1]));
                                    let i0 = choose|i0: int|
                                        0 <= i0 < rows0.len() && rows0[i0].from@ == hv[i]
                                            && rows0[i0].has_to(hv[i + 1]);
                                    assert(rows@[i0].from@ == hv[i]);
                                    let j0 = choose|j0: int|
                                        0 <= j0 < rows0[i0].entries@.len()
                                            && rows0[i0].entries@[j0].to@ == hv[i + 1];
                                    assert(rows@[i0].entries@[j0].to@ == hv[i + 1]);
                                } else {
                                    assert(rows@[r as int].from@ == a);
                                    assert(rows@[r as int].entries@[e as int].to@ == b);
                                }
                            };
                        }
                    },
                    None => {
                        let ghost rows0 = rows@;
                        let ent = Entry { to: nxt.clone(), num: 1 };
                        push_entry(&mut rows, r, ent);
                        proof {
                            let ghost row1 = rows@[r as int];
                            let ghost k0 = row0.entries@.len() as int;
                            lemma_sum_push(row0.entries@, row1.entries@[k0]);
                            lemma_pair_count_pos(prefix, a, b);
                            // the pair (a, b) never occurred in the prefix: its row is r,
                            // and row r has no entry for b
                            assert(pair_count(prefix, a, b) == 0) by {
                                lemma_pair_count_nonneg(prefix, a, b);
                                if pair_count(prefix, a, b) >= 1 {
                                    let i = choose|i: int|
                                        0 <= i < prefix.len() - 1 && #[trigger] prefix[i] == a
                                            && prefix[i + 1] == b;
                                    assert(seq_has_edge(rows0, hv[i], hv[i + 1]));
                                    let i0 = choose|i0: int|
                                        0 <= i0 < rows0.len() && rows0[i0].from@ == a
                                            && rows0[i0].has_to(b);
                                    assert(i0 == r);
                                }
                            };
                            assert forall|i: int, j: int|
                                0 <= i < rows@.len() && 0 <= j < rows@[i].entries@.len() implies (
                            #[trigger] rows@[i].entries@[j]).num == pair_count(
                                prefix2,
                                rows@[i].from@,
                                rows@[i].entries@[j].to@,
                            ) by {
                                lemma_pair_count_push(
                                    prefix,
                                    b,
                                    rows@[i].from@,
                                    rows@[i].entries@[j].to@,
                                );
                                if i == r {
                                    if j < k0 {
                                        assert(rows@[i].entries@[j] == row0.entries@[j]);
                                        assert(rows0[i].entries@[j].num == pair_count(
                                            prefix,
                                            rows0[i].from@,
                                            rows0[i].entries@[j].to@,
                                        ));
                                    }
                                } else {
                                    assert(rows@[i] == rows0[i]);
                                    assert(rows@[i].from@ != a);
                                    assert(rows0[i].entries@[j].num == pair_count(
                                        prefix,
                                        rows0[i].from@,
                                        rows0[i].entries@[j].to@,
                                    ));
                                }
                            };
                            assert forall|i: int| 0 <= i < p + 1 implies #[trigger] seq_has_edge(
                                rows@,
                                hv[i],
                                hv[i + 1],
                            ) by {
                                if i < p {
                                    assert(seq_has_edge(rows0, hv[i], hv[i + 1]));
                                    let i0 = choose|i0: int|
                                        0 <= i0 < rows0.len() && rows0[i0].from@ == hv[i]
                                            && rows0[i0].has_to(hv[i + 1]);
                                    assert(rows@[i0].from@ == hv[i]);
                                    let j0 = choose|j0: int|
                                        0 <= j0 < rows0[i0].entries@.len()
                                            && rows0[i0].entries@[j0].to@ == hv[i + 1];
                                    assert(rows@[i0].entries@[j0].to@ == hv[i + 1]);
                                } else {
                                    assert(rows@[r as int].from@ == a);
                                    assert(rows@[r as int].entries@[k0].to@ == b);
                                }
                            };
                        }
                    },
                }
            },
            None => {
                let ghost rows0 = rows@;
                let mut es: Vec<Entry> = Vec::new();
                es.push(Entry { to: nxt.clone(), num: 1 });
                rows.push(Row { from: cur.clone(), entries: es, den: 1 });
                proof {
                    let ghost nr = rows0.len() as int;
                    assert(rows@ == rows0.push(rows@[nr]));
                    lemma_sum_push(rows@[nr].entries@.drop_last(), rows@[nr].entries@[0]);
                    assert(rows@[nr].entries@.drop_last() =~= Seq::<Entry>::empty());
                    assert(rows@[nr].sum_nums() == 1);
                    lemma_pair_count_pos(prefix, a, b);
                    assert(pair_count(prefix, a, b) == 0) by {
                        lemma_pair_count_nonneg(prefix, a, b);
                        if pair_count(prefix, a, b) >= 1 {
                            let i = choose|i: int|
                                0 <= i < prefix.len() - 1 && #[trigger] prefix[i] == a
                                    && prefix[i + 1] == b;
                            assert(seq_has_edge(rows0, hv[i], hv[i + 1]));
                            let i0 = choose|i0: int|
                                0 <= i0 < rows0.len() && rows0[i0].from@ == a && rows0[i0].has_to(
                                    b,
                                );
                        }
                    };
                    assert forall|i: int, j: int|
                        0 <= i < rows@.len() && 0 <= j < rows@[i].entries@.len() implies (
                    #[trigger] rows@[i].entries@[j]).num == pair_count(
                        prefix2,
                        rows@[i].from@,
                        rows@[i].entries@[j].to@,
                    ) by {
                        lemma_pair_count_push(prefix, b, rows@[i].from@, rows@[i].entries@[j].to@);
                        if i < nr {
                            assert(rows@[i] == rows0[i]);
                            assert(rows@[i].from@ != a);
                            assert(rows0[i].entries@[j].num == pair_count(
                                prefix,
                                rows0[i].from@,
                                rows0[i].entries@[j].to@,
                            ));
                        }
                    };
                    assert forall|i: int| 0 <= i < p + 1 implies #[trigger] seq_has_edge(
                        rows@,
                        hv[i],
                        hv[i + 1],
                    ) by {
                        if i < p {
                            assert(seq_has_edge(rows0, hv[i], hv[i + 1]));
                            let i0 = choose|i0: int|
                                0 <= i0 < rows0.len() && rows0[i0].from@ == hv[i]
                                    && rows0[i0].has_to(hv[i + 1]);
                            assert(rows@[i0].from@ == hv[i]);
                            let j0 = choose|j0: int|
                                0 <= j0 < rows0[i0].entries@.len() && rows0[i0].entries@[j0].to@
                                    == hv[i + 1];
                            assert(rows@[i0].entries@[j0].to@ == hv[i + 1]);
                        } else {
                            assert(rows@[nr].from@ == a);
                            assert(rows@[nr].entries@[0].to@ == b);
                        }
                    };
                }
            },
        }
        p = p + 1;
    }
    proof {
        assert(hv.take(p + 1) =~= hv);
    }
    Ok(Table { rows })
}

/// History coverage: every adjacent pair of the history has an edge in the
/// table built from it, and the weight of that edge — the pair's occurrence
/// count — is at least 1.
pub proof fn lemma_history_coverage(t: Table, h: Seq<SongView>, i: int)
    requires
        builds(t, h),
        0 <= i < h.len() - 1,
    ensures
        t.has_edge(h[i], h[i + 1]),
        pair_count(h, h[i], h[i + 1]) >= 1,
        forall|r: int, j: int|
            0 <= r < t.rows@.len() && 0 <= j < t.rows@[r].entries@.len() && t.rows@[r].from@ == h[i]
                && (#[trigger] t.rows@[r].entries@[j]).to@ == h[i + 1] ==> t.rows@[r].entries@[j].num
                == pair_count(h, h[i], h[i + 1]) >= 1,
{
    lemma_pair_count_pos(h, h[i], h[i + 1]);
}

/// No phantom successors: every entry of every row of a built table arises
/// from some adjacent pair of the history.
pub proof fn lemma_no_phantom_successors(t: Table, h: Seq<SongView>, r: int, j: int)
    requires
        builds(t, h),
        0 <= r < t.rows@.len(),
        0 <= j < t.rows@[r].entries@.len(),
    ensures
        exists|i: int|
            0 <= i < h.len() - 1 && #[trigger] h[i] == t.rows@[r].from@ && h[i + 1]
                == t.rows@[r].entries@[j].to@,
{
    lemma_pair_count_pos(h, t.rows@[r].from@, t.rows@[r].entries@[j].to@);
}

/// Walk closure over the history: every song a built table knows — every
/// row key and every successor — occurs somewhere in the history it was
/// built from.
pub proof fn lemma_known_song_in_history(t: Table, h: Seq<SongView>, s: SongView)
    requires
        builds(t, h),
        t.knows(s),
    ensures
        exists|i: int| 0 <= i < h.len() && #[trigger] h[i] == s,
{
    if t.has_from(s) {
        let r = choose|r: int| 0 <= r < t.rows@.len() && t.rows@[r].from@ == s;
        assert(t.rows@[r].wf());
        lemma_no_phantom_successors(t, h, r, 0);
        let i = choose|i: int|
            0 <= i < h.len() - 1 && #[trigger] h[i] == t.rows@[r].from@ && h[i + 1]
                == t.rows@[r].entries@[0].to@;
        assert(h[i] == s);
    } else {
        let r = choose|r: int| 0 <= r < t.rows@.len() && (#[trigger] t.rows@[r]).has_to(s);
        let j = choose|j: int|
            0 <= j < t.rows@[r].entries@.len() && t.rows@[r].entries@[j].to@ == s;
        lemma_no_phantom_successors(t, h, r, j);
        let i = choose|i: int|
            0 <= i < h.len() - 1 && #[trigger] h[i] == t.rows@[r].from@ && h[i + 1]
                == t.rows@[r].entries@[j].to@;
        assert(h[i + 1] == s);
    }
}

} // verus!
