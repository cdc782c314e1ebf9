//! Tiered storage: which tier each table is filed into, when a tier must be
//! compacted, and where the compacted table goes.
//!
//! Compaction is split in two steps so that file work stays with the caller:
//! filing a table returns the compaction it makes due, if any; the caller
//! reads the input tables, builds the merged table with [`compact_tables`],
//! stores it, and reports it with [`TieredStorage::finish_compaction`]. Until
//! then the tier keeps all its inputs, so no one sees it half-compacted.

use vstd::prelude::*;
use vstd::multiset::Multiset;
use crate::error::LsmError;
use crate::records::{Record, merge_tables, merged_view, tables_view, as_map, records_view};
use crate::sstable::{BuiltTable, DataSource, SSTable, build_table, built_from, map_keyed, map_lengths_fit};

verus! {

/// A tier holding more tables than this is compacted.
pub const MAX_TABLES_PER_TIER: usize = 3;

/// Compacted tables are filed into tiers 0, 1 and 2 by record count, so at
/// least this many tiers exist.
pub const MIN_TIERS: usize = 3;

/// A compacted table with more records than this goes to tier 2.
pub const LARGE_TABLE_RECORDS: u64 = 10;

/// A compacted table with more records than this (and not large) goes to tier 1.
pub const MEDIUM_TABLE_RECORDS: u64 = 5;

/// The number of tiers for a sequence of tier-size thresholds.
pub open spec fn tier_count(n_sizes: nat) -> nat {
    if n_sizes > MIN_TIERS {
        n_sizes
    } else {
        MIN_TIERS as nat
    }
}

/// The tier for ordering key `key`, searching the thresholds from index `i`:
/// the first threshold at or above the key, or the last tier when none is.
pub open spec fn tier_from(sizes: Seq<u64>, key: u64, i: int) -> int
    decreases sizes.len() - i,
{
    if i + 1 >= sizes.len() {
        if sizes.len() == 0 {
            0
        } else {
            sizes.len() - 1
        }
    } else if key <= sizes[i] {
        i
    } else {
        tier_from(sizes, key, i + 1)
    }
}

/// The tier a new table with maximum ordering key `key` is filed into.
pub open spec fn tier_for(sizes: Seq<u64>, key: u64) -> int {
    tier_from(sizes, key, 0)
}

/// The tier a compacted table with `n` records is filed into.
pub open spec fn tier_for_count(n: u64) -> int {
    if n > LARGE_TABLE_RECORDS {
        2
    } else if n > MEDIUM_TABLE_RECORDS {
        1
    } else {
        0
    }
}

/// The views of a tier's tables.
pub open spec fn handles_view(t: Seq<SSTable>) -> Seq<(Seq<char>, (u64, u64))> {
    t.map_values(|s: SSTable| s@)
}

/// Tiers after `x` is appended to tier `t`.
pub open spec fn filed(
    v: Seq<Seq<(Seq<char>, (u64, u64))>>,
    t: int,
    x: (Seq<char>, (u64, u64)),
) -> Seq<Seq<(Seq<char>, (u64, u64))>> {
    v.update(t, v[t].push(x))
}

/// The tables of all tiers together.
pub open spec fn all_tables(v: Seq<Seq<(Seq<char>, (u64, u64))>>) -> Multiset<(Seq<char>, (u64, u64))>
    decreases v.len(),
{
    if v.len() == 0 {
        Multiset::empty()
    } else {
        all_tables(v.drop_last()).add(v.last().to_multiset())
    }
}

/// The tables of one tier are among the tables of all tiers.
pub proof fn lemma_tier_in_all(v: Seq<Seq<(Seq<char>, (u64, u64))>>, t: int)
    requires
        0 <= t < v.len(),
    ensures
        v[t].to_multiset().subset_of(all_tables(v)),
    decreases v.len(),
{
    if t < v.len() - 1 {
        lemma_tier_in_all(v.drop_last(), t);
        assert(v.drop_last()[t] == v[t]);
    }
}

/// Replacing the tables of tier `t` by `s` takes exactly the old tables of
/// that tier out of the whole and puts exactly those of `s` in.
pub proof fn lemma_replace_tier(
    v: Seq<Seq<(Seq<char>, (u64, u64))>>,
    t: int,
    s: Seq<(Seq<char>, (u64, u64))>,
)
    requires
        0 <= t < v.len(),
    ensures
        all_tables(v.update(t, s)) == all_tables(v).sub(v[t].to_multiset()).add(s.to_multiset()),
    decreases v.len(),
{
    let w = v.update(t, s);
    if t == v.len() - 1 {
        assert(w.drop_last() =~= v.drop_last());
        assert(all_tables(w) =~= all_tables(v).sub(v[t].to_multiset()).add(s.to_multiset()));
    } else {
        assert(w.drop_last() =~= v.drop_last().update(t, s));
        lemma_replace_tier(v.drop_last(), t, s);
        lemma_tier_in_all(v.drop_last(), t);
        assert(v.drop_last()[t] == v[t]);
        assert(all_tables(w) =~= all_tables(v).sub(v[t].to_multiset()).add(s.to_multiset()));
    }
}

/// Filing a table adds exactly that table to the whole, once.
pub proof fn lemma_filed_adds_one(
    v: Seq<Seq<(Seq<char>, (u64, u64))>>,
    t: int,
    x: (Seq<char>, (u64, u64)),
)
    requires
        0 <= t < v.len(),
    ensures
        all_tables(filed(v, t, x)) == all_tables(v).insert(x),
{
    lemma_replace_tier(v, t, v[t].push(x));
    lemma_tier_in_all(v, t);
    v[t].to_multiset_ensures();
    assert(all_tables(filed(v, t, x)) =~= all_tables(v).insert(x));
}

pub proof fn lemma_tier_from_bounds(sizes: Seq<u64>, key: u64, i: int)
    requires
        0 <= i,
    ensures
        0 <= tier_from(sizes, key, i),
        tier_from(sizes, key, i) < tier_count(sizes.len()),
    decreases sizes.len() - i,
{
    if i + 1 < sizes.len() && key > sizes[i] {
        lemma_tier_from_bounds(sizes, key, i + 1);
    }
}

/// A compaction that filing a table made due: the tier, its tables at that
/// moment (oldest first), and the sequence number that names the output.
pub struct Compaction {
    pub tier: usize,
    pub inputs: Vec<SSTable>,
    pub sequence: u64,
}

/// Tables filed into tiers.
pub struct TieredStorage {
    /// The tables of each tier, by tier number, oldest first.
    pub tiers: Vec<Vec<SSTable>>,
    /// Ascending ordering-key thresholds that pick the tier of a new table.
    pub tier_sizes: Vec<u64>,
    /// The sequence number of the next compaction output.
    pub next_sequence: u64,
}

/// Compacts decoded tables, oldest first, into one table at `file_path`: the
/// merged records (the latest table wins on a shared key), their ordering-key
/// range recomputed from the surviving records, and the bytes to store.
pub fn compact_tables(contents: &Vec<Vec<Record>>, file_path: &str) -> (r: Result<BuiltTable, LsmError>)
    ensures
        r is Ok <==> map_lengths_fit(merged_view(tables_view(contents@))) && map_keyed(
            merged_view(tables_view(contents@)),
        ),
        !map_lengths_fit(merged_view(tables_view(contents@))) ==> r == Err::<BuiltTable, LsmError>(
            LsmError::RecordTooLarge,
        ),
        map_lengths_fit(merged_view(tables_view(contents@))) && !map_keyed(
            merged_view(tables_view(contents@)),
        ) ==> r == Err::<BuiltTable, LsmError>(LsmError::OrderingKeyExtraction),
        r matches Ok(b) ==> built_from(b, file_path@) && as_map(records_view(b.records@))
            == merged_view(tables_view(contents@)),
{
    let merged = merge_tables(contents);
    proof {
        crate::sstable::lemma_sorted_map_conditions(records_view(merged@));
    }
    build_table(file_path, merged)
}

/// Copies a list of table handles.
fn copy_handles(v: &Vec<SSTable>) -> (r: Vec<SSTable>)
    ensures
        handles_view(r@) == handles_view(v@),
{
    let mut out: Vec<SSTable> = Vec::new();
    let mut i: usize = 0;
    while i < v.len()
        invariant
            i <= v@.len(),
            out@.len() == i,
            handles_view(out@) == handles_view(v@).take(i as int),
        decreases v@.len() - i,
    {
        let h = v[i].duplicate();
        out.push(h);
        assert(out@[i as int]@ == v@[i as int]@);
        assert(handles_view(out@) =~= handles_view(v@).take(i + 1));
        i = i + 1;
    }
    assert(handles_view(v@).take(i as int) =~= handles_view(v@));
    out
}

impl TieredStorage {
    /// The views of all tiers' tables.
    pub open spec fn tiers_view(&self) -> Seq<Seq<(Seq<char>, (u64, u64))>> {
        self.tiers@.map_values(|t: Vec<SSTable>| handles_view(t@))
    }

    /// There is a tier for every threshold, and at least `MIN_TIERS`.
    pub open spec fn wf(&self) -> bool {
        self.tiers@.len() == tier_count(self.tier_sizes@.len())
    }

    /// No tier other than `except` holds more than `MAX_TABLES_PER_TIER` tables.
    pub open spec fn settled_except(&self, except: int) -> bool {
        forall|t: int|
            0 <= t < self.tiers@.len() && t != except ==> #[trigger] self.tiers_view()[t].len()
                <= MAX_TABLES_PER_TIER
    }

    /// No tier holds more than `MAX_TABLES_PER_TIER` tables.
    pub open spec fn settled(&self) -> bool {
        self.settled_except(-1)
    }

    /// Empty storage with the given ascending tier-size thresholds.
    pub fn new(tier_sizes: Vec<u64>) -> (r: Self)
        ensures
            r.wf(),
            r.tier_sizes@ == tier_sizes@,
            r.next_sequence == 0,
            forall|t: int| 0 <= t < r.tiers@.len() ==> #[trigger] r.tiers_view()[t].len() == 0,
    {
        let n = if tier_sizes.len() > MIN_TIERS {
            tier_sizes.len()
        } else {
            MIN_TIERS
        };
        let mut tiers: Vec<Vec<SSTable>> = Vec::new();
        let mut i: usize = 0;
        while i < n
            invariant
                i <= n,
                tiers@.len() == i,
                forall|t: int| 0 <= t < i ==> (#[trigger] tiers@[t])@.len() == 0,
            decreases n - i,
        {
            tiers.push(Vec::new());
            i = i + 1;
        }
        let r = TieredStorage { tiers, tier_sizes, next_sequence: 0 };
        assert forall|t: int| 0 <= t < r.tiers@.len() implies #[trigger] r.tiers_view()[t].len()
            == 0 by {
            assert(r.tiers@[t]@.len() == 0);
        }
        r
    }

    /// The tier for a new table whose largest ordering key is `key`.
    pub fn tier_for_key(&self, key: u64) -> (r: usize)
        requires
            self.wf(),
        ensures
            r == tier_for(self.tier_sizes@, key),
            r < self.tiers@.len(),
    {
        let sizes = &self.tier_sizes;
        proof {
            lemma_tier_from_bounds(sizes@, key, 0);
        }
        if sizes.len() == 0 {
            return 0;
        }
        let mut i: usize = 0;
        while i < sizes.len() - 1 && key > sizes[i]
            invariant
                i < sizes@.len(),
                tier_from(sizes@, key, i as int) == tier_for(sizes@, key),
            decreases sizes@.len() - i,
        {
            i = i + 1;
        }
        i
    }

    /// Appends `table` to tier `t` and says whether that tier is now due for
    /// compaction.
    fn file_into(&mut self, t: usize, table: SSTable) -> (r: Option<Compaction>)
        requires
            old(self).wf(),
            t < old(self).tiers@.len(),
        ensures
            final(self).wf(),
            final(self).tier_sizes@ == old(self).tier_sizes@,
            final(self).tiers_view() == filed(old(self).tiers_view(), t as int, table@),
            r is Some <==> final(self).tiers_view()[t as int].len() > MAX_TABLES_PER_TIER,
            r matches Some(c) ==> c.tier == t && handles_view(c.inputs@) == final(self).tiers_view()[t as int] && c.sequence == old(self).next_sequence,
            final(self).next_sequence == if r is Some && old(self).next_sequence < u64::MAX {
                (old(self).next_sequence + 1) as u64
            } else {
                old(self).next_sequence
            },
    {
        let ghost before = self.tiers_view();
        let mut cur: Vec<SSTable> = Vec::new();
        std::mem::swap(&mut cur, &mut self.tiers[t]);
        cur.push(table);
        let job = if cur.len() > MAX_TABLES_PER_TIER {
            let inputs = copy_handles(&cur);
            let sequence = self.next_sequence;
            if self.next_sequence < u64::MAX {
                self.next_sequence = self.next_sequence + 1;
            }
            Some(Compaction { tier: t, inputs, sequence })
        } else {
            None
        };
        std::mem::swap(&mut cur, &mut self.tiers[t]);
        assert(handles_view(self.tiers@[t as int]@) =~= before[t as int].push(table@));
        assert(self.tiers_view() =~= filed(before, t as int, table@));
        job
    }

    /// Files a new table into the tier its largest ordering key picks. Returns
    /// the compaction of that tier when it now holds more than
    /// `MAX_TABLES_PER_TIER` tables.
    pub fn add_sstable(&mut self, sstable: SSTable) -> (r: Option<Compaction>)
        requires
            old(self).wf(),
        ensures
            final(self).wf(),
            final(self).tier_sizes@ == old(self).tier_sizes@,
            final(self).tiers_view() == filed(
                old(self).tiers_view(),
                tier_for(old(self).tier_sizes@, sstable.timestamp_range.1),
                sstable@,
            ),
            r is Some <==> final(self).tiers_view()[tier_for(
                old(self).tier_sizes@,
                sstable.timestamp_range.1,
            )].len() > MAX_TABLES_PER_TIER,
            r matches Some(c) ==> c.tier == tier_for(old(self).tier_sizes@, sstable.timestamp_range.1)
                && handles_view(c.inputs@) == final(self).tiers_view()[c.tier as int]
                && c.sequence == old(self).next_sequence,
            all_tables(final(self).tiers_view()) == all_tables(old(self).tiers_view()).insert(
                sstable@,
            ),
            old(self).settled() ==> match r {
                Some(c) => final(self).settled_except(c.tier as int),
                None => final(self).settled(),
            },
    {
        let t = self.tier_for_key(sstable.timestamp_range.1);
        proof {
            lemma_filed_adds_one(self.tiers_view(), t as int, sstable@);
        }
        let ghost before = *self;
        let r = self.file_into(t, sstable);
        proof {
            if before.settled() {
                assert forall|u: int|
                    0 <= u < self.tiers@.len() && u != t && (r is Some || u != -1) implies #[trigger] self.tiers_view()[u].len()
                    <= MAX_TABLES_PER_TIER by {
                    assert(self.tiers_view()[u] == before.tiers_view()[u]);
                }
            }
        }
        r
    }

    /// Builds the table that `source` describes (see [`SSTable::write`]) and
    /// files it with [`TieredStorage::add_sstable`]. Returns the built table,
    /// whose bytes the caller stores at `file_path`, and the compaction that
    /// filing made due. On failure nothing is filed.
    pub fn add_data_source<D: DataSource>(&mut self, source: D, file_path: &str) -> (r: Result<
        (BuiltTable, Option<Compaction>),
        LsmError,
    >)
        requires
            old(self).wf(),
        ensures
            final(self).wf(),
            final(self).tier_sizes@ == old(self).tier_sizes@,
            r is Ok <==> map_lengths_fit(as_map(source.entries_view())) && map_keyed(
                as_map(source.entries_view()),
            ),
            r matches Err(e) ==> final(self).tiers_view() == old(self).tiers_view() && e
                == if map_lengths_fit(as_map(source.entries_view())) {
                LsmError::OrderingKeyExtraction
            } else {
                LsmError::RecordTooLarge
            },
            r matches Ok((b, c)) ==> {
                let t = tier_for(old(self).tier_sizes@, b.table.timestamp_range.1);
                &&& built_from(b, file_path@)
                &&& as_map(records_view(b.records@)) == as_map(source.entries_view())
                &&& final(self).tiers_view() == filed(old(self).tiers_view(), t, b.table@)
                &&& (c is Some <==> final(self).tiers_view()[t].len() > MAX_TABLES_PER_TIER)
                &&& (c matches Some(job) ==> job.tier == t && handles_view(job.inputs@)
                    == final(self).tiers_view()[t])
            },
    {
        let built = SSTable::write(&source, file_path)?;
        let job = self.add_sstable(built.table.duplicate());
        Ok((built, job))
    }

    /// Replaces all tables of tier `tier` by the compacted table `output`,
    /// which holds `record_count` records and is filed into the tier that
    /// count picks. Returns the compaction of that tier when it is now due.
    /// A tier number out of range changes nothing.
    pub fn finish_compaction(&mut self, tier: usize, output: SSTable, record_count: u64) -> (r:
        Option<Compaction>)
        requires
            old(self).wf(),
        ensures
            final(self).wf(),
            final(self).tier_sizes@ == old(self).tier_sizes@,
            tier >= old(self).tiers@.len() ==> r is None && final(self).tiers_view()
                == old(self).tiers_view(),
            tier < old(self).tiers@.len() ==> {
                let cleared = old(self).tiers_view().update(tier as int, Seq::empty());
                let d = tier_for_count(record_count);
                &&& final(self).tiers_view() == filed(cleared, d, output@)
                &&& all_tables(final(self).tiers_view()) == all_tables(old(self).tiers_view()).sub(
                    old(self).tiers_view()[tier as int].to_multiset(),
                ).insert(output@)
                &&& (r is Some <==> final(self).tiers_view()[d].len() > MAX_TABLES_PER_TIER)
                &&& (r matches Some(c) ==> c.tier == d && handles_view(c.inputs@) == final(self).tiers_view()[d] && c.sequence == old(self).next_sequence)
            },
            old(self).settled_except(tier as int) ==> match r {
                Some(c) => final(self).settled_except(c.tier as int),
                None => final(self).settled(),
            },
    {
        if tier >= self.tiers.len() {
            return None;
        }
        let ghost before = *self;
        self.tiers[tier] = Vec::new();
        let ghost cleared = before.tiers_view().update(tier as int, Seq::empty());
        assert(handles_view(self.tiers@[tier as int]@) =~= Seq::<(Seq<char>, (u64, u64))>::empty());
        assert(self.tiers_view() =~= cleared);
        let d: usize = if record_count > LARGE_TABLE_RECORDS {
            2
        } else if record_count > MEDIUM_TABLE_RECORDS {
            1
        } else {
            0
        };
        let ghost mid = *self;
        proof {
            lemma_replace_tier(before.tiers_view(), tier as int, Seq::empty());
            lemma_filed_adds_one(cleared, d as int, output@);
            Seq::<(Seq<char>, (u64, u64))>::empty().to_multiset_ensures();
            assert(Seq::<(Seq<char>, (u64, u64))>::empty().to_multiset() =~= Multiset::empty());
            assert(all_tables(before.tiers_view()).sub(before.tiers_view()[tier as int].to_multiset()).add(
                Multiset::empty(),
            ) =~= all_tables(before.tiers_view()).sub(before.tiers_view()[tier as int].to_multiset()));
        }
        let r = self.file_into(d, output);
        proof {
            if before.settled_except(tier as int) {
                assert forall|u: int|
                    0 <= u < self.tiers@.len() && u != d && (r is Some || u != -1) implies #[trigger] self.tiers_view()[u].len()
                    <= MAX_TABLES_PER_TIER by {
                    assert(self.tiers_view()[u] == mid.tiers_view()[u]);
                    if u != tier {
                        assert(mid.tiers_view()[u] == before.tiers_view()[u]);
                    }
                }
            }
        }
        r
    }
}

} // verus!
