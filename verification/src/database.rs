//! The database: the live memtable in front of the store's segment list.
//! Writes go to the memtable; when it reaches capacity its sorted contents
//! are flushed into a new segment.  Reads consult the memtable first and
//! then the segments from newest to oldest.  Deletion removes the key from
//! the live memtable only: no tombstone is written, so a value flushed
//! earlier may become visible again (a documented gap).

use vstd::prelude::*;
use crate::codec::valid_part;
use crate::compaction::merged;
use crate::config::Config;
use crate::memtable::{Memtable, MemtableArgs};
use crate::records::lookup;
use crate::segment::SegmentError;
use crate::store::{
    Store, StoreArgs, SegmentFile, CompactionOutcome, segs_lookup, seg_views,
};
use crate::lines::{split_lines, lines_sorted, encode_all};
use crate::records::entries_sorted;

verus! {

/// The storage engine.
pub struct Database {
    memtable: Memtable,
    store: Store,
}

impl Database {
    /// The records of the live memtable.
    pub closed spec fn mem_entries(self) -> Seq<(Seq<char>, Seq<char>)> {
        self.memtable.entry_seq()
    }

    /// The store's segments, oldest first.
    pub closed spec fn store_segs(self) -> Seq<crate::segment::Segment> {
        self.store.seg_seq()
    }

    /// The memtable record count that triggers a flush.
    pub closed spec fn capacity_spec(self) -> usize {
        self.memtable.capacity_spec()
    }

    /// Whether a background compaction loop should run, as configured.
    pub closed spec fn compaction_enabled_spec(self) -> bool {
        self.store.compaction_enabled_spec()
    }

    /// The configured compaction period in seconds.
    pub closed spec fn compaction_interval_spec(self) -> u64 {
        self.store.compaction_interval_spec()
    }

    pub closed spec fn wf(self) -> bool {
        &&& self.memtable.wf()
        &&& self.store.wf()
    }

    /// What a read returns: the memtable's binding if the key is live
    /// there, else the newest segment's.
    pub open spec fn db_lookup(self, k: Seq<char>) -> Option<Seq<char>> {
        match lookup(self.mem_entries(), k) {
            Some(v) => Some(v),
            None => segs_lookup(self.store_segs(), k),
        }
    }

    /// Open a database over the segment files found at startup.
    pub fn new(config: Config, loaded: Vec<SegmentFile>) -> (r: Result<Database, SegmentError>)
        requires
            config.valid(),
        ensures
            r is Ok <==> (forall|i: int|
                0 <= i < loaded@.len() ==> lines_sorted(
                    split_lines((#[trigger] loaded@[i]).text@),
                )),
            r matches Ok(db) ==> {
                &&& db.wf()
                &&& db.mem_entries() == Seq::<(Seq<char>, Seq<char>)>::empty()
                &&& db.store_segs().len() == loaded@.len()
                &&& forall|i: int, j: int|
                    0 <= i < j < db.store_segs().len() ==> db.store_segs()[i].generation_spec()
                        <= db.store_segs()[j].generation_spec()
                &&& seg_views(db.store_segs()).to_multiset() == loaded@.map_values(
                    |f: SegmentFile| (f.generation, split_lines(f.text@)),
                ).to_multiset()
                &&& db.capacity_spec() == config.memtable_capacity
                &&& db.compaction_enabled_spec() == true
                &&& db.compaction_interval_spec() == config.compactor_interval_seconds
            },
    {
        let args = StoreArgs {
            compaction_enabled: true,
            compaction_interval_seconds: config.compactor_interval_seconds,
        };
        let store = match Store::new(args, config, loaded) {
            Ok(s) => s,
            Err(e) => {
                return Err(e);
            },
        };
        let memtable = Memtable::new(MemtableArgs { capacity: config.memtable_capacity });
        Ok(Database { memtable, store })
    }

    /// Bind a value to a key.  When the write fills the memtable to
    /// capacity, the memtable is flushed into a new segment and reset; the
    /// returned file is what the caller persists.
    pub fn set(&mut self, key: &str, value: &str) -> (r: Option<SegmentFile>)
        requires
            old(self).wf(),
            valid_part(key@),
            valid_part(value@),
        ensures
            final(self).wf(),
            final(self).capacity_spec() == old(self).capacity_spec(),
            final(self).compaction_enabled_spec() == old(self).compaction_enabled_spec(),
            final(self).compaction_interval_spec() == old(self).compaction_interval_spec(),
            forall|k: Seq<char>|
                #[trigger] final(self).db_lookup(k) == if k == key@ {
                    Some(value@)
                } else {
                    old(self).db_lookup(k)
                },
            r is Some <==> old(self).mem_entries().len() + (
            if lookup(old(self).mem_entries(), key@) is Some {
                0int
            } else {
                1int
            }) >= old(self).capacity_spec(),
            r is Some <==> final(self).mem_entries().len() == 0,
            r is None ==> final(self).store_segs() == old(self).store_segs(),
            r matches Some(f) ==> {
                let segs = final(self).store_segs();
                &&& segs.len() == old(self).store_segs().len() + 1
                &&& forall|i: int|
                    0 <= i < old(self).store_segs().len() ==> #[trigger] segs[i] == old(
                        self,
                    ).store_segs()[i]
                &&& segs.last().line_seq() == split_lines(f.text@)
                &&& f.text@ == encode_all(segs.last().records())
                &&& entries_sorted(segs.last().records())
                &&& forall|k: Seq<char>|
                    #[trigger] lookup(segs.last().records(), k) == if k == key@ {
                        Some(value@)
                    } else {
                        lookup(old(self).mem_entries(), k)
                    }
                &&& f.generation == segs.last().generation_spec()
                &&& (forall|i: int|
                    0 <= i < old(self).store_segs().len() ==> (
                    #[trigger] old(self).store_segs()[i]).generation_spec() < f.generation)
                    || f.generation == u64::MAX
            },
    {
        let ghost old_mem = self.memtable.entry_seq();
        let ghost old_segs = self.store.seg_seq();
        self.memtable.set(key, value);
        let ghost flushed = self.memtable.entry_seq();
        if self.memtable.full() {
            let f = self.store.write_memtable(&self.memtable);
            self.memtable.reset();
            proof {
                assert forall|k: Seq<char>| #[trigger] self.db_lookup(k) == (if k == key@ {
                    Some(value@)
                } else {
                    old(self).db_lookup(k)
                }) by {
                    assert(lookup(self.mem_entries(), k) is None);
                    assert(segs_lookup(self.store_segs(), k) == (match lookup(flushed, k) {
                        Some(v) => Some(v),
                        None => segs_lookup(old_segs, k),
                    }));
                }
            }
            Some(f)
        } else {
            proof {
                assert(lookup(self.mem_entries(), key@) == Some(value@));
                if self.mem_entries().len() == 0 {
                    assert(lookup(self.mem_entries(), key@) is None);
                }
            }
            None
        }
    }

    /// The value bound to a key, if any: the memtable's binding wins over
    /// every segment, and newer segments win over older ones.
    pub fn get(&self, key: &str) -> (r: Option<String>)
        requires
            self.wf(),
        ensures
            r matches Some(v) ==> self.db_lookup(key@) == Some(v@),
            r is None ==> self.db_lookup(key@) is None,
    {
        match self.memtable.get(key) {
            Some(v) => Some(v),
            None => self.store.get(key),
        }
    }

    /// Remove a key from the live memtable.  Nothing is removed from the
    /// segments: a value flushed before the delete remains visible.
    pub fn delete(&mut self, key: &str)
        requires
            old(self).wf(),
        ensures
            final(self).wf(),
            final(self).store_segs() == old(self).store_segs(),
            final(self).capacity_spec() == old(self).capacity_spec(),
            final(self).compaction_enabled_spec() == old(self).compaction_enabled_spec(),
            final(self).compaction_interval_spec() == old(self).compaction_interval_spec(),
            forall|k: Seq<char>|
                #[trigger] final(self).db_lookup(k) == if k == key@ {
                    segs_lookup(old(self).store_segs(), k)
                } else {
                    old(self).db_lookup(k)
                },
    {
        self.memtable.delete(key);
    }

    /// One compaction cycle on the store; what any key resolves to is
    /// unchanged.  Returns what the caller must do on disk, or nothing
    /// when fewer than two segments exist.
    pub fn compact(&mut self) -> (r: Option<CompactionOutcome>)
        requires
            old(self).wf(),
        ensures
            final(self).wf(),
            final(self).mem_entries() == old(self).mem_entries(),
            final(self).capacity_spec() == old(self).capacity_spec(),
            final(self).compaction_enabled_spec() == old(self).compaction_enabled_spec(),
            final(self).compaction_interval_spec() == old(self).compaction_interval_spec(),
            old(self).store_segs().len() < 2 ==> r is None && final(self).store_segs() == old(
                self,
            ).store_segs(),
            old(self).store_segs().len() >= 2 ==> {
                let a = old(self).store_segs()[0];
                let b = old(self).store_segs()[1];
                &&& final(self).store_segs().len() == old(self).store_segs().len() - 1
                &&& final(self).store_segs()[0].records() == merged(a.records(), b.records())
                &&& r matches Some(out) && out.older_generation == a.generation_spec()
                    && out.newer_generation == b.generation_spec() && out.text@ == encode_all(
                    merged(a.records(), b.records()),
                )
            },
            forall|k: Seq<char>|
                #[trigger] final(self).db_lookup(k) == old(self).db_lookup(k),
    {
        self.store.compact()
    }

    /// Whether a background compaction loop should run for this database.
    pub fn compaction_enabled(&self) -> (r: bool)
        ensures
            r == self.compaction_enabled_spec(),
    {
        self.store.compaction_enabled()
    }

    /// How often the background compaction loop should run, in seconds.
    pub fn compaction_interval_seconds(&self) -> (r: u64)
        ensures
            r == self.compaction_interval_spec(),
    {
        self.store.compaction_interval_seconds()
    }
}

/// Read-your-writes: after a write binds a value to a key, a read of that
/// key returns that value, whether or not the write flushed the memtable.
/// The hypothesis is exactly what `Database::set` ensures.
pub proof fn lemma_read_your_writes(
    before: Database,
    after: Database,
    key: Seq<char>,
    value: Seq<char>,
)
    requires
        forall|k: Seq<char>|
            #[trigger] after.db_lookup(k) == if k == key {
                Some(value)
            } else {
                before.db_lookup(k)
            },
    ensures
        after.db_lookup(key) == Some(value),
{
}

/// Post-delete visibility: after a delete, the key resolves only through
/// the flushed segments, so it reads as absent when no segment holds it,
/// and as the stale flushed value otherwise.  The hypothesis is exactly
/// what `Database::delete` ensures.
pub proof fn lemma_post_delete_visibility(before: Database, after: Database, key: Seq<char>)
    requires
        forall|k: Seq<char>|
            #[trigger] after.db_lookup(k) == if k == key {
                segs_lookup(before.store_segs(), k)
            } else {
                before.db_lookup(k)
            },
    ensures
        after.db_lookup(key) == segs_lookup(before.store_segs(), key),
        segs_lookup(before.store_segs(), key) is None ==> after.db_lookup(key) is None,
{
}

} // verus!
