//! Adopting page tables that exist: the tables that a level-4 table leads
//! to are walked and checked, and recorded if they form a tree.

use crate::mm::user::{
    entry_addr, entry_of, has_flag, lemma_entry_addr_is_frame, records_kept, AddressSpace,
    ADDRESS_MASK, HUGE_PAGE, PRESENT,
};
use crate::mm::window::WordMemory;
use vstd::prelude::*;

verus! {

/// The space over the level-4 table in frame `level_4` with the record
/// `record` of its tables.
pub open spec fn space_of(phys_offset: u64, level_4: u64, record: Map<u64, int>) -> AddressSpace {
    AddressSpace { phys_offset, level_4, tables: Ghost(record) }
}

/// With the record `record`, of at most `limit` tables, the tables that the
/// level-4 table leads to form a tree in `mem`.
pub open spec fn tree_record(
    mem: Map<u64, u64>,
    phys_offset: u64,
    level_4: u64,
    record: Map<u64, int>,
    limit: int,
) -> bool {
    &&& space_of(phys_offset, level_4, record).tree_shape(mem)
    &&& record.dom().finite()
    &&& record.dom().len() <= limit
}

/// A listed table is a frame inside the window, with a level from 1 to 4.
pub open spec fn table_ok(phys_offset: u64, listed: (u64, u8)) -> bool {
    &&& listed.0 % 4096 == 0
    &&& listed.0 <= ADDRESS_MASK
    &&& phys_offset + listed.0 + 4096 <= u64::MAX
    &&& 1 <= listed.1 <= 4
}

/// The list of the tables found so far starts with the level-4 table,
/// holds frames inside the window, and holds no table twice.
pub open spec fn list_ok(found: Seq<(u64, u8)>, phys_offset: u64, level_4: u64, limit: int) -> bool {
    &&& phys_offset % 4096 == 0
    &&& 1 <= found.len() <= limit
    &&& found[0] == (level_4, 4u8)
    &&& forall|k: int| 0 <= k < found.len() ==> table_ok(phys_offset, #[trigger] found[k])
    &&& forall|k: int, l: int|
        0 <= k < l < found.len() ==> (#[trigger] found[k]).0 != (#[trigger] found[l]).0
}

/// The record that a list of tables stands for.
pub open spec fn record_of(found: Seq<(u64, u8)>) -> Map<u64, int>
    decreases found.len(),
{
    if found.len() == 0 {
        Map::empty()
    } else {
        record_of(found.drop_last()).insert(found.last().0, found.last().1 as int)
    }
}

/// Entry `index` of `table` is as a tree needs it: if the table is above
/// level 1 and the entry is in use, it is present and, unless it maps a
/// huge page, points to a table that is recorded one level down.
pub open spec fn entry_checked(
    mem: Map<u64, u64>,
    phys_offset: u64,
    record: Map<u64, int>,
    table: u64,
    level: int,
    index: u64,
) -> bool {
    let e = mem[(phys_offset + table + 8 * index) as u64];
    level >= 2 && e != 0 ==> {
        &&& has_flag(e, PRESENT)
        &&& !has_flag(e, HUGE_PAGE) ==> record.contains_key(entry_addr(e)) && record[entry_addr(e)]
            == level - 1
    }
}

/// Every entry of each of the first `upto` tables of the list is as a tree
/// needs it.
pub open spec fn entries_checked(
    mem: Map<u64, u64>,
    phys_offset: u64,
    found: Seq<(u64, u8)>,
    upto: int,
) -> bool {
    forall|k: int, j: u64|
        0 <= k < upto && j < 512 ==> #[trigger] entry_checked(
            mem,
            phys_offset,
            record_of(found),
            found[k].0,
            found[k].1 as int,
            j,
        )
}

/// Every table of the list is in the record `r`, with its level.
pub open spec fn within(found: Seq<(u64, u8)>, r: Map<u64, int>) -> bool {
    forall|k: int|
        0 <= k < found.len() ==> r.contains_key((#[trigger] found[k]).0) && r[found[k].0]
            == found[k].1
}

/// Every record with which the tables form a tree holds the tables of the
/// list.
pub open spec fn needed(
    mem: Map<u64, u64>,
    phys_offset: u64,
    level_4: u64,
    limit: int,
    found: Seq<(u64, u8)>,
) -> bool {
    forall|r: Map<u64, int>| #[trigger]
        tree_record(mem, phys_offset, level_4, r, limit) ==> within(found, r)
}

/// The record of a list without repetitions holds each table of the list
/// with its level and nothing else, and has as many tables as the list.
pub proof fn lemma_record_of(found: Seq<(u64, u8)>)
    requires
        forall|k: int, l: int|
            0 <= k < l < found.len() ==> (#[trigger] found[k]).0 != (#[trigger] found[l]).0,
    ensures
        within(found, record_of(found)),
        forall|t: u64| #[trigger]
            record_of(found).contains_key(t) ==> exists|k: int|
                0 <= k < found.len() && (#[trigger] found[k]).0 == t,
        record_of(found).dom().finite(),
        record_of(found).dom().len() == found.len(),
    decreases found.len(),
{
    if found.len() > 0 {
        let rest = found.drop_last();
        let last = found.last();
        lemma_record_of(rest);
        let before = record_of(rest);
        assert forall|k: int| 0 <= k < rest.len() implies rest[k].0 != last.0 by {
            assert(rest[k] == found[k]);
        }
        if before.contains_key(last.0) {
            let k = choose|k: int| 0 <= k < rest.len() && (#[trigger] rest[k]).0 == last.0;
            assert(rest[k] == found[k]);
        }
        assert(record_of(found).dom() =~= before.dom().insert(last.0));
        assert forall|k: int| 0 <= k < found.len() implies record_of(found).contains_key(
            (#[trigger] found[k]).0,
        ) && record_of(found)[found[k].0] == found[k].1 by {
            if k < rest.len() {
                assert(rest[k] == found[k]);
            }
        }
        assert forall|t: u64| #[trigger] record_of(found).contains_key(t) implies exists|k: int|
            0 <= k < found.len() && (#[trigger] found[k]).0 == t by {
            if t == last.0 {
                assert(found[found.len() - 1].0 == t);
            } else {
                let k = choose|k: int| 0 <= k < rest.len() && (#[trigger] rest[k]).0 == t;
                assert(found[k].0 == t);
            }
        }
    }
}

/// The record of a list with one more table is the record of the list with
/// that table added.
proof fn lemma_record_grows(found: Seq<(u64, u8)>, table: (u64, u8))
    ensures
        record_of(found.push(table)) == record_of(found).insert(table.0, table.1 as int),
{
    assert(found.push(table).drop_last() =~= found);
}

/// A multiple of the page size is a multiple of the word size.
proof fn lemma_page_is_words(addr: u64)
    by (bit_vector)
    requires
        addr % 4096 == 0,
    ensures
        addr % 8 == 0,
{
}

/// The level at which `table` is listed, or `None` if it is not.
fn listed_level(found: &Vec<(u64, u8)>, table: u64) -> (level: Option<u8>)
    ensures
        match level {
            Some(l) => exists|k: int| 0 <= k < found@.len() && #[trigger] found@[k] == (table, l),
            None => forall|k: int| 0 <= k < found@.len() ==> (#[trigger] found@[k]).0 != table,
        },
{
    let mut k: usize = 0;
    while k < found.len()
        invariant
            k <= found@.len(),
            forall|j: int| 0 <= j < k ==> (#[trigger] found@[j]).0 != table,
        decreases found@.len() - k,
    {
        let listed = found[k];
        if listed.0 == table {
            return Some(listed.1);
        }
        k += 1;
    }
    None
}

/// Checks the entries of table number `at` of the list, and adds to the
/// list the tables that they point to and that are not listed yet. Returns
/// whether every entry is as a tree needs it and the list stayed within
/// `limit`.
#[verifier::rlimit(100)]
#[verifier::spinoff_prover]
fn check_table<M: WordMemory>(
    mem: &M,
    phys_offset: u64,
    level_4: u64,
    limit: usize,
    found: &mut Vec<(u64, u8)>,
    at: usize,
) -> (good: bool)
    requires
        list_ok(old(found)@, phys_offset, level_4, limit as int),
        at < old(found)@.len(),
        entries_checked(mem@, phys_offset, old(found)@, at as int),
        needed(mem@, phys_offset, level_4, limit as int, old(found)@),
    ensures
        good ==> {
            &&& list_ok(final(found)@, phys_offset, level_4, limit as int)
            &&& final(found)@.len() >= old(found)@.len()
            &&& entries_checked(mem@, phys_offset, final(found)@, at + 1)
            &&& needed(mem@, phys_offset, level_4, limit as int, final(found)@)
        },
        !good ==> forall|r: Map<u64, int>|
            !#[trigger] tree_record(mem@, phys_offset, level_4, r, limit as int),
{
    let (table, level) = found[at];
    let ghost start = found@;
    if level < 2 {
        return true;
    }
    proof {
        lemma_page_is_words(phys_offset);
        lemma_page_is_words(table);
    }
    let mut index: u64 = 0;
    while index < 512
        invariant
            index <= 512,
            level >= 2,
            phys_offset % 8 == 0,
            table % 8 == 0,
            at < found@.len(),
            found@[at as int] == (table, level),
            found@.len() >= start.len(),
            list_ok(found@, phys_offset, level_4, limit as int),
            entries_checked(mem@, phys_offset, found@, at as int),
            forall|j: u64|
                j < index ==> #[trigger] entry_checked(
                    mem@,
                    phys_offset,
                    record_of(found@),
                    table,
                    level as int,
                    j,
                ),
            needed(mem@, phys_offset, level_4, limit as int, found@),
        decreases 512 - index,
    {
        let ghost list = found@;
        let ghost record = record_of(list);
        let e = mem.read(phys_offset + table + 8 * index);
        proof {
            lemma_record_of(list);
            assert forall|r: Map<u64, int>| #[trigger]
                tree_record(mem@, phys_offset, level_4, r, limit as int) implies r.contains_key(
                table,
            ) && r[table] == level && entry_of(mem@, space_of(phys_offset, level_4, r), table, index)
                == e by {
                assert(within(list, r));
                assert(list[at as int].0 == table);
            }
        }
        if e != 0 {
            if e & PRESENT == 0 {
                return false;
            }
            if e & HUGE_PAGE == 0 {
                let child = e & ADDRESS_MASK;
                proof {
                    lemma_entry_addr_is_frame(e);
                }
                if phys_offset > u64::MAX - 4096 || child > u64::MAX - 4096 - phys_offset {
                    return false;
                }
                match listed_level(found, child) {
                    Some(l) => {
                        if l != level - 1 {
                            proof {
                                let k = choose|k: int|
                                    0 <= k < list.len() && #[trigger] list[k] == (child, l);
                                assert forall|r: Map<u64, int>|
                                    !#[trigger] tree_record(
                                        mem@,
                                        phys_offset,
                                        level_4,
                                        r,
                                        limit as int,
                                    ) by {
                                    if tree_record(mem@, phys_offset, level_4, r, limit as int) {
                                        assert(within(list, r));
                                        assert(list[k].0 == child);
                                    }
                                }
                            }
                            return false;
                        }
                        proof {
                            let k = choose|k: int|
                                0 <= k < list.len() && #[trigger] list[k] == (child, l);
                            assert(list[k].0 == child);
                        }
                    },
                    None => {
                        if found.len() >= limit {
                            proof {
                                assert(!record.contains_key(child));
                                assert forall|r: Map<u64, int>|
                                    !#[trigger] tree_record(
                                        mem@,
                                        phys_offset,
                                        level_4,
                                        r,
                                        limit as int,
                                    ) by {
                                    if tree_record(mem@, phys_offset, level_4, r, limit as int) {
                                        assert(within(list, r));
                                        let more = record.dom().insert(child);
                                        assert(more.subset_of(r.dom())) by {
                                            assert forall|t: u64| more.contains(t) implies r.dom().contains(
                                                t,
                                            ) by {
                                                if t != child {
                                                    let k = choose|k: int|
                                                        0 <= k < list.len() && (#[trigger] list[k]).0
                                                            == t;
                                                    assert(r.contains_key(list[k].0));
                                                }
                                            }
                                        }
                                        vstd::set_lib::lemma_len_subset(more, r.dom());
                                    }
                                }
                            }
                            return false;
                        }
                        found.push((child, level - 1));
                        proof {
                            let grown = found@;
                            lemma_record_grows(list, (child, (level - 1) as u8));
                            assert(grown == list.push((child, (level - 1) as u8)));
                            assert forall|k: int| 0 <= k < grown.len() implies table_ok(
                                phys_offset,
                                #[trigger] grown[k],
                            ) by {
                                if k < list.len() {
                                    assert(grown[k] == list[k]);
                                }
                            }
                            assert forall|k: int, l: int| 0 <= k < l < grown.len() implies (
                            #[trigger] grown[k]).0 != (#[trigger] grown[l]).0 by {
                                assert(grown[k] == list[k]);
                                if l < list.len() {
                                    assert(grown[l] == list[l]);
                                }
                            }
                            assert forall|k: int, j: u64|
                                0 <= k < at && j < 512 implies #[trigger] entry_checked(
                                mem@,
                                phys_offset,
                                record_of(grown),
                                grown[k].0,
                                grown[k].1 as int,
                                j,
                            ) by {
                                assert(grown[k] == list[k]);
                                assert(entry_checked(
                                    mem@,
                                    phys_offset,
                                    record,
                                    list[k].0,
                                    list[k].1 as int,
                                    j,
                                ));
                            }
                            assert forall|j: u64| j < index implies #[trigger] entry_checked(
                                mem@,
                                phys_offset,
                                record_of(grown),
                                table,
                                level as int,
                                j,
                            ) by {
                                assert(entry_checked(mem@, phys_offset, record, table, level as int, j));
                            }
                            assert forall|r: Map<u64, int>| #[trigger]
                                tree_record(mem@, phys_offset, level_4, r, limit as int) implies within(
                                grown,
                                r,
                            ) by {
                                assert(within(list, r));
                                assert forall|k: int| 0 <= k < grown.len() implies r.contains_key(
                                    (#[trigger] grown[k]).0,
                                ) && r[grown[k].0] == grown[k].1 by {
                                    if k < list.len() {
                                        assert(grown[k] == list[k]);
                                    }
                                }
                            }
                        }
                    },
                }
            }
        }
        index += 1;
    }
    true
}

impl AddressSpace {
    /// Adopts the tables that exist below the level-4 table in frame
    /// `level_4`: walks them, checks that they form a tree, and records
    /// them.
    ///
    /// The tables form a tree if the window and the tables are page
    /// aligned and the tables lie inside the window, every entry in use of
    /// a table above level 1 is present and, unless it maps a huge page,
    /// points to a table, and no table is reached at two levels. `None` is
    /// returned exactly if they form no tree of at most `limit` tables.
    /// The record returned is the least: every record with which the
    /// tables form a tree holds its tables.
    pub fn adopt<M: WordMemory>(mem: &M, phys_offset: u64, level_4: u64, limit: usize) -> (adopted:
        Option<AddressSpace>)
        ensures
            match adopted {
                Some(space) => {
                    &&& space.phys_offset == phys_offset
                    &&& space.level_4 == level_4
                    &&& space.tree_shape(mem@)
                    &&& tree_record(mem@, phys_offset, level_4, space.tables@, limit as int)
                    &&& forall|r: Map<u64, int>| #[trigger]
                        tree_record(mem@, phys_offset, level_4, r, limit as int) ==> records_kept(
                            space.tables@,
                            r,
                        )
                },
                None => forall|r: Map<u64, int>|
                    !#[trigger] tree_record(mem@, phys_offset, level_4, r, limit as int),
            },
    {
        if phys_offset % 4096 != 0 || level_4 % 4096 != 0 || level_4 > ADDRESS_MASK || phys_offset
            > u64::MAX - 4096 || level_4 > u64::MAX - 4096 - phys_offset || limit == 0 {
            proof {
                assert forall|r: Map<u64, int>|
                    !#[trigger] tree_record(mem@, phys_offset, level_4, r, limit as int) by {
                    if tree_record(mem@, phys_offset, level_4, r, limit as int) {
                        assert(r.contains_key(level_4));
                        let one = Set::<u64>::empty().insert(level_4);
                        assert(one.subset_of(r.dom()));
                        vstd::set_lib::lemma_len_subset(one, r.dom());
                    }
                }
            }
            return None;
        }
        let mut found: Vec<(u64, u8)> = Vec::new();
        found.push((level_4, 4));
        let mut at: usize = 0;
        while at < found.len()
            invariant
                at <= found@.len(),
                list_ok(found@, phys_offset, level_4, limit as int),
                entries_checked(mem@, phys_offset, found@, at as int),
                needed(mem@, phys_offset, level_4, limit as int, found@),
            decreases limit - found@.len(), found@.len() - at,
        {
            if !check_table(mem, phys_offset, level_4, limit, &mut found, at) {
                return None;
            }
            at += 1;
        }
        let space = AddressSpace { phys_offset, level_4, tables: Ghost(record_of(found@)) };
        proof {
            let list = found@;
            let record = record_of(list);
            lemma_record_of(list);
            assert(record.contains_key(list[0].0));
            assert forall|t: u64| #[trigger] record.contains_key(t) implies {
                &&& t % 4096 == 0
                &&& t <= ADDRESS_MASK
                &&& space.slot_fits(t)
                &&& 1 <= record[t] <= 4
            } by {
                let k = choose|k: int| 0 <= k < list.len() && (#[trigger] list[k]).0 == t;
                assert(table_ok(phys_offset, list[k]));
                assert(record[list[k].0] == list[k].1);
            }
            assert forall|t: u64, i: u64|
                record.contains_key(t) && record[t] >= 2 && i < 512 && #[trigger] entry_of(
                    mem@,
                    space,
                    t,
                    i,
                ) != 0 implies ({
                let e = entry_of(mem@, space, t, i);
                &&& has_flag(e, PRESENT)
                &&& !has_flag(e, HUGE_PAGE) ==> record.contains_key(entry_addr(e))
                    && record[entry_addr(e)] == record[t] - 1
            }) by {
                let k = choose|k: int| 0 <= k < list.len() && (#[trigger] list[k]).0 == t;
                assert(record[list[k].0] == list[k].1);
                assert(entry_checked(mem@, phys_offset, record, list[k].0, list[k].1 as int, i));
            }
            assert(space == space_of(phys_offset, level_4, record));
            assert forall|r: Map<u64, int>| #[trigger]
                tree_record(mem@, phys_offset, level_4, r, limit as int) implies records_kept(
                record,
                r,
            ) by {
                assert(within(list, r));
                assert forall|t: u64| #[trigger] record.contains_key(t) implies r.contains_key(t)
                    && r[t] == record[t] by {
                    let k = choose|k: int| 0 <= k < list.len() && (#[trigger] list[k]).0 == t;
                    assert(r.contains_key(list[k].0));
                    assert(record[list[k].0] == list[k].1);
                }
            }
        }
        Some(space)
    }
}

} // verus!
