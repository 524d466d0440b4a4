//! The page hierarchy: translation and mapping installation.
//!
//! The hierarchy is a set of owned tables, each tagged with the physical
//! frame it occupies and its level, with the root at level 4. The address
//! translator walks it read-only; the mapper installs new bottom-level
//! translations, drawing fresh frames for missing intermediate tables from a
//! frame source.
//!
//! Well-formedness carries the safety invariants of the whole core: table
//! frames are distinct, every present link points one level down to a table
//! that is actually held, and no two links alias one table — so exactly one
//! path leads to every table, and installing a mapping for one page can
//! never disturb another page's translation.

use vstd::prelude::*;

verus! {

use crate::addr::VIRT_SPACE_SIZE;
use crate::addr::aligned;
use crate::addr::page_base;
use crate::addr::page_offset;
use crate::addr::table_index;
use crate::addr::lemma_aligned_page;
use crate::addr::lemma_aligned_plus_offset_fits;
use crate::addr::lemma_field_bounds;
use crate::addr::lemma_indices_determine_page;
use crate::frame_alloc::FrameSource;
use crate::page_table::PageFlags;
use crate::page_table::PageTable;
use crate::page_table::PageTableEntry;

/// One table of the hierarchy, tagged with the physical frame that owns it
/// and its level (4 is the root level, 1 the bottom).
pub struct TableSlot {
    pub base: u64,
    pub level: u64,
    pub table: PageTable,
}

impl TableSlot {
    /// The slot's frame is aligned, its level is a hierarchy level, and its
    /// table is well-formed.
    pub open spec fn wf(self) -> bool {
        &&& aligned(self.base)
        &&& 1 <= self.level <= 4
        &&& self.table.wf()
    }
}

/// The table held at a given frame: the first slot with that base, if any.
pub open spec fn find_slot(s: Seq<TableSlot>, base: u64) -> Option<TableSlot>
    decreases s.len(),
{
    if s.len() == 0 {
        None
    } else if s[0].base == base {
        Some(s[0])
    } else {
        find_slot(s.drop_first(), base)
    }
}

/// No two slots claim the same frame.
pub open spec fn bases_distinct(s: Seq<TableSlot>) -> bool {
    forall|i: int, j: int| 0 <= i < j < s.len() ==> s[i].base != s[j].base
}

/// Some slot holds the given frame at the given level.
pub open spec fn slot_with(s: Seq<TableSlot>, base: u64, level: u64) -> bool {
    exists|k: int| 0 <= k < s.len() && (#[trigger] s[k]).base == base && s[k].level == level
}

/// Every present entry of a table above the bottom level points one level
/// down, to a table the hierarchy holds.
pub open spec fn child_links_ok(s: Seq<TableSlot>) -> bool {
    forall|i: int, j: int|
        0 <= i < s.len() && 0 <= j < 512 && s[i].level >= 2 && (#[trigger] s[i].table.entries@[j]).present
            ==> slot_with(s, s[i].table.entries@[j].frame, (s[i].level - 1) as u64)
}

/// No two distinct links of the hierarchy point at the same child frame:
/// every table is reachable over at most one path.
pub open spec fn no_alias(s: Seq<TableSlot>) -> bool {
    forall|i1: int, j1: int, i2: int, j2: int|
        0 <= i1 < s.len() && 0 <= j1 < 512 && 0 <= i2 < s.len() && 0 <= j2 < 512 && s[i1].level >= 2
            && s[i2].level >= 2 && (#[trigger] s[i1].table.entries@[j1]).present && (
        #[trigger] s[i2].table.entries@[j2]).present && !(i1 == i2 && j1 == j2)
            ==> s[i1].table.entries@[j1].frame != s[i2].table.entries@[j2].frame
}

/// With distinct bases, looking up the frame of a held slot finds that slot.
pub proof fn lemma_find_slot_at(s: Seq<TableSlot>, k: int)
    requires
        bases_distinct(s),
        0 <= k < s.len(),
    ensures
        find_slot(s, s[k].base) == Some(s[k]),
    decreases s.len(),
{
    if k > 0 {
        assert(forall|i: int, j: int|
            0 <= i < j < s.drop_first().len() ==> s.drop_first()[i].base != s.drop_first()[j].base);
        lemma_find_slot_at(s.drop_first(), k - 1);
    }
}

/// Looking up a frame no slot claims finds nothing.
pub proof fn lemma_find_slot_none(s: Seq<TableSlot>, base: u64)
    requires
        forall|k: int| 0 <= k < s.len() ==> (#[trigger] s[k]).base != base,
    ensures
        find_slot(s, base) == None::<TableSlot>,
    decreases s.len(),
{
    if s.len() > 0 {
        lemma_find_slot_none(s.drop_first(), base);
    }
}

/// Whatever lookup finds is a held slot claiming the looked-up frame.
pub proof fn lemma_find_slot_is_member(s: Seq<TableSlot>, base: u64)
    requires
        find_slot(s, base).is_some(),
    ensures
        find_slot(s, base).unwrap().base == base,
        exists|k: int| 0 <= k < s.len() && s[k] == find_slot(s, base).unwrap(),
    decreases s.len(),
{
    if s.len() > 0 && s[0].base != base {
        lemma_find_slot_is_member(s.drop_first(), base);
        let t = find_slot(s, base).unwrap();
        let k = choose|k: int| 0 <= k < s.drop_first().len() && s.drop_first()[k] == t;
        assert(s[k + 1] == t);
    }
}

/// A frame lookup that finds nothing means no slot claims the frame.
pub proof fn lemma_find_slot_none_inverted(s: Seq<TableSlot>, base: u64)
    requires
        find_slot(s, base).is_none(),
    ensures
        forall|k: int| 0 <= k < s.len() ==> (#[trigger] s[k]).base != base,
    decreases s.len(),
{
    if s.len() > 0 {
        lemma_find_slot_none_inverted(s.drop_first(), base);
        assert(forall|k: int| 1 <= k < s.len() ==> s[k] == s.drop_first()[k - 1]);
    }
}

/// The read-only walk: from the table frame `cur` at `level`, consume one
/// index field per level; absent entries end the walk empty, and at level
/// zero the frame reached is the destination.
pub open spec fn walk_down(s: Seq<TableSlot>, cur: u64, level: u64, va: u64) -> Option<u64>
    decreases level,
{
    if level == 0 {
        Some(cur)
    } else {
        match find_slot(s, cur) {
            None => None,
            Some(t) => {
                let e = t.table.entries@[table_index(va, level) as int];
                if !e.present {
                    None
                } else {
                    walk_down(s, e.frame, (level - 1) as u64, va)
                }
            },
        }
    }
}

/// When every slot is well-formed, a walk of at least one level that reaches
/// a destination reaches an aligned frame: the last step reads a present,
/// well-formed entry.
pub proof fn lemma_walk_down_aligned(s: Seq<TableSlot>, cur: u64, level: u64, va: u64)
    requires
        1 <= level,
        forall|i: int| 0 <= i < s.len() ==> (#[trigger] s[i]).wf(),
        walk_down(s, cur, level, va).is_some(),
    ensures
        aligned(walk_down(s, cur, level, va).unwrap()),
    decreases level,
{
    let t = find_slot(s, cur).unwrap();
    lemma_find_slot_is_member(s, cur);
    lemma_field_bounds(va, level);
    let e = t.table.entries@[table_index(va, level) as int];
    if level > 1 {
        lemma_walk_down_aligned(s, e.frame, (level - 1) as u64, va);
    }
}

/// How many tables the walk for `va` still misses between `cur` at `level`
/// and the bottom level: from the first absent link on, one per remaining
/// level above the bottom.
pub open spec fn missing_tables(s: Seq<TableSlot>, cur: u64, level: u64, va: u64) -> nat
    decreases level,
{
    if level <= 1 {
        0
    } else {
        match find_slot(s, cur) {
            None => (level - 1) as nat,
            Some(t) => {
                let e = t.table.entries@[table_index(va, level) as int];
                if e.present {
                    missing_tables(s, e.frame, (level - 1) as u64, va)
                } else {
                    (level - 1) as nat
                }
            },
        }
    }
}

/// A walk that reaches a destination misses no table.
pub proof fn lemma_walk_some_no_missing(s: Seq<TableSlot>, cur: u64, level: u64, va: u64)
    requires
        walk_down(s, cur, level, va).is_some(),
    ensures
        missing_tables(s, cur, level, va) == 0,
    decreases level,
{
    if level > 1 {
        let t = find_slot(s, cur).unwrap();
        let e = t.table.entries@[table_index(va, level) as int];
        lemma_walk_some_no_missing(s, e.frame, (level - 1) as u64, va);
    }
}

/// Whether the walk for `va`, starting at the table frame `cur` at `level`,
/// passes through the table frame `target`.
pub open spec fn reaches(s: Seq<TableSlot>, cur: u64, level: u64, va: u64, target: u64) -> bool
    decreases level,
{
    if level == 0 {
        false
    } else {
        match find_slot(s, cur) {
            None => false,
            Some(t) => {
                let e = t.table.entries@[table_index(va, level) as int];
                cur == target || (e.present && reaches(s, e.frame, (level - 1) as u64, va, target))
            },
        }
    }
}

/// A reached table sits at or below the walk's starting level — strictly
/// below when it is not the start itself. Levels are unique per frame, so
/// this pins a reached table's level down.
pub proof fn lemma_reaches_tag(s: Seq<TableSlot>, cur: u64, level: u64, va: u64, target: u64)
    requires
        bases_distinct(s),
        child_links_ok(s),
        slot_with(s, cur, level),
        reaches(s, cur, level, va, target),
    ensures
        find_slot(s, target).is_some(),
        find_slot(s, target).unwrap().level <= level,
        cur != target ==> find_slot(s, target).unwrap().level < level,
    decreases level,
{
    let ki = choose|k: int| 0 <= k < s.len() && s[k].base == cur && s[k].level == level;
    lemma_find_slot_at(s, ki);
    if cur == target {
    } else {
        let e = s[ki].table.entries@[table_index(va, level) as int];
        lemma_field_bounds(va, level);
        assert(e.present && reaches(s, e.frame, (level - 1) as u64, va, target));
        if level == 1 {
            assert(!reaches(s, e.frame, 0, va, target));
            assert(false);
        }
        assert(s[ki].level >= 2 && s[ki].table.entries@[table_index(va, level) as int].present);
        assert(slot_with(s, e.frame, (level - 1) as u64));
        lemma_reaches_tag(s, e.frame, (level - 1) as u64, va, target);
    }
}

/// Extending a reach: when the walk for `va` passes through a table whose
/// entry for `va` is a present link, the walk also passes through that
/// link's child.
pub proof fn lemma_reaches_step(s: Seq<TableSlot>, cur: u64, level: u64, va: u64, mid: u64)
    requires
        bases_distinct(s),
        child_links_ok(s),
        slot_with(s, cur, level),
        reaches(s, cur, level, va, mid),
        find_slot(s, mid).is_some(),
        find_slot(s, mid).unwrap().level >= 2,
        find_slot(s, mid).unwrap().table.entries@[table_index(
            va,
            find_slot(s, mid).unwrap().level,
        ) as int].present,
    ensures
        reaches(
            s,
            cur,
            level,
            va,
            find_slot(s, mid).unwrap().table.entries@[table_index(
                va,
                find_slot(s, mid).unwrap().level,
            ) as int].frame,
        ),
    decreases level,
{
    let ki = choose|k: int| 0 <= k < s.len() && s[k].base == cur && s[k].level == level;
    lemma_find_slot_at(s, ki);
    let tm = find_slot(s, mid).unwrap();
    let lm = tm.level;
    let em = tm.table.entries@[table_index(va, lm) as int];
    let c = em.frame;
    lemma_find_slot_is_member(s, mid);
    lemma_field_bounds(va, lm);
    if cur == mid {
        // The walk is standing on `mid` itself; its tag equals `level`, and
        // the present link leads straight down to the child, which the walk
        // therefore also passes.
        assert(s[ki] == tm);
        let km = choose|k: int| 0 <= k < s.len() && s[k] == tm;
        assert(slot_with(s, c, (lm - 1) as u64));
        let kc = choose|k: int| 0 <= k < s.len() && s[k].base == c && s[k].level == (lm - 1) as u64;
        if c == mid {
            // A link from `mid` back onto itself would give one frame two
            // levels; distinct bases forbid that.
            assert(s[kc].base == s[ki].base);
            assert(kc == ki);
            assert(false);
        }
        lemma_find_slot_at(s, kc);
        assert(reaches(s, c, (lm - 1) as u64, va, c));
        assert(reaches(s, cur, level, va, c));
    } else {
        let e = s[ki].table.entries@[table_index(va, level) as int];
        lemma_field_bounds(va, level);
        assert(e.present && reaches(s, e.frame, (level - 1) as u64, va, mid));
        assert(slot_with(s, e.frame, (level - 1) as u64));
        lemma_reaches_step(s, e.frame, (level - 1) as u64, va, mid);
        assert(reaches(s, cur, level, va, c));
    }
}

/// Two different tables of one level head disjoint subtrees: no table is
/// reachable out of both. The hierarchy's links alias nothing, so a child
/// has one parent, and by induction one ancestry.
pub proof fn lemma_subtrees_disjoint(
    s: Seq<TableSlot>,
    x: u64,
    y: u64,
    level: u64,
    va: u64,
    vb: u64,
    target: u64,
)
    requires
        bases_distinct(s),
        child_links_ok(s),
        no_alias(s),
        slot_with(s, x, level),
        slot_with(s, y, level),
        x != y,
        1 <= level,
        reaches(s, x, level, va, target),
    ensures
        !reaches(s, y, level, vb, target),
    decreases level,
{
    let kx = choose|k: int| 0 <= k < s.len() && s[k].base == x && s[k].level == level;
    let ky = choose|k: int| 0 <= k < s.len() && s[k].base == y && s[k].level == level;
    lemma_find_slot_at(s, kx);
    lemma_find_slot_at(s, ky);
    lemma_field_bounds(va, level);
    lemma_field_bounds(vb, level);
    if reaches(s, y, level, vb, target) {
        if x == target {
            // `target` heads the first subtree at `level`; reaching it from
            // the second would put it strictly below `level` as well, and no
            // frame carries two levels.
            lemma_reaches_tag(s, y, level, vb, target);
            assert(false);
        } else if y == target {
            lemma_reaches_tag(s, x, level, va, target);
            assert(false);
        } else {
            let ea = s[kx].table.entries@[table_index(va, level) as int];
            let eb = s[ky].table.entries@[table_index(vb, level) as int];
            assert(ea.present && reaches(s, ea.frame, (level - 1) as u64, va, target));
            assert(eb.present && reaches(s, eb.frame, (level - 1) as u64, vb, target));
            if level == 1 {
                assert(false);
            }
            assert(ea.frame != eb.frame);
            assert(slot_with(s, ea.frame, (level - 1) as u64));
            assert(slot_with(s, eb.frame, (level - 1) as u64));
            lemma_subtrees_disjoint(s, ea.frame, eb.frame, (level - 1) as u64, va, vb, target);
            assert(false);
        }
    }
}

/// Exactly one route leads to a bottom-level table: two addresses whose
/// walks pass through the same bottom-level table agree on every index
/// field above the bottom one.
pub proof fn lemma_same_leaf_same_route(s: Seq<TableSlot>, root: u64, va: u64, vb: u64, target: u64)
    requires
        bases_distinct(s),
        child_links_ok(s),
        no_alias(s),
        slot_with(s, root, 4),
        find_slot(s, target).is_some(),
        find_slot(s, target).unwrap().level == 1,
        reaches(s, root, 4, va, target),
        reaches(s, root, 4, vb, target),
    ensures
        table_index(va, 4) == table_index(vb, 4),
        table_index(va, 3) == table_index(vb, 3),
        table_index(va, 2) == table_index(vb, 2),
{
    lemma_find_slot_is_member(s, target);
    let kt = choose|k: int| 0 <= k < s.len() && s[k] == find_slot(s, target).unwrap();
    let k4 = choose|k: int| 0 <= k < s.len() && s[k].base == root && s[k].level == 4;
    lemma_find_slot_at(s, k4);
    lemma_field_bounds(va, 4);
    lemma_field_bounds(vb, 4);
    assert(root != target);
    let ea = s[k4].table.entries@[table_index(va, 4) as int];
    let eb = s[k4].table.entries@[table_index(vb, 4) as int];
    assert(ea.present && reaches(s, ea.frame, 3, va, target));
    assert(eb.present && reaches(s, eb.frame, 3, vb, target));
    assert(slot_with(s, ea.frame, 3));
    assert(slot_with(s, eb.frame, 3));
    if table_index(va, 4) != table_index(vb, 4) {
        assert(ea.frame != eb.frame);
        lemma_subtrees_disjoint(s, ea.frame, eb.frame, 3, va, vb, target);
        assert(false);
    }
    assert(ea.frame == eb.frame);
    let c3 = ea.frame;
    let k3 = choose|k: int| 0 <= k < s.len() && s[k].base == c3 && s[k].level == 3;
    lemma_find_slot_at(s, k3);
    lemma_field_bounds(va, 3);
    lemma_field_bounds(vb, 3);
    assert(c3 != target);
    let fa = s[k3].table.entries@[table_index(va, 3) as int];
    let fb = s[k3].table.entries@[table_index(vb, 3) as int];
    assert(fa.present && reaches(s, fa.frame, 2, va, target));
    assert(fb.present && reaches(s, fb.frame, 2, vb, target));
    assert(slot_with(s, fa.frame, 2));
    assert(slot_with(s, fb.frame, 2));
    if table_index(va, 3) != table_index(vb, 3) {
        assert(fa.frame != fb.frame);
        lemma_subtrees_disjoint(s, fa.frame, fb.frame, 2, va, vb, target);
        assert(false);
    }
    assert(fa.frame == fb.frame);
    let c2 = fa.frame;
    let k2 = choose|k: int| 0 <= k < s.len() && s[k].base == c2 && s[k].level == 2;
    lemma_find_slot_at(s, k2);
    lemma_field_bounds(va, 2);
    lemma_field_bounds(vb, 2);
    assert(c2 != target);
    let ga = s[k2].table.entries@[table_index(va, 2) as int];
    let gb = s[k2].table.entries@[table_index(vb, 2) as int];
    assert(ga.present && reaches(s, ga.frame, 1, va, target));
    assert(gb.present && reaches(s, gb.frame, 1, vb, target));
    assert(slot_with(s, ga.frame, 1));
    assert(slot_with(s, gb.frame, 1));
    if table_index(va, 2) != table_index(vb, 2) {
        assert(ga.frame != gb.frame);
        lemma_subtrees_disjoint(s, ga.frame, gb.frame, 1, va, vb, target);
        assert(false);
    }
}

/// The shape of one intermediate-table installation: slot `i`'s absent
/// entry `j` now links, present and writable, to the fresh frame `c`, and a
/// new empty table at `c`, one level below slot `i`, is appended. Nothing
/// else moves, and no slot claimed `c` before.
pub open spec fn child_installed(s: Seq<TableSlot>, s2: Seq<TableSlot>, i: int, j: int, c: u64) -> bool {
    &&& 0 <= i < s.len()
    &&& 0 <= j < 512
    &&& s[i].level >= 2
    &&& s[i].table.entries@.len() == 512
    &&& !s[i].table.entries@[j].present
    &&& s2.len() == s.len() + 1
    &&& forall|k: int| 0 <= k < s.len() && k != i ==> s2[k] == s[k]
    &&& s2[i].base == s[i].base
    &&& s2[i].level == s[i].level
    &&& s2[i].table.entries@ == s[i].table.entries@.update(
        j,
        PageTableEntry { present: true, writable: true, huge: false, frame: c },
    )
    &&& s2[s.len() as int].base == c
    &&& s2[s.len() as int].level == s[i].level - 1
    &&& s2[s.len() as int].table.entries@.len() == 512
    &&& s2[s.len() as int].table.is_empty()
    &&& forall|k: int| 0 <= k < s.len() ==> (#[trigger] s[k]).base != c
}

/// Installing an empty intermediate table moves no translation and reroutes
/// no walk: every walk ends as before (a walk that ran into the filled
/// entry now runs into the fresh empty table instead, and still ends
/// empty), and every walk passes exactly the tables it passed, apart from
/// the fresh one.
pub proof fn lemma_install_child_preserves(
    s: Seq<TableSlot>,
    s2: Seq<TableSlot>,
    i: int,
    j: int,
    c: u64,
    cur: u64,
    level: u64,
    va: u64,
    b: u64,
)
    requires
        child_installed(s, s2, i, j, c),
        bases_distinct(s),
        bases_distinct(s2),
        child_links_ok(s),
        cur != c,
        find_slot(s, cur).is_none() || slot_with(s, cur, level),
    ensures
        walk_down(s2, cur, level, va) == walk_down(s, cur, level, va),
        b != c ==> (reaches(s2, cur, level, va, b) <==> reaches(s, cur, level, va, b)),
    decreases level,
{
    if level == 0 {
        return ;
    }
    lemma_field_bounds(va, level);
    let idx = table_index(va, level) as int;
    if find_slot(s, cur).is_none() {
        lemma_find_slot_none_inverted(s, cur);
        assert(forall|k: int| 0 <= k < s2.len() ==> (#[trigger] s2[k]).base != cur);
        lemma_find_slot_none(s2, cur);
    } else {
        let ki = choose|k: int| 0 <= k < s.len() && s[k].base == cur && s[k].level == level;
        lemma_find_slot_at(s, ki);
        lemma_find_slot_at(s2, ki);
        assert(find_slot(s2, cur) == Some(s2[ki]));
        let e = s[ki].table.entries@[idx];
        let e2 = s2[ki].table.entries@[idx];
        if ki == i && idx == j {
            // The filled entry itself: the old walk stopped here; the new
            // walk steps into the fresh table, finds it empty, and stops one
            // level further down.
            assert(e2 == PageTableEntry { present: true, writable: true, huge: false, frame: c });
            assert(level == s[i].level && level >= 2);
            lemma_find_slot_at(s2, s.len() as int);
            assert(find_slot(s2, c) == Some(s2[s.len() as int]));
            lemma_field_bounds(va, (level - 1) as u64);
            assert(!s2[s.len() as int].table.entries@[table_index(va, (level - 1) as u64) as int].present);
            assert(walk_down(s2, c, (level - 1) as u64, va).is_none());
            assert(walk_down(s2, cur, level, va).is_none());
            assert(walk_down(s, cur, level, va).is_none());
            if b != c {
                assert(!reaches(s2, c, (level - 1) as u64, va, b));
                assert(reaches(s2, cur, level, va, b) <==> cur == b);
                assert(reaches(s, cur, level, va, b) <==> cur == b);
            }
        } else {
            assert(e2 == e);
            if !e.present {
                assert(walk_down(s2, cur, level, va).is_none());
                assert(walk_down(s, cur, level, va).is_none());
                assert(reaches(s2, cur, level, va, b) <==> cur == b);
                assert(reaches(s, cur, level, va, b) <==> cur == b);
            } else if level == 1 {
                assert(walk_down(s2, e.frame, 0, va) == Some(e.frame));
                assert(walk_down(s, e.frame, 0, va) == Some(e.frame));
                assert(walk_down(s2, cur, level, va) == Some(e.frame));
                assert(walk_down(s, cur, level, va) == Some(e.frame));
                assert(!reaches(s2, e.frame, 0, va, b));
                assert(!reaches(s, e.frame, 0, va, b));
                assert(reaches(s2, cur, level, va, b) <==> cur == b);
                assert(reaches(s, cur, level, va, b) <==> cur == b);
            } else {
                assert(s[ki].level >= 2 && s[ki].table.entries@[idx].present);
                assert(slot_with(s, e.frame, (level - 1) as u64));
                let kc = choose|k: int|
                    0 <= k < s.len() && s[k].base == e.frame && s[k].level == (level - 1) as u64;
                assert(s[kc].base != c);
                lemma_install_child_preserves(s, s2, i, j, c, e.frame, (level - 1) as u64, va, b);
            }
        }
    }
}

/// The shape of one bottom-level installation: bottom-level slot `i`'s
/// absent entry `j` now holds the present entry `e`. Nothing else moves.
pub open spec fn leaf_installed(
    s: Seq<TableSlot>,
    s2: Seq<TableSlot>,
    i: int,
    j: int,
    e: PageTableEntry,
) -> bool {
    &&& 0 <= i < s.len()
    &&& 0 <= j < 512
    &&& s[i].level == 1
    &&& s[i].table.entries@.len() == 512
    &&& !s[i].table.entries@[j].present
    &&& e.present
    &&& s2.len() == s.len()
    &&& forall|k: int| 0 <= k < s.len() && k != i ==> s2[k] == s[k]
    &&& s2[i].base == s[i].base
    &&& s2[i].level == 1
    &&& s2[i].table.entries@ == s[i].table.entries@.update(j, e)
}

/// Installing a bottom-level entry changes exactly the walks that pass the
/// updated table and consume the updated index: those now end at the new
/// entry's frame, and every other walk ends as before.
pub proof fn lemma_install_leaf_walks(
    s: Seq<TableSlot>,
    s2: Seq<TableSlot>,
    i: int,
    j: int,
    e: PageTableEntry,
    cur: u64,
    level: u64,
    va: u64,
)
    requires
        leaf_installed(s, s2, i, j, e),
        bases_distinct(s),
        bases_distinct(s2),
        child_links_ok(s),
        find_slot(s, cur).is_none() || slot_with(s, cur, level),
    ensures
        reaches(s, cur, level, va, s[i].base) && table_index(va, 1) == j ==> walk_down(
            s2,
            cur,
            level,
            va,
        ) == Some(e.frame),
        !(reaches(s, cur, level, va, s[i].base) && table_index(va, 1) == j) ==> walk_down(
            s2,
            cur,
            level,
            va,
        ) == walk_down(s, cur, level, va),
    decreases level,
{
    if level == 0 {
        return ;
    }
    lemma_field_bounds(va, level);
    let idx = table_index(va, level) as int;
    if find_slot(s, cur).is_none() {
        lemma_find_slot_none_inverted(s, cur);
        assert(forall|k: int| 0 <= k < s2.len() ==> (#[trigger] s2[k]).base != cur);
        lemma_find_slot_none(s2, cur);
    } else {
        let ki = choose|k: int| 0 <= k < s.len() && s[k].base == cur && s[k].level == level;
        lemma_find_slot_at(s, ki);
        lemma_find_slot_at(s2, ki);
        assert(s2[ki].base == cur);
        assert(find_slot(s2, cur) == Some(s2[ki]));
        let ea = s[ki].table.entries@[idx];
        let e2 = s2[ki].table.entries@[idx];
        if ki == i {
            assert(level == 1 && cur == s[i].base);
            assert(reaches(s, cur, level, va, s[i].base));
            assert(table_index(va, 1) == table_index(va, level));
            if idx == j {
                assert(e2 == e);
                assert(walk_down(s2, e.frame, 0, va) == Some(e.frame));
                assert(walk_down(s2, cur, level, va) == Some(e.frame));
            } else {
                assert(e2 == ea);
                assert(walk_down(s2, ea.frame, 0, va) == walk_down(s, ea.frame, 0, va));
            }
        } else {
            assert(s2[ki] == s[ki]);
            assert(cur != s[i].base);
            if !ea.present {
                assert(!reaches(s, cur, level, va, s[i].base));
            } else if level == 1 {
                assert(!reaches(s, ea.frame, 0, va, s[i].base));
                assert(!reaches(s, cur, level, va, s[i].base));
                assert(walk_down(s2, ea.frame, 0, va) == Some(ea.frame));
                assert(walk_down(s, ea.frame, 0, va) == Some(ea.frame));
                assert(walk_down(s2, cur, level, va) == Some(ea.frame));
                assert(walk_down(s, cur, level, va) == Some(ea.frame));
            } else {
                assert(s[ki].level >= 2 && s[ki].table.entries@[idx].present);
                assert(slot_with(s, ea.frame, (level - 1) as u64));
                lemma_install_leaf_walks(s, s2, i, j, e, ea.frame, (level - 1) as u64, va);
                assert(reaches(s, cur, level, va, s[i].base) <==> reaches(
                    s,
                    ea.frame,
                    (level - 1) as u64,
                    va,
                    s[i].base,
                ));
            }
        }
    }
}

/// The walk never misses more tables than there are levels left above the
/// bottom.
pub proof fn lemma_missing_bound(s: Seq<TableSlot>, cur: u64, level: u64, va: u64)
    ensures
        level <= 1 ==> missing_tables(s, cur, level, va) == 0,
        level > 1 ==> missing_tables(s, cur, level, va) <= level - 1,
    decreases level,
{
    if level > 1 {
        if find_slot(s, cur).is_some() {
            let t = find_slot(s, cur).unwrap();
            let e = t.table.entries@[table_index(va, level) as int];
            if e.present {
                lemma_missing_bound(s, e.frame, (level - 1) as u64, va);
            }
        }
    }
}

/// With distinct bases, two slot positions claiming one frame are the same
/// position.
pub proof fn lemma_same_base_same_slot(s: Seq<TableSlot>, a: int, b: int)
    requires
        bases_distinct(s),
        0 <= a < s.len(),
        0 <= b < s.len(),
        s[a].base == s[b].base,
    ensures
        a == b,
{
    if a < b {
        assert(s[a].base != s[b].base);
    } else if b < a {
        assert(s[b].base != s[a].base);
    }
}

/// Why establishing a mapping failed.
#[derive(Clone, Copy, PartialEq, Eq, Structural, Debug)]
pub enum MapError {
    /// The bottom-level entry for the page already holds a live mapping;
    /// overwriting it could alias two live mappings onto one frame, so the
    /// caller must pick another page or give up.
    FrameAlreadyInUse,
    /// The frame source ran dry while a missing intermediate table needed a
    /// fresh frame.
    FrameAllocationFailed,
}

/// The single-owner handle on the page hierarchy. Holding it is the
/// authority to read and mutate the tables below `root`; it is deliberately
/// not duplicable, so at most one live instance can mutate a hierarchy.
pub struct Mapper {
    pub phys_offset: u64,
    pub root: u64,
    pub slots: Vec<TableSlot>,
}

impl Mapper {
    /// The hierarchy's safety invariants: distinct table frames, well-formed
    /// slots, a root at the top level, every link pointing one level down to
    /// a held table, and no two links aliasing one child.
    pub open spec fn wf(self) -> bool {
        &&& bases_distinct(self.slots@)
        &&& forall|i: int| 0 <= i < self.slots@.len() ==> (#[trigger] self.slots@[i]).wf()
        &&& slot_with(self.slots@, self.root, 4)
        &&& child_links_ok(self.slots@)
        &&& no_alias(self.slots@)
    }

    /// The destination frame the hierarchy maps a virtual address to.
    pub open spec fn walk_frame(self, va: u64) -> Option<u64> {
        walk_down(self.slots@, self.root, 4, va)
    }

    /// The physical address a virtual address translates to: the destination
    /// frame plus the page-offset field.
    pub open spec fn spec_translate(self, va: u64) -> Option<u64> {
        match self.walk_frame(va) {
            None => None,
            Some(f) => Some((f + page_offset(va)) as u64),
        }
    }

    /// The virtual address at which a physical frame is visible through the
    /// physical-memory window.
    pub fn window_address(&self, frame: u64) -> (r: u64)
        requires
            self.phys_offset + frame <= u64::MAX,
        ensures
            r == self.phys_offset + frame,
    {
        self.phys_offset + frame
    }

    /// Position of the slot holding the given frame, if any.
    fn find_index(&self, base: u64) -> (r: Option<usize>)
        ensures
            match r {
                Some(i) => i < self.slots@.len() && self.slots@[i as int].base == base,
                None => forall|k: int| 0 <= k < self.slots@.len() ==> (#[trigger] self.slots@[k]).base != base,
            },
    {
        let mut i: usize = 0;
        while i < self.slots.len()
            invariant
                i <= self.slots@.len(),
                forall|k: int| 0 <= k < i ==> (#[trigger] self.slots@[k]).base != base,
            decreases self.slots@.len() - i,
        {
            if self.slots[i].base == base {
                return Some(i);
            }
            i += 1;
        }
        None
    }

    /// Zero-initializes a fresh frame as an empty table one level below
    /// slot `i` and installs it, present and writable, at the slot's absent
    /// entry `idx` — the on-demand creation of a missing intermediate
    /// table. The frame must be free: no held table may claim it.
    fn install_child(&mut self, i: usize, idx: usize, child: u64)
        requires
            old(self).wf(),
            i < old(self).slots@.len(),
            idx < 512,
            old(self).slots@[i as int].level >= 2,
            !old(self).slots@[i as int].table.entries@[idx as int].present,
            aligned(child),
            forall|k: int|
                0 <= k < old(self).slots@.len() ==> (#[trigger] old(self).slots@[k]).base != child,
        ensures
            final(self).wf(),
            final(self).root == old(self).root,
            final(self).phys_offset == old(self).phys_offset,
            child_installed(old(self).slots@, final(self).slots@, i as int, idx as int, child),
    {
        let ghost s = self.slots@;
        let lvl = self.slots[i].level;
        let e = PageTableEntry { present: true, writable: true, huge: false, frame: child };
        self.slots[i].table.entries[idx] = e;
        let t = PageTable::empty();
        self.slots.push(TableSlot { base: child, level: lvl - 1, table: t });
        proof {
            let s2 = self.slots@;
            let n = s.len() as int;
            assert(child_installed(s, s2, i as int, idx as int, child));
            assert forall|k: int| 0 <= k < s2.len() implies (#[trigger] s2[k]).wf() by {
                if k < n && k != i {
                    assert(s2[k] == s[k]);
                }
            }
            assert(bases_distinct(s2));
            let kr = choose|k: int| 0 <= k < s.len() && s[k].base == self.root && s[k].level == 4;
            assert(s2[kr].base == self.root && s2[kr].level == 4);
            assert(slot_with(s2, self.root, 4));
            assert forall|k: int, j2: int|
                0 <= k < s2.len() && 0 <= j2 < 512 && s2[k].level >= 2 && (
                #[trigger] s2[k].table.entries@[j2]).present implies slot_with(
                s2,
                s2[k].table.entries@[j2].frame,
                (s2[k].level - 1) as u64,
            ) by {
                if k == n {
                    assert(!s2[k].table.entries@[j2].present);
                } else if k == i && j2 == idx {
                    assert(s2[k].table.entries@[j2].frame == child);
                    assert(s2[n].base == child && s2[n].level == (s2[k].level - 1) as u64);
                } else {
                    assert(s2[k].table.entries@[j2] == s[k].table.entries@[j2]);
                    assert(s[k].level >= 2 && s[k].table.entries@[j2].present);
                    assert(slot_with(s, s[k].table.entries@[j2].frame, (s[k].level - 1) as u64));
                    let m = choose|m: int|
                        0 <= m < s.len() && s[m].base == s[k].table.entries@[j2].frame && s[m].level
                            == (s[k].level - 1) as u64;
                    assert(s2[m].base == s[m].base && s2[m].level == s[m].level);
                }
            }
            assert forall|i1: int, j1: int, i2: int, j2: int|
                0 <= i1 < s2.len() && 0 <= j1 < 512 && 0 <= i2 < s2.len() && 0 <= j2 < 512
                    && s2[i1].level >= 2 && s2[i2].level >= 2 && (
                #[trigger] s2[i1].table.entries@[j1]).present && (
                #[trigger] s2[i2].table.entries@[j2]).present && !(i1 == i2 && j1 == j2) implies
                s2[i1].table.entries@[j1].frame != s2[i2].table.entries@[j2].frame by {
                if i1 == n || i2 == n {
                    // The fresh table has no present entries at all.
                } else {
                    // A link that existed before still points at an old
                    // table frame, which the fresh frame is not; two old
                    // links alias nothing by the old invariant.
                    if i1 == i && j1 == idx {
                        assert(s2[i2].table.entries@[j2] == s[i2].table.entries@[j2]);
                        assert(slot_with(s, s[i2].table.entries@[j2].frame, (s[i2].level - 1) as u64));
                        let m = choose|m: int|
                            0 <= m < s.len() && s[m].base == s[i2].table.entries@[j2].frame
                                && s[m].level == (s[i2].level - 1) as u64;
                        assert(s[m].base != child);
                    } else if i2 == i && j2 == idx {
                        assert(s2[i1].table.entries@[j1] == s[i1].table.entries@[j1]);
                        assert(slot_with(s, s[i1].table.entries@[j1].frame, (s[i1].level - 1) as u64));
                        let m = choose|m: int|
                            0 <= m < s.len() && s[m].base == s[i1].table.entries@[j1].frame
                                && s[m].level == (s[i1].level - 1) as u64;
                        assert(s[m].base != child);
                    } else {
                        assert(s2[i1].table.entries@[j1] == s[i1].table.entries@[j1]);
                        assert(s2[i2].table.entries@[j2] == s[i2].table.entries@[j2]);
                    }
                }
            }
        }
    }

    /// Installs a present entry at the absent slot `idx` of the
    /// bottom-level table in slot `i`: the final step of establishing a
    /// mapping.
    fn install_leaf(&mut self, i: usize, idx: usize, e: PageTableEntry)
        requires
            old(self).wf(),
            i < old(self).slots@.len(),
            idx < 512,
            old(self).slots@[i as int].level == 1,
            !old(self).slots@[i as int].table.entries@[idx as int].present,
            e.present,
            aligned(e.frame),
            !e.huge,
        ensures
            final(self).wf(),
            final(self).root == old(self).root,
            final(self).phys_offset == old(self).phys_offset,
            final(self).slots@.len() == old(self).slots@.len(),
            leaf_installed(old(self).slots@, final(self).slots@, i as int, idx as int, e),
    {
        let ghost s = self.slots@;
        self.slots[i].table.entries[idx] = e;
        proof {
            let s2 = self.slots@;
            assert(leaf_installed(s, s2, i as int, idx as int, e));
            assert forall|k: int| 0 <= k < s2.len() implies (#[trigger] s2[k]).wf() by {
                if k != i {
                    assert(s2[k] == s[k]);
                }
            }
            assert(bases_distinct(s2));
            let kr = choose|k: int| 0 <= k < s.len() && s[k].base == self.root && s[k].level == 4;
            assert(s2[kr].base == self.root && s2[kr].level == 4);
            assert(slot_with(s2, self.root, 4));
            assert forall|k: int, j2: int|
                0 <= k < s2.len() && 0 <= j2 < 512 && s2[k].level >= 2 && (
                #[trigger] s2[k].table.entries@[j2]).present implies slot_with(
                s2,
                s2[k].table.entries@[j2].frame,
                (s2[k].level - 1) as u64,
            ) by {
                assert(k != i);
                assert(s2[k] == s[k]);
                assert(slot_with(s, s[k].table.entries@[j2].frame, (s[k].level - 1) as u64));
                let m = choose|m: int|
                    0 <= m < s.len() && s[m].base == s[k].table.entries@[j2].frame && s[m].level == (
                    s[k].level - 1) as u64;
                assert(s2[m].base == s[m].base && s2[m].level == s[m].level);
            }
            assert forall|i1: int, j1: int, i2: int, j2: int|
                0 <= i1 < s2.len() && 0 <= j1 < 512 && 0 <= i2 < s2.len() && 0 <= j2 < 512
                    && s2[i1].level >= 2 && s2[i2].level >= 2 && (
                #[trigger] s2[i1].table.entries@[j1]).present && (
                #[trigger] s2[i2].table.entries@[j2]).present && !(i1 == i2 && j1 == j2) implies
                s2[i1].table.entries@[j1].frame != s2[i2].table.entries@[j2].frame by {
                assert(i1 != i && i2 != i);
                assert(s2[i1] == s[i1] && s2[i2] == s[i2]);
            }
        }
    }

    /// Resolves a virtual address to the physical address it currently maps
    /// to, without touching any table; an unmapped address is an ordinary
    /// empty outcome, not a fault.
    pub fn translate(&self, va: u64) -> (r: Option<u64>)
        requires
            self.wf(),
        ensures
            r == self.spec_translate(va),
    {
        let ghost s = self.slots@;
        let mut cur: u64 = self.root;
        let mut level: u64 = 4;
        while level > 0
            invariant
                self.wf(),
                s == self.slots@,
                level <= 4,
                walk_down(s, cur, level, va) == walk_down(s, self.root, 4, va),
            decreases level,
        {
            let idx = extract_index(va, level);
            match self.find_index(cur) {
                None => {
                    proof {
                        lemma_find_slot_none(s, cur);
                        assert(walk_down(s, cur, level, va) == None::<u64>);
                    }
                    return None;
                },
                Some(i) => {
                    proof {
                        lemma_find_slot_at(s, i as int);
                        assert(find_slot(s, cur) == Some(s[i as int]));
                    }
                    let e = self.slots[i].table.entries[idx as usize];
                    if !e.present {
                        proof {
                            assert(walk_down(s, cur, level, va) == None::<u64>);
                        }
                        return None;
                    }
                    proof {
                        assert(walk_down(s, cur, level, va) == walk_down(
                            s,
                            e.frame,
                            (level - 1) as u64,
                            va,
                        ));
                    }
                    cur = e.frame;
                },
            }
            level = level - 1;
        }
        proof {
            assert(walk_down(s, cur, 0, va) == Some(cur));
            lemma_walk_down_aligned(s, self.root, 4, va);
            lemma_aligned_plus_offset_fits(cur, va);
        }
        let off = crate::addr::extract_page_offset(va);
        Some(cur + off)
    }
}

impl Mapper {
    /// How many intermediate tables a mapping of `page` would still have to
    /// create: one per level between the first absent link and the bottom.
    pub open spec fn tables_needed(self, page: u64) -> nat {
        missing_tables(self.slots@, self.root, 4, page)
    }

    /// Installs a mapping of `page` onto `frame` with the given flags,
    /// creating any missing intermediate table on the way down from a fresh
    /// frame of `fa`, zero-initialized and linked in present and writable.
    ///
    /// A present bottom-level entry is a conflict: the call reports it and
    /// changes nothing, rather than silently clobbering a live mapping. A
    /// dry frame source ends the call with nothing newly translated, though
    /// intermediate tables already created stay (they map nothing). Every
    /// page other than `page` keeps its translation in every outcome.
    ///
    /// At the data-structure level the mapping is live the moment this call
    /// succeeds; the boot-time shell must still write the tables back
    /// through the physical-memory window and invalidate the processor's
    /// cached translation for `page` before the page is used.
    ///
    /// The frames `fa` has not yet handed out must be genuinely free — in
    /// particular, no table of the hierarchy may sit in one — as the boot
    /// collaborator's inventory guarantees for usable regions.
    pub fn map(
        &mut self,
        page: u64,
        frame: u64,
        flags: PageFlags,
        fa: &mut FrameSource,
    ) -> (r: Result<(), MapError>)
        requires
            old(self).wf(),
            old(fa).wf(),
            aligned(page),
            page < VIRT_SPACE_SIZE,
            aligned(frame),
            forall|k: int, m: int|
                old(fa).cursor() <= k < old(fa).frame_seq().len() && 0 <= m
                    < old(self).slots@.len() ==> #[trigger] old(fa).frame_seq()[k] != (
                #[trigger] old(self).slots@[m]).base,
        ensures
            final(self).wf(),
            final(fa).wf(),
            final(self).root == old(self).root,
            final(self).phys_offset == old(self).phys_offset,
            final(fa).frame_seq() == old(fa).frame_seq(),
            final(fa).cursor() >= old(fa).cursor(),
            r == Ok::<(), MapError>(()) <==> old(self).spec_translate(page).is_none()
                && old(fa).remaining() >= old(self).tables_needed(page),
            r == Err::<(), MapError>(MapError::FrameAlreadyInUse)
                <==> old(self).spec_translate(page).is_some(),
            r == Err::<(), MapError>(MapError::FrameAlreadyInUse)
                ==> final(self).slots@ == old(self).slots@ && *final(fa) == *old(fa),
            r == Err::<(), MapError>(MapError::FrameAllocationFailed)
                ==> final(fa).cursor() >= final(fa).frame_seq().len(),
            r == Ok::<(), MapError>(()) ==> final(self).walk_frame(page) == Some(frame)
                && final(fa).cursor() == old(fa).cursor() + old(self).tables_needed(page),
            r != Ok::<(), MapError>(()) ==> forall|va: u64|
                final(self).spec_translate(va) == old(self).spec_translate(va),
            forall|va: u64|
                va < VIRT_SPACE_SIZE && page_base(va) != page ==> final(self).spec_translate(va)
                    == old(self).spec_translate(va),
            forall|k: int, m: int|
                final(fa).cursor() <= k < final(fa).frame_seq().len() && 0 <= m
                    < final(self).slots@.len() ==> #[trigger] final(fa).frame_seq()[k]
                    != (#[trigger] final(self).slots@[m]).base,
    {
        let ghost s0 = self.slots@;
        let ghost fa0 = *fa;
        let ghost root0 = self.root;
        let ghost phys0 = self.phys_offset;
        let ghost needed0 = missing_tables(s0, self.root, 4, page);
        let mut cur: u64 = self.root;
        let mut level: u64 = 4;
        proof {
            let kr = choose|k: int| 0 <= k < s0.len() && s0[k].base == root0 && s0[k].level == 4;
            lemma_find_slot_at(s0, kr);
            assert(reaches(s0, root0, 4, page, root0));
            lemma_missing_bound(s0, cur, level, page);
        }
        while level > 1
            invariant
                self.wf(),
                fa.wf(),
                1 <= level <= 4,
                s0 == old(self).slots@,
                root0 == old(self).root,
                phys0 == old(self).phys_offset,
                fa0 == *old(fa),
                needed0 == missing_tables(s0, root0, 4, page),
                aligned(page),
                page < VIRT_SPACE_SIZE,
                aligned(frame),
                self.root == root0,
                self.phys_offset == phys0,
                fa.frame_seq() == fa0.frame_seq(),
                slot_with(self.slots@, cur, level),
                walk_down(self.slots@, cur, level, page) == walk_down(
                    self.slots@,
                    self.root,
                    4,
                    page,
                ),
                reaches(self.slots@, self.root, 4, page, cur),
                fa.cursor() >= fa0.cursor(),
                fa.cursor() - fa0.cursor() == needed0 - missing_tables(
                    self.slots@,
                    cur,
                    level,
                    page,
                ),
                level > 1 ==> missing_tables(self.slots@, cur, level, page) <= level - 1,
                level == 1 ==> missing_tables(self.slots@, cur, level, page) == 0,
                fa.cursor() > fa0.cursor() ==> fa.cursor() <= fa.frame_seq().len(),
                fa.cursor() == fa0.cursor() ==> self.slots@ == s0 && *fa == fa0,
                forall|va: u64|
                    #[trigger] walk_down(self.slots@, self.root, 4, va) == walk_down(
                        s0,
                        root0,
                        4,
                        va,
                    ),
                forall|k: int, m: int|
                    fa.cursor() <= k < fa.frame_seq().len() && 0 <= m < self.slots@.len()
                        ==> #[trigger] fa.frame_seq()[k] != (#[trigger] self.slots@[m]).base,
            decreases level,
        {
            let ghost s = self.slots@;
            let idx = extract_index(page, level);
            let oi = self.find_index(cur);
            proof {
                let k = choose|k: int|
                    0 <= k < s.len() && s[k].base == cur && s[k].level == level;
                if oi.is_none() {
                    assert(s[k].base != cur);
                }
            }
            let i = oi.unwrap();
            proof {
                let k = choose|k: int|
                    0 <= k < s.len() && s[k].base == cur && s[k].level == level;
                lemma_same_base_same_slot(s, i as int, k);
                assert(s[i as int].level == level);
                lemma_find_slot_at(s, i as int);
            }
            let e = self.slots[i].table.entries[idx as usize];
            if e.present {
                proof {
                    assert(walk_down(s, cur, level, page) == walk_down(
                        s,
                        e.frame,
                        (level - 1) as u64,
                        page,
                    ));
                    assert(missing_tables(s, cur, level, page) == missing_tables(
                        s,
                        e.frame,
                        (level - 1) as u64,
                        page,
                    ));
                    assert(s[i as int].level >= 2 && s[i as int].table.entries@[idx as int].present);
                    assert(slot_with(s, e.frame, (level - 1) as u64));
                    assert(find_slot(s, cur).unwrap() == s[i as int]);
                    lemma_reaches_step(self.slots@, self.root, 4, page, cur);
                    lemma_missing_bound(s, e.frame, (level - 1) as u64, page);
                }
                cur = e.frame;
            } else {
                proof {
                    assert(missing_tables(s, cur, level, page) == (level - 1) as nat);
                    assert(walk_down(s, cur, level, page).is_none());
                    assert(walk_down(s0, root0, 4, page).is_none());
                }
                match fa.allocate_frame() {
                    None => {
                        proof {
                            // The source was dry with at least one table
                            // still missing, so fewer frames remained at the
                            // start than the mapping needed.
                            assert(fa.cursor() >= fa.frame_seq().len());
                            if fa.cursor() == fa0.cursor() {
                                assert(fa0.remaining() == 0);
                            } else {
                                assert(fa.cursor() == fa.frame_seq().len());
                                assert(fa0.remaining() == fa.cursor() - fa0.cursor());
                            }
                            assert(fa0.remaining() < needed0);
                        }
                        return Err(MapError::FrameAllocationFailed);
                    },
                    Some(f) => {
                        proof {
                            fa.lemma_frames();
                            assert(f == fa0.frame_seq()[fa.cursor() - 1]);
                            assert(aligned(f));
                            assert(forall|m: int|
                                0 <= m < s.len() ==> (#[trigger] s[m]).base != f);
                        }
                        let ghost cursor_prev = fa.cursor() - 1;
                        self.install_child(i, idx as usize, f);
                        proof {
                            let s2 = self.slots@;
                            let n = s.len() as int;
                            assert forall|va: u64|
                                #[trigger] walk_down(s2, root0, 4, va) == walk_down(
                                    s0,
                                    root0,
                                    4,
                                    va,
                                ) by {
                                lemma_install_child_preserves(
                                    s,
                                    s2,
                                    i as int,
                                    idx as int,
                                    f,
                                    root0,
                                    4,
                                    va,
                                    f,
                                );
                            }
                            lemma_install_child_preserves(
                                s,
                                s2,
                                i as int,
                                idx as int,
                                f,
                                root0,
                                4,
                                page,
                                cur,
                            );
                            assert(reaches(s2, root0, 4, page, cur));
                            lemma_find_slot_at(s2, i as int);
                            assert(find_slot(s2, cur) == Some(s2[i as int]));
                            lemma_reaches_step(s2, root0, 4, page, cur);
                            assert(reaches(s2, root0, 4, page, f));
                            lemma_find_slot_at(s2, n);
                            assert(find_slot(s2, f) == Some(s2[n]));
                            assert(slot_with(s2, f, (level - 1) as u64));
                            lemma_field_bounds(page, (level - 1) as u64);
                            assert(!s2[n].table.entries@[table_index(
                                page,
                                (level - 1) as u64,
                            ) as int].present);
                            assert(walk_down(s2, f, (level - 1) as u64, page).is_none());
                            assert(walk_down(s2, root0, 4, page).is_none());
                            if level - 1 > 1 {
                                assert(missing_tables(s2, f, (level - 1) as u64, page) == (level
                                    - 2) as nat);
                            } else {
                                assert(missing_tables(s2, f, (level - 1) as u64, page) == 0);
                            }
                            assert forall|k: int, m: int|
                                fa.cursor() <= k < fa.frame_seq().len() && 0 <= m
                                    < s2.len() implies #[trigger] fa.frame_seq()[k] != (
                            #[trigger] s2[m]).base by {
                                if m < n {
                                    assert(s2[m].base == s[m].base);
                                } else {
                                    assert(s2[m].base == f);
                                    assert(fa.frame_seq()[k] != fa.frame_seq()[cursor_prev]);
                                }
                            }
                        }
                        cur = f;
                    },
                }
            }
            level = level - 1;
        }
        let ghost s_pre = self.slots@;
        let idx = extract_index(page, 1);
        let oi = self.find_index(cur);
        proof {
            let k = choose|k: int|
                0 <= k < s_pre.len() && s_pre[k].base == cur && s_pre[k].level == level;
            if oi.is_none() {
                assert(s_pre[k].base != cur);
            }
        }
        let i = oi.unwrap();
        proof {
            let k = choose|k: int|
                0 <= k < s_pre.len() && s_pre[k].base == cur && s_pre[k].level == level;
            lemma_same_base_same_slot(s_pre, i as int, k);
            assert(s_pre[i as int].level == 1);
            lemma_find_slot_at(s_pre, i as int);
        }
        let e = self.slots[i].table.entries[idx as usize];
        if e.present {
            proof {
                assert(walk_down(s_pre, e.frame, 0, page) == Some(e.frame));
                assert(walk_down(s_pre, cur, 1, page) == Some(e.frame));
                assert(walk_down(s0, root0, 4, page) == Some(e.frame));
                lemma_walk_some_no_missing(s0, root0, 4, page);
                assert(needed0 == 0);
                assert(fa.cursor() == fa0.cursor());
            }
            return Err(MapError::FrameAlreadyInUse);
        }
        let enew = PageTableEntry { present: true, writable: flags.writable, huge: false, frame };
        proof {
            assert(walk_down(s_pre, cur, 1, page).is_none());
            assert(walk_down(s0, root0, 4, page).is_none());
        }
        self.install_leaf(i, idx as usize, enew);
        proof {
            let s2 = self.slots@;
            assert(s_pre[i as int].base == cur);
            lemma_install_leaf_walks(s_pre, s2, i as int, idx as int, enew, root0, 4, page);
            assert(walk_down(s2, root0, 4, page) == Some(frame));
            // No frame was drawn beyond the missing tables, and drawing any
            // meant the inventory covered them all.
            assert(fa.cursor() == fa0.cursor() + needed0);
            if needed0 > 0 {
                assert(fa.cursor() <= fa.frame_seq().len());
                assert(fa0.remaining() >= needed0);
            }
            assert forall|va: u64|
                va < VIRT_SPACE_SIZE && page_base(va) != page implies walk_down(
                s2,
                root0,
                4,
                va,
            ) == walk_down(s0, root0, 4, va) by {
                if reaches(s_pre, root0, 4, va, cur) && table_index(va, 1) == idx {
                    lemma_same_leaf_same_route(s_pre, root0, va, page, cur);
                    assert(table_index(page, 1) == idx);
                    lemma_indices_determine_page(va, page);
                    lemma_aligned_page(page);
                    assert(false);
                } else {
                    lemma_install_leaf_walks(s_pre, s2, i as int, idx as int, enew, root0, 4, va);
                }
            }
        }
        Ok(())
    }
}

/// The walk consumes only the index fields, so two addresses that agree on
/// all of them walk alike.
pub proof fn lemma_walk_same_route(s: Seq<TableSlot>, cur: u64, level: u64, va: u64, vb: u64)
    requires
        level <= 4,
        forall|l: u64| 1 <= l <= 4 ==> table_index(va, l) == table_index(vb, l),
    ensures
        walk_down(s, cur, level, va) == walk_down(s, cur, level, vb),
    decreases level,
{
    if level > 0 && find_slot(s, cur).is_some() {
        let t = find_slot(s, cur).unwrap();
        assert(table_index(va, level) == table_index(vb, level));
        let e = t.table.entries@[table_index(va, level) as int];
        if e.present {
            lemma_walk_same_route(s, e.frame, (level - 1) as u64, va, vb);
        }
    }
}

/// Round-trip law: while a page's walk ends at a frame — as it does after
/// a successful `map` of that page — translating any address of the page
/// yields that frame's base plus the address's page offset.
pub proof fn lemma_round_trip(m: Mapper, va: u64)
    requires
        m.wf(),
        m.walk_frame(page_base(va)).is_some(),
    ensures
        m.spec_translate(va) == Some(
            (m.walk_frame(page_base(va)).unwrap() + page_offset(va)) as u64,
        ),
{
    assert forall|l: u64| 1 <= l <= 4 implies table_index(va, l) == table_index(
        page_base(va),
        l,
    ) by {
        crate::addr::lemma_page_base_same_indices(va, l);
    }
    lemma_walk_same_route(m.slots@, m.root, 4, va, page_base(va));
}

/// Builds the single-owner handle over a loaded hierarchy. The boot-time
/// collaborator locates the active root, reads the tables in through the
/// physical-memory window, and must hand them over well-formed; calling
/// this more than once per hierarchy would create two holders of the
/// mutating authority, which the safety contract forbids.
pub fn init(phys_offset: u64, root: u64, slots: Vec<TableSlot>) -> (r: Mapper)
    requires
        bases_distinct(slots@),
        forall|i: int| 0 <= i < slots@.len() ==> (#[trigger] slots@[i]).wf(),
        slot_with(slots@, root, 4),
        child_links_ok(slots@),
        no_alias(slots@),
    ensures
        r.wf(),
        r.phys_offset == phys_offset,
        r.root == root,
        r.slots@ == slots@,
{
    Mapper { phys_offset, root, slots }
}

/// Round-trip law in full: once `page`'s walk ends at `frame` — as `map`
/// guarantees on success — every address inside the page translates to the
/// frame's base plus that address's page offset.
pub proof fn lemma_mapped_page_round_trip(m: Mapper, page: u64, frame: u64, off: u64)
    requires
        m.wf(),
        aligned(page),
        aligned(frame),
        off < 4096,
        m.walk_frame(page) == Some(frame),
    ensures
        page + off <= u64::MAX,
        frame + off <= u64::MAX,
        m.spec_translate((page + off) as u64) == Some((frame + off) as u64),
{
    crate::addr::lemma_page_members(page, off);
    crate::addr::lemma_page_members(frame, off);
    lemma_round_trip(m, (page + off) as u64);
}

/// No-mapping-is-stable law, ground case: a hierarchy whose root table has
/// no present entry translates no address at all. Together with `map`'s
/// guarantee that every page other than the mapped one keeps its
/// translation, an address never mapped keeps translating to nothing.
pub proof fn lemma_empty_root_translates_nothing(m: Mapper, va: u64)
    requires
        m.wf(),
        find_slot(m.slots@, m.root).is_some(),
        find_slot(m.slots@, m.root).unwrap().table.is_empty(),
    ensures
        m.spec_translate(va) == None::<u64>,
{
    let t = find_slot(m.slots@, m.root).unwrap();
    lemma_field_bounds(va, 4);
    assert(!t.table.entries@[table_index(va, 4) as int].present);
}

/// Extracts one index field, with its bound in hand.
fn extract_index(va: u64, level: u64) -> (r: u64)
    ensures
        r == table_index(va, level),
        r < 512,
{
    proof {
        lemma_field_bounds(va, level);
    }
    crate::addr::extract_table_index(va, level)
}

} // verus!
