//! Page-table entries and tables.
//!
//! An entry is either absent (no physical backing), or present and pointing
//! at exactly one frame. A present entry carries a writable flag and a huge
//! flag; the huge flag marks a page size this core does not support, so a
//! well-formed hierarchy never contains it (the boot-time shell rejects such
//! tables when it loads them).

use vstd::prelude::*;

verus! {

use crate::addr::aligned;

/// Flags a caller picks when installing a mapping. The installed entry is
/// always present and never huge.
#[derive(Clone, Copy, PartialEq, Eq, Structural, Debug)]
pub struct PageFlags {
    pub writable: bool,
}

/// One slot of a page table: a frame reference plus its flag bits.
#[derive(Clone, Copy, PartialEq, Eq, Structural, Debug)]
pub struct PageTableEntry {
    pub present: bool,
    pub writable: bool,
    pub huge: bool,
    pub frame: u64,
}

impl PageTableEntry {
    /// A present entry points at an aligned frame and is never huge.
    pub open spec fn wf(self) -> bool {
        self.present ==> aligned(self.frame) && !self.huge
    }

    /// The absent entry: no physical backing.
    pub fn absent() -> (r: PageTableEntry)
        ensures
            r == (PageTableEntry { present: false, writable: false, huge: false, frame: 0 }),
    {
        PageTableEntry { present: false, writable: false, huge: false, frame: 0 }
    }
}

/// A fixed-arity array of entries, owned by one physical frame.
pub struct PageTable {
    pub entries: Vec<PageTableEntry>,
}

impl PageTable {
    /// A table always holds exactly the fan-out's worth of well-formed
    /// entries.
    pub open spec fn wf(self) -> bool {
        &&& self.entries@.len() == 512
        &&& forall|j: int| 0 <= j < 512 ==> (#[trigger] self.entries@[j]).wf()
    }

    /// Whether no entry of the table is present.
    pub open spec fn is_empty(self) -> bool {
        forall|j: int| 0 <= j < 512 ==> !(#[trigger] self.entries@[j]).present
    }

    /// A zero-initialized table: every entry absent.
    pub fn empty() -> (r: PageTable)
        ensures
            r.wf(),
            r.is_empty(),
    {
        let mut entries: Vec<PageTableEntry> = Vec::new();
        let mut j: usize = 0;
        while j < 512
            invariant
                j == entries@.len(),
                j <= 512,
                forall|k: int|
                    0 <= k < j ==> #[trigger] entries@[k] == (PageTableEntry {
                        present: false,
                        writable: false,
                        huge: false,
                        frame: 0,
                    }),
            decreases 512 - j,
        {
            entries.push(PageTableEntry::absent());
            j += 1;
        }
        PageTable { entries }
    }
}

} // verus!
