//! One task's page table: a map from virtual page number to page-table entry.
use crate::config::PAGE_SIZE;
use crate::memory::PhysMemory;
use crate::permission::MapPermission;
use std::collections::HashMap;
use vstd::prelude::*;

verus! {

broadcast use vstd::std_specs::hash::group_hash_axioms;

/// Largest virtual page number: the page that holds address `usize::MAX`.
pub open spec fn max_vpn() -> int {
    usize::MAX as int / PAGE_SIZE as int
}

/// Page number of a virtual address.
pub open spec fn vpn_of(va: int) -> int {
    va / PAGE_SIZE as int
}

/// A valid page-table entry: the frame that backs the page and its capabilities.
#[derive(Clone, Copy, Debug, PartialEq, Eq, Structural)]
pub struct PageTableEntry {
    pub frame: usize,
    pub perm: MapPermission,
}

/// Page table of one address space. A page number that is absent from the
/// table is unmapped.
pub struct AddressSpace {
    table: HashMap<usize, PageTableEntry>,
}

impl View for AddressSpace {
    type V = Map<usize, PageTableEntry>;

    closed spec fn view(&self) -> Map<usize, PageTableEntry> {
        self.table@
    }
}

impl AddressSpace {
    /// Every mapped page lies in the address range, and no two pages share a frame.
    pub open spec fn wf(&self) -> bool {
        &&& forall|v: usize| #[trigger] self@.contains_key(v) ==> v <= max_vpn()
        &&& forall|v: usize, w: usize|
            #[trigger] self@.contains_key(v) && #[trigger] self@.contains_key(w) && v != w
                ==> self@[v].frame != self@[w].frame
    }

    /// Every mapped page is backed by a frame of `mem` that is in use.
    pub open spec fn backed_by(&self, mem: &PhysMemory) -> bool {
        forall|v: usize| #[trigger] self@.contains_key(v) ==> mem.in_use(self@[v].frame)
    }

    /// An address space with nothing mapped.
    pub fn new() -> (s: AddressSpace)
        ensures
            s.wf(),
            s@ == Map::<usize, PageTableEntry>::empty(),
    {
        AddressSpace { table: HashMap::new() }
    }

    /// The valid entry of page `vpn`, if it is mapped.
    pub fn lookup(&self, vpn: usize) -> (r: Option<PageTableEntry>)
        ensures
            r == (if self@.contains_key(vpn) {
                Some(self@[vpn])
            } else {
                None
            }),
    {
        match self.table.get(&vpn) {
            Some(e) => Some(*e),
            None => None,
        }
    }

    /// Installs `e` as the entry of page `vpn`.
    pub(crate) fn install(&mut self, vpn: usize, e: PageTableEntry)
        ensures
            final(self)@ == old(self)@.insert(vpn, e),
    {
        self.table.insert(vpn, e);
    }

    /// Marks page `vpn` unmapped.
    pub(crate) fn invalidate(&mut self, vpn: usize)
        ensures
            final(self)@ == old(self)@.remove(vpn),
    {
        self.table.remove(&vpn);
    }
}

} // verus!
