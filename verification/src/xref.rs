use vstd::prelude::*;

verus! {

/// Whether a document keeps its cross-reference section as a table or as
/// a stream object.
#[derive(Debug, Clone, Copy, PartialEq, Eq, Structural)]
pub enum XrefType {
    CrossReferenceStream,
    CrossReferenceTable,
}

/// One entry of a cross-reference section.
#[derive(Debug, Clone, Copy, PartialEq, Eq, Structural)]
pub enum XrefEntry {
    Free,
    UnusableFree,
    Normal { offset: u32, generation: u16 },
    Compressed { container: u32, index: u16 },
}

/// A cross-reference section: entries keyed by object number, in
/// increasing order, each number at most once.
#[derive(Debug)]
pub struct Xref {
    pub cross_reference_type: XrefType,
    pub entries: Vec<(u32, XrefEntry)>,
    pub size: u32,
}

/// Object numbers strictly increase along the entries.
pub open spec fn ids_increasing(s: Seq<(u32, XrefEntry)>) -> bool {
    forall|i: int, j: int| 0 <= i < j < s.len() ==> s[i].0 < s[j].0
}

/// The entry kept for an object number, if any.
pub open spec fn lookup(s: Seq<(u32, XrefEntry)>, id: int) -> Option<XrefEntry> {
    if exists|i: int| 0 <= i < s.len() && s[i].0 == id {
        Some(s[choose|i: int| 0 <= i < s.len() && s[i].0 == id].1)
    } else {
        None
    }
}

impl Xref {
    pub open spec fn wf(&self) -> bool {
        ids_increasing(self.entries@)
    }

    /// The entry of an object number, if any.
    pub open spec fn spec_get(&self, id: int) -> Option<XrefEntry> {
        lookup(self.entries@, id)
    }

    /// An empty section of the given size and kind.
    pub fn new(size: u32, xref_type: XrefType) -> (r: Xref)
        ensures
            r.wf(),
            r.size == size,
            r.cross_reference_type == xref_type,
            r.entries@.len() == 0,
    {
        Xref { cross_reference_type: xref_type, entries: Vec::new(), size }
    }

    /// The entry of an object number, if any.
    pub fn get(&self, id: u32) -> (r: Option<XrefEntry>)
        requires
            self.wf(),
        ensures
            r == self.spec_get(id as int),
    {
        let n = self.entries.len();
        let mut i: usize = 0;
        while i < n
            invariant
                self.wf(),
                n == self.entries@.len(),
                i <= n,
                forall|j: int| 0 <= j < i ==> self.entries@[j].0 != id,
            decreases n - i,
        {
            if self.entries[i].0 == id {
                let ghost s = self.entries@;
                assert(forall|j: int| 0 <= j < s.len() && s[j].0 == id ==> j == i);
                return Some(self.entries[i].1);
            }
            i = i + 1;
        }
        None
    }

    /// Sets the entry of an object number, replacing the one it had.
    pub fn insert(&mut self, id: u32, entry: XrefEntry)
        requires
            old(self).wf(),
        ensures
            final(self).wf(),
            final(self).size == old(self).size,
            final(self).cross_reference_type == old(self).cross_reference_type,
            forall|k: int|
                #[trigger] final(self).spec_get(k) == if k == id {
                    Some(entry)
                } else {
                    old(self).spec_get(k)
                },
    {
        let ghost s0 = self.entries@;
        let n = self.entries.len();
        let mut p: usize = 0;
        while p < n && self.entries[p].0 < id
            invariant
                ids_increasing(s0),
                n == self.entries@.len(),
                self.entries@ == s0,
                p <= n,
                forall|j: int| 0 <= j < p ==> s0[j].0 < id,
            decreases n - p,
        {
            p = p + 1;
        }
        if p < n && self.entries[p].0 == id {
            self.entries.set(p, (id, entry));
            let ghost s1 = self.entries@;
            assert forall|k: int| #[trigger] lookup(s1, k) == if k == id {
                Some(entry)
            } else {
                lookup(s0, k)
            } by {
                if exists|i: int| 0 <= i < s0.len() && s0[i].0 == k {
                    let i = choose|i: int| 0 <= i < s0.len() && s0[i].0 == k;
                    assert(s1[i].0 == k);
                } else {
                    assert(forall|i: int| 0 <= i < s1.len() ==> s1[i].0 == s0[i].0);
                }
            }
        } else {
            self.entries.insert(p, (id, entry));
            let ghost s1 = self.entries@;
            assert(s1[p as int] == (id, entry));
            assert forall|k: int| #[trigger] lookup(s1, k) == if k == id {
                Some(entry)
            } else {
                lookup(s0, k)
            } by {
                if k == id {
                    assert(s1[p as int].0 == k);
                } else if exists|i: int| 0 <= i < s0.len() && s0[i].0 == k {
                    let i = choose|i: int| 0 <= i < s0.len() && s0[i].0 == k;
                    if i < p {
                        assert(s1[i].0 == k);
                    } else {
                        assert(s1[i + 1].0 == k);
                    }
                } else {
                    assert forall|i: int| 0 <= i < s1.len() implies s1[i].0 != k by {
                        if i < p {
                            assert(s1[i] == s0[i]);
                        } else if i > p {
                            assert(s1[i] == s0[i - 1]);
                        }
                    }
                }
            }
        }
    }

    /// The largest object number with an entry, if any.
    pub fn max_key(&self) -> (r: Option<u32>)
        requires
            self.wf(),
        ensures
            r is None <==> self.entries@.len() == 0,
            r matches Some(m) ==> self.spec_get(m as int) is Some,
            r matches Some(m) ==> forall|k: int| k > m ==> self.spec_get(k) is None,
    {
        let n = self.entries.len();
        if n == 0 {
            None
        } else {
            let m = self.entries[n - 1].0;
            let ghost s = self.entries@;
            assert(s[n - 1].0 == m);
            assert forall|k: int| k > m implies self.spec_get(k) is None by {
                if exists|i: int| 0 <= i < s.len() && s[i].0 == k {
                    let i = choose|i: int| 0 <= i < s.len() && s[i].0 == k;
                    if i < n - 1 {
                        assert(s[i].0 < s[n - 1].0);
                    }
                }
            }
            Some(m)
        }
    }
}

} // verus!
