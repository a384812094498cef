//! A view is an ordered selection of data rows: the result of a search or
//! filter. The identity view (`All`) carries no allocation.

use vstd::prelude::*;
use vstd::view::View as _;

verus! {

/// An ordered set of data-row indices.
#[derive(Debug, Clone)]
pub enum View {
    /// All rows `0..count`, in natural order. No backing allocation.
    All(u64),
    /// An explicit, ordered subset of data-row indices.
    Filtered(Vec<u32>),
}

impl View {
    /// The data-row ids the view lists, in view order. For `All(n)` the row
    /// ids are 32-bit, so only `n` truncated to 32 bits of them are listed.
    pub open spec fn ids(&self) -> Seq<u32> {
        match self {
            View::All(n) => Seq::new((*n as u32) as nat, |k: int| k as u32),
            View::Filtered(v) => v@,
        }
    }

    /// The number of rows the view reports.
    pub open spec fn spec_len(&self) -> nat {
        match self {
            View::All(n) => *n as nat,
            View::Filtered(v) => v@.len(),
        }
    }

    /// The data-row id at view position `p`, if any.
    pub open spec fn spec_row_id(&self, p: u64) -> Option<u32> {
        match self {
            View::All(n) => if p < *n { Some(p as u32) } else { None },
            View::Filtered(v) => if p < v@.len() { Some(v@[p as int]) } else { None },
        }
    }

    /// Number of rows in the view.
    pub fn len(&self) -> (res: u64)
        ensures
            res as nat == self.spec_len() % 0x1_0000_0000_0000_0000,
    {
        match self {
            View::All(n) => *n,
            View::Filtered(ids) => ids.len() as u64,
        }
    }

    /// True when the view lists no rows.
    pub fn is_empty(&self) -> (res: bool)
        ensures
            res == (self.spec_len() % 0x1_0000_0000_0000_0000 == 0),
    {
        self.len() == 0
    }

    /// Map a position in the view to the underlying data-row index.
    /// Returns `None` when `view_row` is out of range; never panics.
    pub fn row_id(&self, view_row: u64) -> (res: Option<u32>)
        ensures
            res == self.spec_row_id(view_row),
    {
        match self {
            View::All(n) => {
                if view_row < *n {
                    Some(view_row as u32)
                } else {
                    None
                }
            },
            View::Filtered(ids) => {
                if view_row < ids.len() as u64 {
                    Some(ids[view_row as usize])
                } else {
                    None
                }
            },
        }
    }

    /// The underlying data-row indices in view order.
    pub fn iter(&self) -> (res: Vec<u32>)
        ensures
            res@ == self.ids(),
    {
        match self {
            View::All(n) => {
                let count = *n as u32;
                let mut out: Vec<u32> = Vec::new();
                let mut k: u32 = 0;
                while k < count
                    invariant
                        k <= count,
                        count == *n as u32,
                        out@ =~= Seq::new(k as nat, |j: int| j as u32),
                    decreases count - k,
                {
                    out.push(k);
                    k = k + 1;
                }
                assert(out@ =~= self.ids());
                out
            },
            View::Filtered(ids) => ids.clone(),
        }
    }
}

} // verus!
