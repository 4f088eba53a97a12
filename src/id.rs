use vstd::prelude::*;

verus! {

/// A monotonically increasing source of identifiers. Identifiers start at 1
/// and are never handed out twice by the same source.
pub struct IdGen {
    pub next: usize,
}

impl IdGen {
    pub open spec fn wf(&self) -> bool {
        self.next >= 1
    }

    /// A fresh source whose first identifier is 1.
    pub fn new() -> (r: Self)
        ensures
            r.next == 1,
            r.wf(),
    {
        IdGen { next: 1 }
    }

    /// Hands out the next identifier.
    pub fn fresh(&mut self) -> (r: usize)
        requires
            old(self).wf(),
            old(self).next < usize::MAX,
        ensures
            r == old(self).next,
            final(self).next == old(self).next + 1,
            final(self).wf(),
            r >= 1,
    {
        let r = self.next;
        self.next = self.next + 1;
        r
    }
}

} // verus!

verus! {

/// Hands out the next identifier, rendered in decimal.
pub fn new_id(ids: &mut IdGen) -> (r: String)
    requires
        old(ids).wf(),
        old(ids).next < usize::MAX,
    ensures
        r@ == crate::text::decimal(old(ids).next as nat),
        final(ids).next == old(ids).next + 1,
        final(ids).wf(),
{
    let n = ids.fresh();
    crate::text::to_decimal(n)
}

} // verus!
