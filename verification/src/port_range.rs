//! An inclusive range of ports, read from a configuration as `[start, end]`,
//! and walked in increasing order.
use vstd::prelude::*;

verus! {

/// The ports `start..=end` not yet handed out.
#[derive(Clone, Copy, Debug)]
pub struct PortRange {
    start: u16,
    end: u16,
    exhausted: bool,
}

/// A range whose start lies above its end.
#[derive(Debug)]
pub struct PortRangeError;

/// The ports `start..=end` in increasing order (none where `start > end`).
pub open spec fn ports_between(start: u16, end: u16) -> Seq<u16> {
    if start > end {
        Seq::<u16>::empty()
    } else {
        Seq::new((end - start + 1) as nat, |i: int| (start + i) as u16)
    }
}

impl View for PortRange {
    type V = Seq<u16>;

    /// The ports still to come, in order.
    closed spec fn view(&self) -> Seq<u16> {
        if self.exhausted {
            Seq::<u16>::empty()
        } else {
            ports_between(self.start, self.end)
        }
    }
}

impl PortRange {
    /// The range `start..=end`; refused where `start > end`.
    pub fn new(start: u16, end: u16) -> (r: Result<PortRange, PortRangeError>)
        ensures
            r is Err <==> start > end,
            r matches Ok(p) ==> p@ == ports_between(start, end),
    {
        if start > end {
            Err(PortRangeError)
        } else {
            Ok(PortRange { start, end, exhausted: false })
        }
    }

    /// Hands out the next port, if any is left.
    pub fn next(&mut self) -> (r: Option<u16>)
        ensures
            old(self)@.len() == 0 ==> r is None && final(self)@ == old(self)@,
            old(self)@.len() > 0 ==> r == Some(old(self)@[0]) && final(self)@ == old(
                self,
            )@.drop_first(),
    {
        if self.exhausted || self.start > self.end {
            None
        } else if self.start < self.end {
            let n = self.start;
            self.start = self.start + 1;
            assert(self@ =~= old(self)@.drop_first());
            Some(n)
        } else {
            self.exhausted = true;
            assert(self@ =~= old(self)@.drop_first());
            Some(self.start)
        }
    }

    /// The ports still to come, in order.
    pub fn to_vec(&self) -> (r: Vec<u16>)
        ensures
            r@ == self@,
    {
        let mut it = *self;
        let mut r: Vec<u16> = Vec::new();
        while it.has_next()
            invariant
                r@ + it@ == self@,
            decreases it@.len(),
        {
            let ghost before = it@;
            match it.next() {
                Some(p) => {
                    r.push(p);
                    assert(r@ + it@ =~= self@) by {
                        assert(before =~= seq![p] + before.drop_first());
                    }
                },
                None => {},
            }
        }
        assert(r@ + it@ =~= r@);
        r
    }

    fn has_next(&self) -> (r: bool)
        ensures
            r == (self@.len() > 0),
    {
        !self.exhausted && self.start <= self.end
    }
}

impl PortRangeError {
    /// The error message.
    pub fn message(&self) -> (r: &'static str)
        ensures
            r@ == "Range start must not be greater than end"@,
    {
        "Range start must not be greater than end"
    }
}

/// A range `[start, end]` holds `end - start + 1` ports, `start + i` at
/// place `i`.
pub proof fn law_range_ports(start: u16, end: u16)
    requires
        start <= end,
    ensures
        ports_between(start, end).len() == end - start + 1,
        forall|i: int| 0 <= i <= end - start ==> #[trigger] ports_between(start, end)[i] == start + i,
{
}

} // verus!
