use std::cmp::Ordering;
use crate::text::{decimal, decimal_text};
use vstd::prelude::*;

verus! {

/// 32 bits Lamport clock tick.
pub type ClockTick = u32;

/// A compact numeric id of a client.
pub type ClientId = u32;

/// The id of one operation: the client that made it and the clock tick at which it was made.
#[derive(Debug, Clone, Copy, Default, Hash)]
pub struct Id {
    pub client: ClientId,
    pub clock: ClockTick,
}

impl DeepView for Id {
    type V = Id;

    open spec fn deep_view(&self) -> Id {
        *self
    }
}

/// Spec-level three-way comparison of two clock ticks.
pub open spec fn tick_order(a: u32, b: u32) -> Ordering {
    if a < b {
        Ordering::Less
    } else if a == b {
        Ordering::Equal
    } else {
        Ordering::Greater
    }
}

/// Compares two clock ticks.
pub fn order_ticks(a: u32, b: u32) -> (r: Ordering)
    ensures
        r == tick_order(a, b),
{
    if a < b {
        Ordering::Less
    } else if a == b {
        Ordering::Equal
    } else {
        Ordering::Greater
    }
}

impl Id {
    #[inline]
    pub fn new(client: ClientId, clock: ClockTick) -> (r: Id)
        ensures
            r.client == client,
            r.clock == clock,
    {
        Id { client, clock }
    }

    /// The text of the id: its client and clock, as `(client, clock)`.
    pub fn to_string(&self) -> (r: String)
        ensures
            r@ == seq!['('] + decimal(self.client) + seq![',', ' '] + decimal(self.clock) + seq![')'],
    {
        let mut s = String::from_str("(");
        s.append(decimal_text(self.client).as_str());
        s.append(", ");
        s.append(decimal_text(self.clock).as_str());
        s.append(")");
        proof {
            reveal_strlit("(");
            reveal_strlit(", ");
            reveal_strlit(")");
        }
        s
    }

    /// Two optional ids are equal when both are absent, or both present with the same
    /// client and the same clock.
    pub fn eq_opt(a: &Option<Id>, b: &Option<Id>) -> (r: bool)
        ensures
            r == (match (*a, *b) {
                (Some(x), Some(y)) => x.client == y.client && x.clock == y.clock,
                (None, None) => true,
                _ => false,
            }),
    {
        match (a, b) {
            (Some(a), Some(b)) => {
                a.client == b.client && match a.compare_without_client(b) {
                    Ordering::Equal => true,
                    _ => false,
                }
            },
            (None, None) => true,
            _ => false,
        }
    }

    /// Compares the clocks of two ids, ignoring their clients.
    #[inline]
    pub fn compare_without_client(&self, other: &Id) -> (r: Ordering)
        ensures
            r == tick_order(self.clock, other.clock),
    {
        order_ticks(self.clock, other.clock)
    }

    /// The id right after this one on the same client.
    #[inline]
    pub fn next(&self) -> (r: Id)
        requires
            self.clock < u32::MAX,
        ensures
            r.client == self.client,
            r.clock == self.clock + 1,
    {
        Id::new(self.client, self.clock + 1)
    }

    /// The range of `size` ticks that starts at this id.
    #[inline]
    pub fn range(&self, size: u32) -> (r: IdRange)
        requires
            self.clock + size >= 1,
            self.clock + size <= u32::MAX,
        ensures
            r.client == self.client,
            r.start == self.clock,
            r.end == self.clock + size - 1,
    {
        IdRange::new(self.client, self.clock, self.clock + size - 1)
    }

    /// The id moved `rhs` ticks forward.
    pub fn add_ticks(&self, rhs: ClockTick) -> (r: Id)
        requires
            self.clock + rhs <= u32::MAX,
        ensures
            r.client == self.client,
            r.clock == self.clock + rhs,
    {
        Id::new(self.client, self.clock + rhs)
    }

    /// The id moved `rhs` ticks backward.
    pub fn sub_ticks(&self, rhs: ClockTick) -> (r: Id)
        requires
            self.clock >= rhs,
        ensures
            r.client == self.client,
            r.clock == self.clock - rhs,
    {
        Id::new(self.client, self.clock - rhs)
    }

    /// The id of a `(client, clock)` pair.
    pub fn from_pair(pair: (ClientId, ClockTick)) -> (r: Id)
        ensures
            r.client == pair.0,
            r.clock == pair.1,
    {
        Id::new(pair.0, pair.1)
    }

    /// The first id of a range.
    pub fn from_range(value: IdRange) -> (r: Id)
        ensures
            r.client == value.client,
            r.clock == value.start,
    {
        Id::new(value.client, value.start)
    }
}

impl PartialEq for Id {
    /// Ids compare equal when their clocks are equal.
    fn eq(&self, other: &Self) -> (r: bool) {
        self.clock == other.clock
    }
}

impl vstd::std_specs::cmp::PartialEqSpecImpl for Id {
    open spec fn obeys_eq_spec() -> bool {
        true
    }

    open spec fn eq_spec(&self, other: &Self) -> bool {
        self.clock == other.clock
    }
}

impl Eq for Id {
}

/// An inclusive range `[start, end]` of clock ticks of one client.
#[derive(Debug, Clone, Copy, Default)]
pub struct IdRange {
    pub client: ClientId,
    pub start: ClockTick,
    pub end: ClockTick,
}

impl DeepView for IdRange {
    type V = IdRange;

    open spec fn deep_view(&self) -> IdRange {
        *self
    }
}

/// The spec-level order of two ranges of one client: a range is before another when it
/// ends before the other starts; overlapping ranges are equal.
pub open spec fn range_order(a: IdRange, b: IdRange) -> Ordering {
    if a.end < b.start {
        Ordering::Less
    } else if b.end < a.start {
        Ordering::Greater
    } else {
        Ordering::Equal
    }
}

impl IdRange {
    pub fn new(client: ClientId, start: ClockTick, end: ClockTick) -> (r: IdRange)
        ensures
            r.client == client,
            r.start == start,
            r.end == end,
    {
        IdRange { client, start, end }
    }

    /// The number of ticks in the range.
    pub open spec fn spec_size(&self) -> int {
        self.end - self.start + 1
    }

    /// The text of the range: its client, start and end, as `(client, start, end)`.
    pub fn to_string(&self) -> (r: String)
        ensures
            r@ == seq!['('] + decimal(self.client) + seq![',', ' '] + decimal(self.start) + seq![
                ',',
                ' ',
            ] + decimal(self.end) + seq![')'],
    {
        let mut s = String::from_str("(");
        s.append(decimal_text(self.client).as_str());
        s.append(", ");
        s.append(decimal_text(self.start).as_str());
        s.append(", ");
        s.append(decimal_text(self.end).as_str());
        s.append(")");
        proof {
            reveal_strlit("(");
            reveal_strlit(", ");
            reveal_strlit(")");
        }
        s
    }

    /// The number of ticks in the range.
    #[inline]
    pub fn size(&self) -> (r: ClockTick)
        requires
            self.start <= self.end,
            self.end - self.start + 1 <= u32::MAX,
        ensures
            r == self.spec_size(),
    {
        self.end - self.start + 1
    }

    /// Two optional ranges are equal when both are absent, or both present on the same
    /// client and overlapping.
    pub fn eq_opt(a: Option<&IdRange>, b: Option<&IdRange>) -> (r: bool)
        ensures
            r == (match (a, b) {
                (Some(x), Some(y)) => x.client == y.client && range_order(*x, *y)
                    == Ordering::Equal,
                (None, None) => true,
                _ => false,
            }),
    {
        match (a, b) {
            (Some(a), Some(b)) => {
                a.client == b.client && match a.compare_without_client(b) {
                    Ordering::Equal => true,
                    _ => false,
                }
            },
            (None, None) => true,
            _ => false,
        }
    }

    /// Field-wise equality.
    #[inline]
    pub fn equals(&self, other: &IdRange) -> (r: bool)
        ensures
            r == (self.client == other.client && self.start == other.start && self.end
                == other.end),
    {
        self.client == other.client && self.start == other.start && self.end == other.end
    }

    #[inline]
    pub fn start_id(&self) -> (r: Id)
        ensures
            r.client == self.client,
            r.clock == self.start,
    {
        Id::new(self.client, self.start)
    }

    #[inline]
    pub fn end_id(&self) -> (r: Id)
        ensures
            r.client == self.client,
            r.clock == self.end,
    {
        Id::new(self.client, self.end)
    }

    /// Compares two ranges of the same client: `Less` when this range ends before the
    /// other starts, `Greater` when the other ends before this one starts, `Equal` when
    /// they overlap.
    #[inline]
    pub fn compare_without_client(&self, other: &IdRange) -> (r: Ordering)
        requires
            self.client == other.client,
        ensures
            r == range_order(*self, *other),
    {
        if self.end < other.start {
            Ordering::Less
        } else if other.end < self.start {
            Ordering::Greater
        } else {
            Ordering::Equal
        }
    }

    /// Splits the range at `offset`: the left part holds `offset` ticks, the right part
    /// the rest. Fails when `offset` is 0 or not inside the range.
    pub fn split(&self, offset: u32) -> (r: Result<(IdRange, IdRange), String>)
        requires
            self.start <= self.end,
            self.end - self.start + 1 <= u32::MAX,
        ensures
            r is Err <==> (offset == 0 || offset >= self.spec_size()),
            r matches Ok((a, b)) ==> {
                &&& a.client == self.client && b.client == self.client
                &&& a.start == self.start && a.end == self.start + offset - 1
                &&& b.start == self.start + offset && b.end == self.end
            },
    {
        if offset == 0 || offset >= self.size() {
            return Err("Cannot split IdRange at invalid position".to_owned());
        }
        Ok(
            (
                IdRange::new(self.client, self.start, self.start + offset - 1),
                IdRange::new(self.client, self.start + offset, self.end),
            ),
        )
    }

    /// The single-tick range of an id.
    pub fn from_id(value: Id) -> (r: IdRange)
        ensures
            r.client == value.client,
            r.start == value.clock,
            r.end == value.clock,
    {
        IdRange::new(value.client, value.clock, value.clock)
    }

    /// Joins two adjacent ranges of the same client into one.
    pub fn join(self, other: IdRange) -> (r: IdRange)
        requires
            self.client == other.client,
            self.end + 1 == other.start,
        ensures
            r.client == self.client,
            r.start == (if self.start <= other.start { self.start } else { other.start }),
            r.end == (if self.end >= other.end { self.end } else { other.end }),
    {
        let start = if self.start <= other.start {
            self.start
        } else {
            other.start
        };
        let end = if self.end >= other.end {
            self.end
        } else {
            other.end
        };
        IdRange::new(self.client, start, end)
    }
}

/// How an entry relates to an id: it lies before it, covers it, or lies after it.
#[derive(Debug, Clone, Copy, PartialEq, Eq)]
pub enum Relation {
    Less,
    Equal,
    Greater,
}

/// Values that carry an id.
pub trait WithId {
    spec fn spec_id(&self) -> Id;

    fn id(&self) -> (r: Id)
        ensures
            r == self.spec_id(),
    ;
}

/// Values that can be placed relative to an id.
pub trait IdComp {
    spec fn spec_comp_id(&self, other: Id) -> Relation;

    fn comp_id(&self, other: &Id) -> (r: Relation)
        ensures
            r == self.spec_comp_id(*other),
    ;
}

impl WithId for Id {
    open spec fn spec_id(&self) -> Id {
        *self
    }

    fn id(&self) -> (r: Id) {
        *self
    }
}

impl WithId for IdRange {
    open spec fn spec_id(&self) -> Id {
        Id { client: self.client, clock: self.start }
    }

    fn id(&self) -> (r: Id) {
        self.start_id()
    }
}

/// Splitting a range at an inner offset gives two adjacent ranges, the left one before
/// the right one, whose sizes add up to the size of the whole.
pub proof fn lemma_split_parts(r: IdRange, a: IdRange, b: IdRange, offset: u32)
    requires
        r.start <= r.end,
        0 < offset < r.spec_size(),
        a.client == r.client && b.client == r.client,
        a.start == r.start && a.end == r.start + offset - 1,
        b.start == r.start + offset && b.end == r.end,
    ensures
        a.end + 1 == b.start,
        a.spec_size() + b.spec_size() == r.spec_size(),
        range_order(a, b) == Ordering::Less,
        range_order(b, a) == Ordering::Greater,
{
}

} // verus!
