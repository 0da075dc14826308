use crate::id::{Id, IdRange, WithId};
use vstd::prelude::*;

verus! {

/// The deletion of a range of items, made by the operation `id`.
#[derive(Debug, Clone, Copy, Default)]
pub struct DeleteItem {
    pub id: Id,
    pub range: IdRange,
}

impl DeepView for DeleteItem {
    type V = DeleteItem;

    open spec fn deep_view(&self) -> DeleteItem {
        *self
    }
}

impl DeleteItem {
    pub fn new(id: Id, range: IdRange) -> (r: DeleteItem)
        ensures
            r.id == id,
            r.range == range,
    {
        DeleteItem { id, range }
    }

    /// The deleted range.
    pub fn range(&self) -> (r: &IdRange)
        ensures
            *r == self.range,
    {
        &self.range
    }

    /// The id of the first deleted item.
    pub fn target(&self) -> (r: Id)
        ensures
            r.client == self.range.client,
            r.clock == self.range.start,
    {
        self.range.start_id()
    }
}

impl WithId for DeleteItem {
    open spec fn spec_id(&self) -> Id {
        self.id
    }

    #[inline]
    fn id(&self) -> (r: Id) {
        self.id
    }
}

} // verus!
