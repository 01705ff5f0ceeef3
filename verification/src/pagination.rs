use vstd::prelude::*;

verus! {

/// The number of results on a page where the caller names none.
pub const PAGINATION_DEFAULT_LIMIT: usize = 20;

/// Which part of a list is asked for: `limit` items, after the first
/// `offset`.
#[derive(Clone, Copy, Debug, PartialEq, Eq, Structural)]
pub struct Pagination {
    pub offset: usize,
    pub limit: usize,
}

/// One page of a list, with the offset and the limit it was cut with and
/// the length of the whole list.
#[derive(Debug)]
pub struct PaginationView<T> {
    pub results: Vec<T>,
    pub offset: usize,
    pub limit: usize,
    pub total: usize,
}

/// Where the page starts in a list of `len` items.
pub open spec fn page_start(len: nat, offset: usize) -> int {
    if offset <= len {
        offset as int
    } else {
        len as int
    }
}

/// Where the page ends in a list of `len` items.
pub open spec fn page_end(len: nat, offset: usize, limit: usize) -> int {
    if offset + limit <= len {
        offset + limit
    } else {
        len as int
    }
}

/// The items of the page: after the first `offset`, the `limit` that
/// follow, or as many as are left.
pub open spec fn page<T>(content: Seq<T>, offset: usize, limit: usize) -> Seq<T> {
    content.subrange(page_start(content.len(), offset), page_end(content.len(), offset, limit))
}

impl Pagination {
    /// Given the full data to paginate, returns the selected section.
    pub fn auto_paginate_sized<T>(self, content: Vec<T>) -> (r: PaginationView<T>)
        ensures
            r.results@ == page(content@, self.offset, self.limit),
            r.offset == self.offset,
            r.limit == self.limit,
            r.total == content@.len(),
    {
        let total = content.len();
        self.auto_paginate_unsized(total, content)
    }

    /// Given the data and the total number of elements, returns the
    /// selected section.
    pub fn auto_paginate_unsized<T>(self, total: usize, content: Vec<T>) -> (r: PaginationView<T>)
        ensures
            r.results@ == page(content@, self.offset, self.limit),
            r.offset == self.offset,
            r.limit == self.limit,
            r.total == total,
    {
        let mut content = content;
        let len = content.len();
        let start = if self.offset <= len {
            self.offset
        } else {
            len
        };
        let end = if self.limit <= len - start {
            start + self.limit
        } else {
            len
        };
        content.truncate(end);
        let results = content.split_off(start);
        self.format_with(total, results)
    }

    /// Given the data already paginated and the total number of
    /// elements, stores everything in a page.
    pub fn format_with<T>(self, total: usize, results: Vec<T>) -> (r: PaginationView<T>)
        ensures
            r.results == results,
            r.offset == self.offset,
            r.limit == self.limit,
            r.total == total,
    {
        PaginationView { results, offset: self.offset, limit: self.limit, total }
    }
}

impl<T> PaginationView<T> {
    pub fn new(offset: usize, limit: usize, total: usize, results: Vec<T>) -> (r: Self)
        ensures
            r.results == results,
            r.offset == offset,
            r.limit == limit,
            r.total == total,
    {
        PaginationView { offset, limit, results, total }
    }
}

/// The answer to a request that changes an index: the number under
/// which the change is filed.
#[derive(Clone, Copy, Debug, PartialEq, Eq, Structural)]
pub struct IndexUpdateResponse {
    pub update_id: u64,
}

impl IndexUpdateResponse {
    pub fn with_id(update_id: u64) -> (r: Self)
        ensures
            r.update_id == update_id,
    {
        IndexUpdateResponse { update_id }
    }
}

} // verus!
