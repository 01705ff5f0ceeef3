use query_term::pagination::{
    IndexUpdateResponse, Pagination, PaginationView, PAGINATION_DEFAULT_LIMIT,
};

#[test]
fn page_in_the_middle() {
    let view = Pagination { offset: 2, limit: 3 }.auto_paginate_sized(vec![0, 1, 2, 3, 4, 5, 6]);
    assert_eq!(view.results, vec![2, 3, 4]);
    assert_eq!(view.offset, 2);
    assert_eq!(view.limit, 3);
    assert_eq!(view.total, 7);
}

#[test]
fn page_at_the_end_is_shorter() {
    let view = Pagination { offset: 5, limit: 3 }.auto_paginate_sized(vec![0, 1, 2, 3, 4, 5, 6]);
    assert_eq!(view.results, vec![5, 6]);
    assert_eq!(view.total, 7);
}

#[test]
fn page_past_the_end_is_empty() {
    let view = Pagination { offset: 9, limit: 3 }.auto_paginate_sized(vec![0, 1, 2]);
    assert_eq!(view.results, Vec::<i32>::new());
    assert_eq!(view.total, 3);
    let view = Pagination { offset: 3, limit: 3 }.auto_paginate_sized(vec![0, 1, 2]);
    assert_eq!(view.results, Vec::<i32>::new());
}

#[test]
fn page_with_the_largest_limit() {
    let view =
        Pagination { offset: 1, limit: usize::MAX }.auto_paginate_sized(vec!["a", "b", "c"]);
    assert_eq!(view.results, vec!["b", "c"]);
    let view = Pagination { offset: usize::MAX, limit: usize::MAX }
        .auto_paginate_sized(vec!["a", "b", "c"]);
    assert!(view.results.is_empty());
    let view = Pagination { offset: 0, limit: 0 }.auto_paginate_sized(vec!["a", "b", "c"]);
    assert!(view.results.is_empty());
    assert_eq!(view.total, 3);
}

#[test]
fn page_with_a_total_of_its_own() {
    let view = Pagination { offset: 1, limit: PAGINATION_DEFAULT_LIMIT }
        .auto_paginate_unsized(100, vec![10, 20, 30]);
    assert_eq!(view.results, vec![20, 30]);
    assert_eq!(view.total, 100);
    assert_eq!(view.limit, 20);
}

#[test]
fn page_made_of_its_parts() {
    let view = Pagination { offset: 4, limit: 2 }.format_with(9, vec!['x', 'y']);
    assert_eq!(view.results, vec!['x', 'y']);
    assert_eq!((view.offset, view.limit, view.total), (4, 2, 9));
    let view = PaginationView::new(1, 2, 3, vec![true]);
    assert_eq!(view.results, vec![true]);
    assert_eq!((view.offset, view.limit, view.total), (1, 2, 3));
}

#[test]
fn update_response_holds_its_id() {
    assert_eq!(IndexUpdateResponse::with_id(42).update_id, 42);
    assert_eq!(IndexUpdateResponse::with_id(0), IndexUpdateResponse { update_id: 0 });
}
