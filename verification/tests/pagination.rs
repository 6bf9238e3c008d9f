use cx::pagination::{paginate, pagination_hint, Pagination};

fn numbers(n: usize) -> Vec<usize> {
    (1..=n).collect()
}

#[test]
fn paginate_skips_then_takes() {
    let p = paginate(numbers(10), &Pagination { limit: Some(3), offset: 2 });
    assert_eq!(p.items, vec![3, 4, 5]);
    assert_eq!(p.total, 10);
    assert_eq!(p.offset, 2);
    assert_eq!(p.limit, Some(3));
    assert!(p.was_truncated());
    assert!(p.needs_envelope());
}

#[test]
fn paginate_without_limit_shows_everything() {
    let p = paginate(numbers(4), &Pagination { limit: None, offset: 0 });
    assert_eq!(p.items, vec![1, 2, 3, 4]);
    assert!(!p.was_truncated());
    assert!(!p.needs_envelope());
}

#[test]
fn paginate_last_page_is_not_truncated_but_needs_envelope() {
    let p = paginate(numbers(5), &Pagination { limit: Some(3), offset: 3 });
    assert_eq!(p.items, vec![4, 5]);
    assert!(!p.was_truncated());
    assert!(p.needs_envelope());
}

#[test]
fn paginate_past_the_end_is_empty() {
    let p = paginate(numbers(5), &Pagination { limit: Some(3), offset: 20 });
    assert!(p.items.is_empty());
    assert_eq!(p.total, 5);
    assert!(!p.was_truncated());
    assert!(p.needs_envelope());
}

#[test]
fn paginate_exact_fit_is_not_truncated() {
    let p = paginate(numbers(3), &Pagination { limit: Some(3), offset: 0 });
    assert_eq!(p.items, vec![1, 2, 3]);
    assert!(!p.was_truncated());
    assert!(!p.needs_envelope());
}

#[test]
fn consecutive_pages_make_the_spanning_page() {
    let a = paginate(numbers(9), &Pagination { limit: Some(3), offset: 1 });
    let b = paginate(numbers(9), &Pagination { limit: Some(2), offset: 4 });
    let both = paginate(numbers(9), &Pagination { limit: Some(5), offset: 1 });
    let mut joined = a.items.clone();
    joined.extend(b.items.iter().copied());
    assert_eq!(joined, both.items);
}

#[test]
fn flags_all_means_no_limit() {
    let p = Pagination::from_flags(true, None, 4, Some(100));
    assert_eq!(p.limit, None);
    assert_eq!(p.offset, 4);
}

#[test]
fn flags_use_the_default_limit() {
    let p = Pagination::from_flags(false, None, 0, Some(100));
    assert_eq!(p.limit, Some(100));
    let p = Pagination::from_flags(false, None, 0, Some(3));
    assert_eq!(p.limit, Some(3));
}

#[test]
fn flags_explicit_limit_overrides_default() {
    let p = Pagination::from_flags(false, Some(7), 2, Some(3));
    assert_eq!(p.limit, Some(7));
    assert_eq!(p.offset, 2);
}

#[test]
fn flags_without_any_limit() {
    assert_eq!(Pagination::from_flags(false, None, 0, None).limit, None);
    assert_eq!(Pagination::from_flags(false, Some(usize::MAX), 0, Some(3)).limit, None);
}

#[test]
fn hint_text_is_exact() {
    let h = pagination_hint(32, 0, 3, "definitions for \"X\"", "--from PATH");
    assert_eq!(h, "cx: 3/32 definitions for \"X\" | --from PATH to narrow | --offset 3 for more | --all");
    let h = pagination_hint(250, 100, 50, "symbols", "--file PATH | --kind KIND");
    assert_eq!(h, "cx: 50/250 symbols | --file PATH | --kind KIND to narrow | --offset 150 for more | --all");
}
