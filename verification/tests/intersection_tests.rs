use inverted_index::DocId;
use inverted_index::intersection::IntersectionPostings;
use inverted_index::postings::Postings;
use inverted_index::postings::VecPostings;

#[test]
fn test_intersection() {
    {
        let left = VecPostings::new(vec![1, 3, 9]);
        let right = VecPostings::new(vec![3, 4, 9, 18]);
        let inter = IntersectionPostings::from_postings(vec![left, right]);
        let vals: Vec<DocId> = inter.collect();
        assert_eq!(vals, vec![3, 9]);
    }
    {
        let a = VecPostings::new(vec![1, 3, 9]);
        let b = VecPostings::new(vec![3, 4, 9, 18]);
        let c = VecPostings::new(vec![1, 5, 9, 111]);
        let inter = IntersectionPostings::from_postings(vec![a, b, c]);
        let vals: Vec<DocId> = inter.collect();
        assert_eq!(vals, vec![9]);
    }
}

#[test]
fn intersection_with_empty_list_is_empty() {
    let left = VecPostings::new(vec![1, 3, 9]);
    let right = VecPostings::new(vec![]);
    let inter = IntersectionPostings::from_postings(vec![left, right]);
    let vals: Vec<DocId> = inter.collect();
    assert_eq!(vals, Vec::<DocId>::new());
}

#[test]
fn intersection_of_single_list_is_that_list() {
    let only = VecPostings::new(vec![2, 4, 6]);
    let inter = IntersectionPostings::from_postings(vec![only]);
    let vals: Vec<DocId> = inter.collect();
    assert_eq!(vals, vec![2, 4, 6]);
}

#[test]
fn intersection_is_lazy_and_exhaustion_is_permanent() {
    let a = VecPostings::new(vec![1, 2, 5]);
    let b = VecPostings::new(vec![2, 3, 5, 8]);
    let mut inter = IntersectionPostings::from_postings(vec![a, b]);
    assert_eq!(inter.next(), Some(2));
    assert_eq!(inter.next(), Some(5));
    assert_eq!(inter.next(), None);
    assert_eq!(inter.next(), None);
    assert_eq!(inter.next(), None);
}

#[test]
fn intersection_of_disjoint_lists_is_empty() {
    let a = VecPostings::new(vec![1, 4, 7]);
    let b = VecPostings::new(vec![2, 5, 8]);
    let inter = IntersectionPostings::from_postings(vec![a, b]);
    let vals: Vec<DocId> = inter.collect();
    assert_eq!(vals, Vec::<DocId>::new());
}

#[test]
fn vec_postings_walks_its_list_in_order() {
    let mut p = VecPostings::new(vec![3, 7, 9]);
    assert_eq!(p.next(), Some(3));
    assert_eq!(p.next(), Some(7));
    assert_eq!(p.next(), Some(9));
    assert_eq!(p.next(), None);
    assert_eq!(p.next(), None);
}

#[test]
fn skip_next_stops_on_first_value_at_or_past_target() {
    let mut p = VecPostings::new(vec![1, 3, 9, 18]);
    assert_eq!(p.skip_next(4), Some(9));
    assert_eq!(p.next(), Some(18));
    let mut q = VecPostings::new(vec![1, 3, 9, 18]);
    assert_eq!(q.skip_next(3), Some(3));
    assert_eq!(q.skip_next(100), None);
    assert_eq!(q.next(), None);
}

#[test]
fn skip_next_to_old_target_repeats_last_value_without_moving() {
    let mut p = VecPostings::new(vec![3, 7, 9]);
    assert_eq!(p.next(), Some(3));
    // target at or below the value already returned: a no-op that
    // returns that value again
    assert_eq!(p.skip_next(2), Some(3));
    assert_eq!(p.skip_next(3), Some(3));
    // the cursor did not move backward or forward
    assert_eq!(p.next(), Some(7));
}
