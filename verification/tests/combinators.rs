use information_retrieval::inverted_list::intersection::{And, AndNot};
use information_retrieval::inverted_list::union::Or;
use information_retrieval::inverted_list::{
    collect, InvertedList, Posting, PostingIterator, SetMethods,
};

fn list_of(ids: &[usize]) -> InvertedList {
    InvertedList { list: ids.iter().map(|&doc_id| Posting { doc_id }).collect() }
}

fn ids_of(postings: Vec<&Posting>) -> Vec<usize> {
    postings.iter().map(|p| p.doc_id).collect()
}

#[test]
fn and_single_posting_works() {
    let list_1 = InvertedList { list: vec![Posting { doc_id: 1 }] };

    let list_2 = InvertedList { list: vec![Posting { doc_id: 1 }] };

    let actual = list_1.iter().and(list_2.iter());
    let expected = list_1.iter();

    assert!(collect(actual).eq(&collect(expected)));
}

#[test]
fn and_works() {
    let list_1 = InvertedList {
        list: vec![
            Posting { doc_id: 1 },
            Posting { doc_id: 3 },
            Posting { doc_id: 7 },
            Posting { doc_id: 10 },
            Posting { doc_id: 12 },
        ],
    };

    let list_2 = InvertedList {
        list: vec![
            Posting { doc_id: 2 },
            Posting { doc_id: 3 },
            Posting { doc_id: 4 },
            Posting { doc_id: 11 },
            Posting { doc_id: 12 },
        ],
    };

    let actual = list_1.iter().and(list_2.iter());
    let expected = vec![Posting { doc_id: 3 }, Posting { doc_id: 12 }];

    assert!(collect(actual).eq(&expected.iter().collect::<Vec<&Posting>>()));
}

#[test]
fn and_not_works() {
    let list_1 = InvertedList {
        list: vec![
            Posting { doc_id: 1 },
            Posting { doc_id: 3 },
            Posting { doc_id: 7 },
            Posting { doc_id: 10 },
            Posting { doc_id: 12 },
        ],
    };

    let list_2 = InvertedList {
        list: vec![
            Posting { doc_id: 2 },
            Posting { doc_id: 3 },
            Posting { doc_id: 4 },
            Posting { doc_id: 11 },
            Posting { doc_id: 12 },
        ],
    };

    let actual = list_1.iter().and_not(list_2.iter());
    let expected = vec![Posting { doc_id: 1 }, Posting { doc_id: 7 }, Posting { doc_id: 10 }];

    assert!(collect(actual).eq(&expected.iter().collect::<Vec<&Posting>>()));
}

#[test]
fn or_works() {
    let list_1 = InvertedList {
        list: vec![
            Posting { doc_id: 1 },
            Posting { doc_id: 3 },
            Posting { doc_id: 7 },
            Posting { doc_id: 10 },
            Posting { doc_id: 12 },
        ],
    };

    let list_2 = InvertedList {
        list: vec![
            Posting { doc_id: 2 },
            Posting { doc_id: 3 },
            Posting { doc_id: 4 },
            Posting { doc_id: 11 },
            Posting { doc_id: 12 },
        ],
    };

    let actual = list_1.iter().or(list_2.iter());
    let expected = vec![
        Posting { doc_id: 1 },
        Posting { doc_id: 2 },
        Posting { doc_id: 3 },
        Posting { doc_id: 4 },
        Posting { doc_id: 7 },
        Posting { doc_id: 10 },
        Posting { doc_id: 11 },
        Posting { doc_id: 12 },
    ];

    assert!(collect(actual).eq(&expected.iter().collect::<Vec<&Posting>>()));
}

#[test]
fn new_list_is_empty() {
    let list = InvertedList::new();
    assert!(list.list.is_empty());
    assert_eq!(list.last_doc_id(), None);
    assert!(collect(list.iter()).is_empty());
}

#[test]
fn insert_appends_in_order() {
    let mut list = InvertedList::new();
    list.insert(0);
    list.insert(4);
    list.insert(9);
    assert_eq!(list.list, vec![Posting { doc_id: 0 }, Posting { doc_id: 4 }, Posting { doc_id: 9 }]);
    assert_eq!(list.last_doc_id(), Some(9));
    assert_eq!(ids_of(collect(list.iter())), vec![0, 4, 9]);
}

#[test]
fn insert_keeps_an_equal_identifier() {
    let mut list = InvertedList::new();
    list.insert(3);
    list.insert(3);
    assert_eq!(ids_of(collect(list.iter())), vec![3, 3]);
}

#[test]
fn cursors_over_one_list_are_independent() {
    let list = list_of(&[1, 5, 8]);
    let mut first = list.iter();
    let mut second = list.iter();
    assert_eq!(first.next(), Some(&Posting { doc_id: 1 }));
    assert_eq!(first.next(), Some(&Posting { doc_id: 5 }));
    assert_eq!(second.next(), Some(&Posting { doc_id: 1 }));
    assert_eq!(first.next(), Some(&Posting { doc_id: 8 }));
    assert_eq!(first.next(), None);
    assert_eq!(first.next(), None);
    assert_eq!(second.next(), Some(&Posting { doc_id: 5 }));
    assert_eq!(list.list.len(), 3);
}

#[test]
fn next_yields_one_posting_at_a_time() {
    let a = list_of(&[1, 2, 5]);
    let b = list_of(&[2, 3, 5, 9]);
    let mut both = And::new(a.iter(), b.iter());
    assert_eq!(both.next(), Some(&Posting { doc_id: 2 }));
    assert_eq!(both.next(), Some(&Posting { doc_id: 5 }));
    assert_eq!(both.next(), None);
    assert_eq!(both.next(), None);

    let mut only_left = AndNot::new(a.iter(), b.iter());
    assert_eq!(only_left.next(), Some(&Posting { doc_id: 1 }));
    assert_eq!(only_left.next(), None);
    assert_eq!(only_left.next(), None);

    let mut either = Or::new(a.iter(), b.iter());
    assert_eq!(either.next(), Some(&Posting { doc_id: 1 }));
    assert_eq!(either.next(), Some(&Posting { doc_id: 2 }));
    assert_eq!(either.next(), Some(&Posting { doc_id: 3 }));
    assert_eq!(either.next(), Some(&Posting { doc_id: 5 }));
    assert_eq!(either.next(), Some(&Posting { doc_id: 9 }));
    assert_eq!(either.next(), None);
    assert_eq!(either.next(), None);
}

#[test]
fn joins_with_an_empty_side() {
    let some = list_of(&[2, 4, 6]);
    let none = InvertedList::new();
    assert_eq!(ids_of(collect(some.iter().and(none.iter()))), Vec::<usize>::new());
    assert_eq!(ids_of(collect(none.iter().and(some.iter()))), Vec::<usize>::new());
    assert_eq!(ids_of(collect(some.iter().and_not(none.iter()))), vec![2, 4, 6]);
    assert_eq!(ids_of(collect(none.iter().and_not(some.iter()))), Vec::<usize>::new());
    assert_eq!(ids_of(collect(some.iter().or(none.iter()))), vec![2, 4, 6]);
    assert_eq!(ids_of(collect(none.iter().or(some.iter()))), vec![2, 4, 6]);
    assert_eq!(ids_of(collect(none.iter().or(none.iter()))), Vec::<usize>::new());
}

#[test]
fn joins_of_disjoint_and_of_equal_lists() {
    let low = list_of(&[1, 2, 3]);
    let high = list_of(&[7, 8]);
    assert_eq!(ids_of(collect(low.iter().and(high.iter()))), Vec::<usize>::new());
    assert_eq!(ids_of(collect(high.iter().and(low.iter()))), Vec::<usize>::new());
    assert_eq!(ids_of(collect(low.iter().and_not(high.iter()))), vec![1, 2, 3]);
    assert_eq!(ids_of(collect(high.iter().and_not(low.iter()))), vec![7, 8]);
    assert_eq!(ids_of(collect(low.iter().or(high.iter()))), vec![1, 2, 3, 7, 8]);
    assert_eq!(ids_of(collect(high.iter().or(low.iter()))), vec![1, 2, 3, 7, 8]);
    assert_eq!(ids_of(collect(low.iter().and(low.iter()))), vec![1, 2, 3]);
    assert_eq!(ids_of(collect(low.iter().and_not(low.iter()))), Vec::<usize>::new());
    assert_eq!(ids_of(collect(low.iter().or(low.iter()))), vec![1, 2, 3]);
}

#[test]
fn and_not_skips_stale_right_entries() {
    let left = list_of(&[5, 6, 20]);
    let right = list_of(&[1, 2, 3, 6, 7, 30]);
    assert_eq!(ids_of(collect(left.iter().and_not(right.iter()))), vec![5, 20]);
}

#[test]
fn joins_nest() {
    let a = list_of(&[1, 2, 3, 4, 5, 6]);
    let b = list_of(&[2, 4, 6, 8]);
    let c = list_of(&[0, 1, 5, 9]);
    let d = list_of(&[1, 9]);
    let nested = a.iter().and(b.iter()).or(c.iter().and_not(d.iter()));
    assert_eq!(ids_of(collect(nested)), vec![0, 2, 4, 5, 6]);
    let deeper = a.iter().or(c.iter()).and_not(b.iter().and(a.iter())).and(c.iter().or(d.iter()));
    assert_eq!(ids_of(collect(deeper)), vec![0, 1, 5, 9]);
}

#[test]
fn repeated_identifiers_are_joined_as_often_as_they_stand() {
    let twice = list_of(&[2, 2]);
    let once = list_of(&[2]);
    let none = InvertedList::new();
    assert_eq!(ids_of(collect(twice.iter().and(twice.iter()))), vec![2, 2]);
    assert_eq!(ids_of(collect(twice.iter().and(once.iter()))), vec![2]);
    assert_eq!(ids_of(collect(once.iter().and(twice.iter()))), vec![2]);
    assert_eq!(ids_of(collect(twice.iter().and_not(once.iter()))), vec![2]);
    assert_eq!(ids_of(collect(twice.iter().and_not(twice.iter()))), Vec::<usize>::new());
    assert_eq!(ids_of(collect(twice.iter().or(none.iter()))), vec![2, 2]);
    assert_eq!(ids_of(collect(twice.iter().or(once.iter()))), vec![2, 2]);
}

#[test]
fn intersection_holds_what_both_hold() {
    let a = list_of(&[0, 3, 4, 8, 15, 16, 23, 42]);
    let b = list_of(&[1, 3, 8, 9, 16, 17, 42, 43]);
    let both = ids_of(collect(a.iter().and(b.iter())));
    assert_eq!(both, vec![3, 8, 16, 42]);
    for v in 0..50usize {
        let in_a = a.list.contains(&Posting { doc_id: v });
        let in_b = b.list.contains(&Posting { doc_id: v });
        assert_eq!(both.contains(&v), in_a && in_b);
    }
    assert!(both.windows(2).all(|w| w[0] < w[1]));
}

#[test]
fn difference_and_intersection_give_back_the_left_side() {
    let a = list_of(&[0, 3, 4, 8, 15, 16, 23, 42]);
    let b = list_of(&[1, 3, 8, 9, 16, 17, 42, 43]);
    let kept = list_of(&ids_of(collect(a.iter().and_not(b.iter()))));
    let shared = list_of(&ids_of(collect(a.iter().and(b.iter()))));
    assert_eq!(ids_of(collect(kept.iter())), vec![0, 4, 15, 23]);
    assert_eq!(ids_of(collect(kept.iter().or(shared.iter()))), ids_of(collect(a.iter())));
    assert_eq!(ids_of(collect(kept.iter().and(b.iter()))), Vec::<usize>::new());
}

#[test]
fn union_is_as_long_as_both_less_the_shared() {
    let a = list_of(&[0, 3, 4, 8, 15, 16, 23, 42]);
    let b = list_of(&[1, 3, 8, 9, 16, 17, 42, 43]);
    let either = ids_of(collect(a.iter().or(b.iter())));
    let both = ids_of(collect(a.iter().and(b.iter())));
    assert_eq!(either, vec![0, 1, 3, 4, 8, 9, 15, 16, 17, 23, 42, 43]);
    assert_eq!(either.len(), 12);
    assert_eq!(either.len(), a.list.len() + b.list.len() - both.len());
    assert!(either.windows(2).all(|w| w[0] < w[1]));
}

#[test]
fn union_and_intersection_commute_and_associate() {
    let a = list_of(&[1, 2, 4, 7, 9]);
    let b = list_of(&[2, 3, 4, 9, 10]);
    let c = list_of(&[0, 2, 9, 11]);
    assert_eq!(
        ids_of(collect(a.iter().or(b.iter()))),
        ids_of(collect(b.iter().or(a.iter())))
    );
    assert_eq!(
        ids_of(collect(a.iter().and(b.iter()))),
        ids_of(collect(b.iter().and(a.iter())))
    );
    assert_eq!(ids_of(collect(a.iter().or(b.iter()).or(c.iter()))), vec![0, 1, 2, 3, 4, 7, 9, 10, 11]);
    assert_eq!(
        ids_of(collect(a.iter().or(b.iter()).or(c.iter()))),
        ids_of(collect(a.iter().or(b.iter().or(c.iter()))))
    );
    assert_eq!(ids_of(collect(a.iter().and(b.iter()).and(c.iter()))), vec![2, 9]);
    assert_eq!(
        ids_of(collect(a.iter().and(b.iter()).and(c.iter()))),
        ids_of(collect(a.iter().and(b.iter().and(c.iter()))))
    );
}
