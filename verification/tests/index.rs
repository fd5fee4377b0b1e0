use std::cell::Cell;

use information_retrieval::render::{push_decimal, push_joined, render};
use information_retrieval::term_map::{compare_terms, Rank, TermMap};
use information_retrieval::{InvertedIndex, Query, QueryError};

fn words(doc: &String) -> Vec<String> {
    doc.split_whitespace().map(str::to_owned).collect()
}

fn seed() -> InvertedIndex<fn(&String) -> Vec<String>> {
    let mut index = InvertedIndex::new(words as fn(&String) -> Vec<String>);
    index.insert_doc("new home sales top forecasts".to_owned());
    index.insert_doc("home sales rise in july".to_owned());
    index.insert_doc("increase in home sales in july".to_owned());
    index.insert_doc("july new home sales rise".to_owned());
    index
}

fn or(l: &str, r: &str) -> Query {
    Query::Or(l.to_owned(), r.to_owned())
}

fn and(l: &str, r: &str) -> Query {
    Query::And(l.to_owned(), r.to_owned())
}

fn and_not(l: &str, r: &str) -> Query {
    Query::AndNot(l.to_owned(), r.to_owned())
}

#[test]
fn seed_or_query() {
    assert_eq!(seed().query(or("rise", "july")), Ok(vec![2, 3, 4]));
}

#[test]
fn seed_and_query() {
    assert_eq!(seed().query(and("home", "july")), Ok(vec![2, 3, 4]));
}

#[test]
fn seed_and_not_query() {
    assert_eq!(seed().query(and_not("home", "july")), Ok(vec![1]));
}

#[test]
fn seed_other_queries() {
    let index = seed();
    assert_eq!(index.query(and("rise", "july")), Ok(vec![2, 4]));
    assert_eq!(index.query(or("top", "increase")), Ok(vec![1, 3]));
    assert_eq!(index.query(or("new", "new")), Ok(vec![1, 4]));
    assert_eq!(index.query(and_not("july", "rise")), Ok(vec![3]));
    assert_eq!(index.query(or("home", "forecasts")), Ok(vec![1, 2, 3, 4]));
}

#[test]
fn query_with_no_match_is_empty_not_an_error() {
    let index = seed();
    assert_eq!(index.query(and("top", "july")), Ok(vec![]));
    assert_eq!(index.query(and_not("home", "sales")), Ok(vec![]));
    assert_eq!(index.query(and_not("rise", "rise")), Ok(vec![]));
}

#[test]
fn query_for_an_unknown_term_is_an_error() {
    let index = seed();
    assert_eq!(index.query(or("rise", "august")), Err(QueryError::UnknownTerm));
    assert_eq!(index.query(or("august", "rise")), Err(QueryError::UnknownTerm));
    assert_eq!(index.query(and("august", "september")), Err(QueryError::UnknownTerm));
    assert_eq!(index.query(and_not("home", "Home")), Err(QueryError::UnknownTerm));
    assert_eq!(index.query(or("", "home")), Err(QueryError::UnknownTerm));
}

#[test]
fn query_on_an_empty_index_is_an_error() {
    let index = InvertedIndex::new(words);
    assert_eq!(index.query(or("home", "home")), Err(QueryError::UnknownTerm));
    assert!(index.listing().is_empty());
}

#[test]
fn repeated_queries_agree() {
    let index = seed();
    let first = index.query(or("rise", "july"));
    let second = index.query(or("rise", "july"));
    assert_eq!(first, second);
    assert_eq!(index.query(and_not("sales", "new")), index.query(and_not("sales", "new")));
    assert_eq!(index.query(or("x", "july")), index.query(or("x", "july")));
}

#[test]
fn listing_is_in_the_order_of_terms() {
    let expected: Vec<(String, Vec<usize>)> = vec![
        ("forecasts".to_owned(), vec![1]),
        ("home".to_owned(), vec![1, 2, 3, 4]),
        ("in".to_owned(), vec![2, 3]),
        ("increase".to_owned(), vec![3]),
        ("july".to_owned(), vec![2, 3, 4]),
        ("new".to_owned(), vec![1, 4]),
        ("rise".to_owned(), vec![2, 4]),
        ("sales".to_owned(), vec![1, 2, 3, 4]),
        ("top".to_owned(), vec![1]),
    ];
    assert_eq!(seed().listing(), expected);
}

#[test]
fn a_term_that_recurs_in_a_document_is_posted_once() {
    let mut index = InvertedIndex::new(words);
    index.insert_doc("to be or not to be".to_owned());
    index.insert_doc("be be be".to_owned());
    assert_eq!(index.query(or("to", "be")), Ok(vec![1, 2]));
    assert_eq!(index.query(and("be", "be")), Ok(vec![1, 2]));
    assert_eq!(
        index.listing(),
        vec![
            ("be".to_owned(), vec![1, 2]),
            ("not".to_owned(), vec![1]),
            ("or".to_owned(), vec![1]),
            ("to".to_owned(), vec![1]),
        ]
    );
}

#[test]
fn a_document_without_terms_still_takes_a_number() {
    let mut index = InvertedIndex::new(words);
    index.insert_doc("".to_owned());
    index.insert_doc("   ".to_owned());
    index.insert_doc("late".to_owned());
    assert_eq!(index.query(or("late", "late")), Ok(vec![3]));
}

#[test]
fn insert_terms_takes_the_terms_as_given() {
    let mut index = InvertedIndex::new(words);
    index.insert_terms("ignored text".to_owned(), vec!["b".to_owned(), "a".to_owned(), "b".to_owned()]);
    index.insert_terms("more".to_owned(), vec!["c".to_owned(), "a".to_owned()]);
    assert_eq!(
        index.listing(),
        vec![
            ("a".to_owned(), vec![1, 2]),
            ("b".to_owned(), vec![1]),
            ("c".to_owned(), vec![2]),
        ]
    );
    assert_eq!(index.query(or("ignored", "a")), Err(QueryError::UnknownTerm));
    assert_eq!(index.query(and_not("a", "c")), Ok(vec![1]));
}

#[test]
fn new_tries_the_tokenizer_on_the_empty_text() {
    let calls = Cell::new(0usize);
    let longest = Cell::new(0usize);
    let mut index = InvertedIndex::new(|doc: &String| {
        calls.set(calls.get() + 1);
        longest.set(longest.get().max(doc.len()));
        words(doc)
    });
    assert_eq!(calls.get(), 1);
    assert_eq!(longest.get(), 0);
    index.insert_doc("one two".to_owned());
    assert_eq!(calls.get(), 2);
    assert_eq!(longest.get(), 7);
    assert_eq!(index.query(or("one", "two")), Ok(vec![1]));
    assert_eq!(calls.get(), 2);
}

#[test]
fn terms_compare_by_their_bytes() {
    let rank = |a: &str, b: &str| compare_terms(&a.to_owned(), &b.to_owned());
    assert_eq!(rank("", ""), Rank::Same);
    assert_eq!(rank("home", "home"), Rank::Same);
    assert_eq!(rank("", "a"), Rank::Before);
    assert_eq!(rank("a", ""), Rank::After);
    assert_eq!(rank("in", "increase"), Rank::Before);
    assert_eq!(rank("increase", "in"), Rank::After);
    assert_eq!(rank("home", "july"), Rank::Before);
    assert_eq!(rank("sales", "rise"), Rank::After);
    assert_eq!(rank("Zebra", "apple"), Rank::Before);
    assert_eq!(rank("z", "é"), Rank::Before);
    assert_eq!(rank("é", "e"), Rank::After);
    assert_eq!(rank("日本", "日本語"), Rank::Before);
    for (a, b) in [("in", "increase"), ("z", "é"), ("Zebra", "apple"), ("b", "ab"), ("", "x")] {
        let by_std = a.cmp(b);
        let by_rank = match rank(a, b) {
            Rank::Before => std::cmp::Ordering::Less,
            Rank::Same => std::cmp::Ordering::Equal,
            Rank::After => std::cmp::Ordering::Greater,
        };
        assert_eq!(by_std, by_rank);
    }
}

#[test]
fn term_map_keeps_first_number_and_order() {
    let mut map = TermMap::new();
    assert_eq!(map.len(), 0);
    assert_eq!(map.get(&"home".to_owned()), None);
    assert_eq!(map.get_or_insert("sales".to_owned(), 0), 0);
    assert_eq!(map.get_or_insert("home".to_owned(), 1), 1);
    assert_eq!(map.get_or_insert("top".to_owned(), 2), 2);
    assert_eq!(map.get_or_insert("home".to_owned(), 3), 1);
    assert_eq!(map.get_or_insert("new".to_owned(), 3), 3);
    assert_eq!(map.len(), 4);
    assert_eq!(map.get(&"home".to_owned()), Some(1));
    assert_eq!(map.get(&"new".to_owned()), Some(3));
    assert_eq!(map.get(&"sales".to_owned()), Some(0));
    assert_eq!(map.get(&"top".to_owned()), Some(2));
    assert_eq!(map.get(&"to".to_owned()), None);
    assert_eq!(map.get(&"".to_owned()), None);
    let in_order: Vec<(String, usize)> =
        (0..map.len()).map(|i| (map.term_at(i).clone(), map.slot_at(i))).collect();
    assert_eq!(
        in_order,
        vec![
            ("home".to_owned(), 1),
            ("new".to_owned(), 3),
            ("sales".to_owned(), 0),
            ("top".to_owned(), 2),
        ]
    );
}

#[test]
fn index_as_text() {
    let expected = "forecasts: 1\n\
                    home: 1, 2, 3, 4\n\
                    in: 2, 3\n\
                    increase: 3\n\
                    july: 2, 3, 4\n\
                    new: 1, 4\n\
                    rise: 2, 4\n\
                    sales: 1, 2, 3, 4\n\
                    top: 1\n";
    assert_eq!(seed().to_string(), expected);
    assert_eq!(InvertedIndex::new(words).to_string(), "");
}

#[test]
fn numbers_are_written_in_decimal() {
    let text = |n: usize| {
        let mut out = String::new();
        push_decimal(&mut out, n);
        out
    };
    assert_eq!(text(0), "0");
    assert_eq!(text(7), "7");
    assert_eq!(text(10), "10");
    assert_eq!(text(109), "109");
    assert_eq!(text(1234567890), "1234567890");
    assert_eq!(text(usize::MAX), usize::MAX.to_string());
    let mut out = "x".to_owned();
    push_decimal(&mut out, 42);
    assert_eq!(out, "x42");
}

#[test]
fn rows_are_written_as_lines() {
    let rows = vec![
        ("a".to_owned(), vec![1]),
        ("bc".to_owned(), vec![2, 30, 400]),
        ("".to_owned(), vec![]),
    ];
    assert_eq!(render(&rows), "a: 1\nbc: 2, 30, 400\n: \n");
    assert_eq!(render(&Vec::new()), "");
    let mut out = "ids ".to_owned();
    push_joined(&mut out, &vec![5, 6]);
    assert_eq!(out, "ids 5, 6");
}

#[test]
fn a_thousand_documents() {
    let mut index = InvertedIndex::new(words);
    for i in 0..1000usize {
        let mut text = String::from("all");
        if i % 2 == 0 {
            text.push_str(" even");
        }
        if i % 3 == 0 {
            text.push_str(" third");
        }
        index.insert_doc(text);
    }
    let both = index.query(and("even", "third")).unwrap();
    assert_eq!(both, (0..1000usize).filter(|i| i % 6 == 0).map(|i| i + 1).collect::<Vec<_>>());
    let either = index.query(or("even", "third")).unwrap();
    assert_eq!(
        either,
        (0..1000usize).filter(|i| i % 2 == 0 || i % 3 == 0).map(|i| i + 1).collect::<Vec<_>>()
    );
    let rest = index.query(and_not("all", "even")).unwrap();
    assert_eq!(rest, (0..1000usize).filter(|i| i % 2 == 1).map(|i| i + 1).collect::<Vec<_>>());
    assert_eq!(either.len(), 500 + 334 - both.len());
}
