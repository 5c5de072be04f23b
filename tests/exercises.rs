use balancebeam::diff::{diff_lines, lcs, DiffLine};
use balancebeam::parallel::order_by_index;
use balancebeam::grid::Grid;
use balancebeam::hangman::{get_prompt_word, guess_check};
use balancebeam::linked_list::LinkedList;
use balancebeam::warmup::{add_n, add_n_inplace, dedup};
use balancebeam::wc::{count_chars, count_lines, count_words};

#[test]
fn test_add_n() {
    assert_eq!(add_n(vec![1], 2), vec![3]);
}

#[test]
fn test_add_n_inplace() {
    let mut v = vec![1];
    add_n_inplace(&mut v, 2);
    assert_eq!(v, vec![3]);
}

#[test]
fn test_dedup() {
    let mut v = vec![3, 1, 0, 1, 4, 4];
    dedup(&mut v);
    assert_eq!(v, vec![3, 1, 0, 4]);
}

#[test]
fn dedup_of_empty_and_distinct() {
    let mut empty: Vec<i32> = vec![];
    dedup(&mut empty);
    assert_eq!(empty, Vec::<i32>::new());
    let mut v = vec![5, -2, 7];
    dedup(&mut v);
    assert_eq!(v, vec![5, -2, 7]);
    let mut same = vec![9, 9, 9];
    dedup(&mut same);
    assert_eq!(same, vec![9]);
}

#[test]
fn add_n_negative() {
    assert_eq!(add_n(vec![10, -10, 0], -3), vec![7, -13, -3]);
}

#[test]
fn foo() {
    let mut s = String::from("hello");
    let ref1 = &s;
    let ref2 = &ref1;
    let ref3 = &ref2;
    println!("{}", ref3.to_uppercase());
    s = String::from("goodbye");
    println!("{}", s.to_uppercase());
}

#[test]
fn bar() {
    let s1 = String::from("hello");
    let mut v = Vec::new();
    v.push(s1);
    let s2: String = v[0].clone();
    println!("{}", s2);
}

#[test]
fn prompt_word_hides_unguessed() {
    let secret: Vec<char> = "rust".chars().collect();
    let flags = vec![true, false, false, true];
    assert_eq!(get_prompt_word(&flags, &secret), "r--t");
    assert_eq!(get_prompt_word(&vec![], &vec![]), "");
}

#[test]
fn guess_reveals_every_occurrence() {
    let secret: Vec<char> = "banana".chars().collect();
    let mut flags = vec![false; 6];
    assert!(guess_check(&mut flags, &secret, 'a'));
    assert_eq!(flags, vec![false, true, false, true, false, true]);
    assert!(!guess_check(&mut flags, &secret, 'a'));
    assert!(!guess_check(&mut flags, &secret, 'z'));
    assert_eq!(get_prompt_word(&flags, &secret), "-a-a-a");
}

#[test]
fn word_line_and_byte_counts() {
    let lines = vec![
        String::from("  hello   world "),
        String::from(""),
        String::from("one\ttwo\u{3000}three"),
        String::from("héllo"),
    ];
    assert_eq!(count_words(&lines), 6);
    assert_eq!(count_lines(&lines), 4);
    assert_eq!(count_chars(&lines), 16 + 0 + 15 + 6);
    assert_eq!(count_words(&vec![]), 0);
}

#[test]
fn test_lcs() {
    let mut expected = Grid::new(5, 4);
    expected.set(1, 1, 1).unwrap();
    expected.set(1, 2, 1).unwrap();
    expected.set(1, 3, 1).unwrap();
    expected.set(2, 1, 1).unwrap();
    expected.set(2, 2, 1).unwrap();
    expected.set(2, 3, 2).unwrap();
    expected.set(3, 1, 1).unwrap();
    expected.set(3, 2, 1).unwrap();
    expected.set(3, 3, 2).unwrap();
    expected.set(4, 1, 1).unwrap();
    expected.set(4, 2, 2).unwrap();
    expected.set(4, 3, 2).unwrap();

    let result = lcs(
        &"abcd".chars().map(|c| c.to_string()).collect(),
        &"adb".chars().map(|c| c.to_string()).collect(),
    );
    assert_eq!(result.size(), expected.size());
    for row in 0..expected.size().0 {
        for col in 0..expected.size().1 {
            assert_eq!(result.get(row, col), expected.get(row, col));
        }
    }
}

#[test]
fn grid_bounds() {
    let mut g = Grid::new(2, 3);
    assert_eq!(g.size(), (2, 3));
    assert_eq!(g.get(1, 2), Some(0));
    assert!(g.set(1, 2, 7).is_ok());
    assert_eq!(g.get(1, 2), Some(7));
    assert_eq!(g.get(2, 0), None);
    assert!(g.set(0, 3, 1).is_err());
}

fn sample_list() -> LinkedList<i32> {
    let mut l1: LinkedList<i32> = LinkedList::new();
    l1.push_front(1);
    l1.push_front(2);
    l1.push_front(4);
    l1.push_front(2);
    l1
}

#[test]
fn test_clone() {
    let l1 = sample_list();
    let l2 = l1.clone();
    println!("size: {} values: {:?}\nsize: {} values: {:?}\n", l1.get_size(), l1, l2.get_size(), l2);
    assert_eq!(l1.get_size(), l2.get_size());
}

#[test]
fn test_euqal() {
    let l1 = sample_list();
    let l2 = l1.clone();
    assert_eq!(l1, l2);
}

#[test]
fn lists_of_different_length_differ() {
    let l1 = sample_list();
    let mut l2 = l1.clone();
    l2.push_front(3);
    assert_ne!(l1, l2);
}

#[test]
fn test_iter() {
    let l1 = sample_list();
    let mut vec1 = vec![];
    let mut vec2 = vec![];
    let mut it = l1.iter();
    while let Some(v) = it.next() {
        vec1.push(*v);
    }
    let mut it = l1.iter();
    while let Some(v) = it.next() {
        vec2.push(*v);
    }
    assert_eq!(vec1, vec2);
    assert_eq!(vec1, vec![2, 4, 2, 1]);
}

#[test]
fn test_into_iter() {
    let l1 = sample_list();
    let mut vec1 = vec![];
    let vec2: Vec<i32> = vec![];
    let mut it = l1.into_iter();
    while let Some(v) = it.next() {
        vec1.push(v);
    }
    assert_ne!(vec1, vec2);
    println!("vec1: {:?}\nvec2: {:?}", vec1, vec2);
}

#[test]
fn push_and_pop_front() {
    let mut l: LinkedList<i32> = LinkedList::new();
    assert!(l.is_empty());
    assert_eq!(l.pop_front(), None);
    l.push_front(5);
    l.push_front(6);
    assert_eq!(l.get_size(), 2);
    assert_eq!(l.pop_front(), Some(6));
    assert_eq!(l.pop_front(), Some(5));
    assert_eq!(l.pop_front(), None);
    assert!(l.is_empty());
}

fn lines(text: &str) -> Vec<String> {
    text.chars().map(|c| c.to_string()).collect()
}

#[test]
fn diff_walks_the_table() {
    let a = lines("abcd");
    let b = lines("adb");
    let table = lcs(&a, &b);
    assert_eq!(
        diff_lines(&table, &a, &b),
        vec![
            DiffLine::Both(0),
            DiffLine::OnlyFirst(1),
            DiffLine::OnlyFirst(2),
            DiffLine::Both(3),
            DiffLine::OnlySecond(2),
        ]
    );
    let empty: Vec<String> = vec![];
    let table = lcs(&empty, &b);
    assert_eq!(
        diff_lines(&table, &empty, &b),
        vec![DiffLine::OnlySecond(0), DiffLine::OnlySecond(1), DiffLine::OnlySecond(2)]
    );
    let table = lcs(&a, &a);
    assert_eq!(
        diff_lines(&table, &a, &a),
        vec![DiffLine::Both(0), DiffLine::Both(1), DiffLine::Both(2), DiffLine::Both(3)]
    );
}

#[test]
fn results_return_to_input_order() {
    let tagged = vec![(30, 2), (10, 0), (40, 3), (20, 1)];
    assert_eq!(order_by_index(tagged, 4), vec![10, 20, 30, 40]);
    let none: Vec<(String, usize)> = vec![];
    assert_eq!(order_by_index(none, 0), Vec::<String>::new());
}

#[test]
fn long_list_drops_without_deep_recursion() {
    let mut l: LinkedList<u32> = LinkedList::new();
    for k in 0..1_000_000u32 {
        l.push_front(k);
    }
    assert_eq!(l.get_size(), 1_000_000);
    drop(l);
}
