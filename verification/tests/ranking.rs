use grafik::ranking::{is_ahead, least_beyond, rank_all, Key3, Ranked};
use grafik::text::{push_decimal, push_signed, push_two_digits, read_digit, text_order};

fn keys(raw: &[(i64, i64, i64)]) -> Vec<Key3> {
    raw.iter().map(|&(a, b, c)| Key3 { a, b, c }).collect()
}

#[test]
fn keys_are_ordered_lexicographically() {
    let k = keys(&[(1, 5, 0), (1, 4, 9), (0, 9, 9), (1, 4, 9)]);
    assert!(k[1].comes_before(&k[0]));
    assert!(k[2].comes_before(&k[1]));
    assert!(!k[1].comes_before(&k[3]));
    assert!(!k[3].comes_before(&k[1]));
    assert!(is_ahead(&k, 1, 3));
    assert!(!is_ahead(&k, 3, 1));
    assert!(!is_ahead(&k, 1, 1));
}

#[test]
fn the_least_position_above_the_floor_is_found() {
    let k = keys(&[(3, 0, 0), (1, 0, 0), (2, 0, 0), (1, 0, 0), (0, 0, 0)]);
    let ok = vec![true, true, true, true, false];
    assert_eq!(least_beyond(&k, &ok, None), Some(1));
    assert_eq!(least_beyond(&k, &ok, Some(1)), Some(3));
    assert_eq!(least_beyond(&k, &ok, Some(3)), Some(2));
    assert_eq!(least_beyond(&k, &ok, Some(2)), Some(0));
    assert_eq!(least_beyond(&k, &ok, Some(0)), None);
    assert_eq!(least_beyond(&k, &ok, Some(4)), Some(1));
    assert_eq!(least_beyond(&k, &vec![false; 5], None), None);
    assert_eq!(least_beyond(&Vec::<Key3>::new(), &vec![], None), None);
}

#[test]
fn the_chosen_positions_are_listed_in_order() {
    let k = keys(&[(3, 0, 0), (1, 0, 0), (2, 0, 0), (1, 0, 0), (0, 0, 0)]);
    assert_eq!(rank_all(&k, &vec![true, true, true, true, false]), vec![1, 3, 2, 0]);
    assert_eq!(rank_all(&k, &vec![true; 5]), vec![4, 1, 3, 2, 0]);
    assert_eq!(rank_all(&k, &vec![false; 5]), Vec::<usize>::new());
}

#[test]
fn numbers_are_written_in_decimal() {
    let mut s = String::from("n=");
    push_decimal(&mut s, 0);
    s.push(' ');
    push_decimal(&mut s, 7);
    s.push(' ');
    push_decimal(&mut s, 10);
    s.push(' ');
    push_decimal(&mut s, 1234567890);
    s.push(' ');
    push_decimal(&mut s, u64::MAX);
    s.push(' ');
    push_signed(&mut s, -1);
    s.push(' ');
    push_signed(&mut s, i64::MAX);
    s.push(' ');
    push_signed(&mut s, i64::MIN);
    s.push(' ');
    push_two_digits(&mut s, 5);
    push_two_digits(&mut s, 99);
    assert_eq!(s, "n=0 7 10 1234567890 18446744073709551615 -1 9223372036854775807 -9223372036854775808 0599");
}

#[test]
fn digits_are_read() {
    assert_eq!(read_digit('0'), Some(0));
    assert_eq!(read_digit('9'), Some(9));
    assert_eq!(read_digit('/'), None);
    assert_eq!(read_digit(':'), None);
    assert_eq!(read_digit('٣'), None);
}

#[test]
fn strings_compare_as_their_bytes_do() {
    assert_eq!(text_order("", ""), 0);
    assert_eq!(text_order("", "a"), -1);
    assert_eq!(text_order("a", ""), 1);
    assert_eq!(text_order("abc", "abd"), -1);
    assert_eq!(text_order("abc", "ab"), 1);
    assert_eq!(text_order("Nowak", "Nowak"), 0);
    assert_eq!(text_order("Zielona", "Ćwik"), -1);
    assert_eq!(text_order("2024-01-09", "2024-01-10"), -1);
    for (a, b) in [("Łoś", "Zima"), ("a", "B"), ("é", "z"), ("", " ")] {
        let expected = match a.cmp(b) {
            std::cmp::Ordering::Less => -1,
            std::cmp::Ordering::Equal => 0,
            std::cmp::Ordering::Greater => 1,
        };
        assert_eq!(text_order(a, b), expected);
    }
}
