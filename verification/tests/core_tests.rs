use docsearch::equals;
use docsearch::high;
use docsearch::key_distance;
use docsearch::low;
use docsearch::strcmp;
use docsearch::strcmp_base;
use docsearch::strcmp_caseless;
use docsearch::strcmp_part;
use docsearch::strcmp_part_base;
use docsearch::strcmp_part_simd;
use docsearch::strcmp_simd;
use docsearch::strdiff;

#[test]
fn strcmp_succeeds_on_match() {
    assert!(
        strcmp(
            &"Duis blandit enim magnis lacus, proin quis aliquam interdum primis laoreet!"
                .to_owned(),
            &"Duis blandit enim magnis lacus, proin quis aliquam interdum primis laoreet!"
                .to_owned(),
        ) == true
    );
}

#[test]
fn strcmp_fails_on_non_match() {
    assert!(
        strcmp(
            &"Duis blandit enim magnis lacus, proin quis aliquam interdum primis laoreet!"
                .to_owned(),
            &"Duis blandit enim paucis lacus, proin quis aliquam interdum primis laoreet!"
                .to_owned(),
        ) == false
    );
}

#[test]
fn succeeds_on_match() {
    assert!(strcmp_part(&"crate".to_owned(), &"socrates".to_owned()));
}

#[test]
fn fails_on_non_match() {
    assert!(!strcmp_part(&"crate".to_owned(), &"diogenes".to_owned()));
}

#[test]
fn succeeds_on_match_2() {
    assert!(strcmp_part(&"rust".to_owned(), &"untrusting".to_owned()));
}

#[test]
fn calculates_diff_correctly() {
    assert_eq!(
        strdiff(&"enim magnis lacus".to_owned(), &"emin magnis lacus".to_owned()),
        2
    );
}

fn chars(s: &str) -> Vec<char> {
    s.chars().collect()
}

#[test]
fn partial_match_agrees_on_both_paths() {
    let cases = [
        ("rust", "untrusting", true),
        ("crate", "socrates", true),
        ("crate", "diogenes", false),
        ("", "anything", true),
        ("longer", "long", false),
        ("abc", "abc", true),
    ];
    for (part, whole, expected) in cases {
        let p = chars(part);
        let w = chars(whole);
        assert_eq!(strcmp_part_base(&p, &w), expected);
        assert_eq!(strcmp_part_simd(&p, &w), expected);
    }
}

#[test]
fn exact_match_agrees_on_both_paths() {
    // Lengths around the batching boundaries.
    let lengths = [0usize, 1, 7, 8, 31, 32, 33, 64, 100];
    for n in lengths {
        let a: Vec<char> = std::iter::repeat('x').take(n).collect();
        let mut b = a.clone();
        assert_eq!(strcmp_base(&a, &b), true);
        assert_eq!(strcmp_simd(&a, &b), true);
        if n > 0 {
            b[n - 1] = 'y';
            assert_eq!(strcmp_base(&a, &b), false);
            assert_eq!(strcmp_simd(&a, &b), false);
            b[n - 1] = 'x';
            b[0] = 'y';
            assert_eq!(strcmp_base(&a, &b), false);
            assert_eq!(strcmp_simd(&a, &b), false);
        }
    }
}

#[test]
fn strdiff_counts_length_difference() {
    assert_eq!(strdiff(&"abc".to_owned(), &"abcdef".to_owned()), 3);
    assert_eq!(strdiff(&"".to_owned(), &"xyz".to_owned()), 3);
    assert_eq!(strdiff(&"same".to_owned(), &"same".to_owned()), 0);
    assert_eq!(strdiff(&"axc".to_owned(), &"abc".to_owned()), 1);
}

#[test]
fn caseless_comparison_folds_ascii_only() {
    assert_eq!(strcmp_caseless('A', 'a'), Some(true));
    assert_eq!(strcmp_caseless('z', 'Z'), Some(true));
    assert_eq!(strcmp_caseless('a', 'b'), Some(false));
    assert_eq!(strcmp_caseless('7', '7'), Some(true));
    // No non-ASCII folding: these differ under raw equality.
    assert_eq!(strcmp_caseless('\u{e9}', '\u{c9}'), Some(false));
}

#[test]
fn keyboard_distance_is_manhattan_on_the_grid() {
    assert_eq!(key_distance('q', 'w'), Some(1));
    assert_eq!(key_distance('q', 'q'), Some(0));
    assert_eq!(key_distance('q', 'm'), Some(8));
    assert_eq!(key_distance('Q', 'w'), Some(1));
    assert_eq!(key_distance('a', 'z'), Some(1));
    assert_eq!(key_distance('1', 'q'), None);
}

#[test]
fn identifier_lanes_and_equality() {
    let n: u128 = (2u128 << 64) | 3u128;
    assert_eq!(high(n), 2u64);
    assert_eq!(low(n), 3u64);
    assert!(equals(n, n));
    assert!(!equals(n, n + 1));
    let a: u128 = u128::MAX;
    let b: u128 = u128::MAX - (1u128 << 100);
    assert!(!equals(a, b));
    assert!(equals(0, 0));
}
