use bipartite::cat_vs_dog::{conflict_graph, run_test_case};
use bipartite::text::{characters, is_space, parse_number, split_at_spaces, trim};
use bipartite::voter_input::{
    get_parameters, get_voter_list, read_pet, read_voter, Pet, Species,
};

fn chars(text: &str) -> Vec<char> {
    text.chars().collect()
}

fn lines(text: &[&str]) -> Vec<String> {
    text.iter().map(|line| line.to_string()).collect()
}

#[test]
fn characters_of_a_text() {
    assert_eq!(characters(""), Vec::<char>::new());
    assert_eq!(characters("C1 d"), vec!['C', '1', ' ', 'd']);
    assert_eq!(characters("\u{e9}\u{3000}x"), vec!['\u{e9}', '\u{3000}', 'x']);
}

#[test]
fn white_space_is_recognised() {
    for c in [' ', '\t', '\n', '\r', '\u{b}', '\u{c}', '\u{85}', '\u{a0}', '\u{2003}', '\u{3000}'] {
        assert!(is_space(c));
    }
    for c in ['a', '0', '_', '\u{8}', '\u{e}', '\u{200b}', '\u{2030}'] {
        assert!(!is_space(c));
    }
    for code in 0..0x3100u32 {
        if let Some(c) = char::from_u32(code) {
            assert_eq!(is_space(c), c.is_whitespace());
        }
    }
}

#[test]
fn trimming_removes_both_ends_only() {
    assert_eq!(trim(&chars("  C1 D2 \n")), chars("C1 D2"));
    assert_eq!(trim(&chars("C1  D2")), chars("C1  D2"));
    assert_eq!(trim(&chars(" \t\r\n")), chars(""));
    assert_eq!(trim(&chars("")), chars(""));
    assert_eq!(trim(&chars("x")), chars("x"));
    assert_eq!(trim(&chars("\u{a0}x y\u{2028}")), chars("x y"));
}

#[test]
fn splitting_keeps_empty_words() {
    assert_eq!(split_at_spaces(&chars("")), vec![chars("")]);
    assert_eq!(split_at_spaces(&chars("C1 D2")), vec![chars("C1"), chars("D2")]);
    assert_eq!(split_at_spaces(&chars("a  b")), vec![chars("a"), chars(""), chars("b")]);
    assert_eq!(split_at_spaces(&chars(" a ")), vec![chars(""), chars("a"), chars("")]);
    assert_eq!(split_at_spaces(&chars("a\tb")), vec![chars("a\tb")]);
}

#[test]
fn numbers_are_digits_only() {
    assert_eq!(parse_number(&chars("0")), Some(0));
    assert_eq!(parse_number(&chars("7")), Some(7));
    assert_eq!(parse_number(&chars("0042")), Some(42));
    assert_eq!(parse_number(&chars("500")), Some(500));
    assert_eq!(parse_number(&chars("")), None);
    assert_eq!(parse_number(&chars("+5")), None);
    assert_eq!(parse_number(&chars("-5")), None);
    assert_eq!(parse_number(&chars("5a")), None);
    assert_eq!(parse_number(&chars("1 2")), None);
    assert_eq!(parse_number(&chars("\u{663}")), None);
}

#[test]
fn numbers_must_fit_the_machine_word() {
    let largest = usize::MAX.to_string();
    assert_eq!(parse_number(&chars(&largest)), Some(usize::MAX));
    let mut beyond = chars(&largest);
    let last = beyond.len() - 1;
    beyond[last] = char::from_digit(beyond[last].to_digit(10).unwrap() + 1, 10).unwrap();
    assert_eq!(parse_number(&beyond), None);
    let mut longer = chars(&largest);
    longer.push('0');
    assert_eq!(parse_number(&longer), None);
    let mut padded = chars("000");
    padded.extend(chars(&largest));
    assert_eq!(parse_number(&padded), Some(usize::MAX));
}

#[test]
fn pets_are_a_letter_and_a_number() {
    assert_eq!(read_pet(&chars("C1"), 3, 5), Some(Pet { species: Species::Cat, number: 1 }));
    assert_eq!(read_pet(&chars("C3"), 3, 5), Some(Pet { species: Species::Cat, number: 3 }));
    assert_eq!(read_pet(&chars("D5"), 3, 5), Some(Pet { species: Species::Dog, number: 5 }));
    assert_eq!(read_pet(&chars("D04"), 3, 5), Some(Pet { species: Species::Dog, number: 4 }));
    assert_eq!(read_pet(&chars("C4"), 3, 5), None);
    assert_eq!(read_pet(&chars("D6"), 3, 5), None);
    assert_eq!(read_pet(&chars("C0"), 3, 5), None);
    assert_eq!(read_pet(&chars("C"), 3, 5), None);
    assert_eq!(read_pet(&chars(""), 3, 5), None);
    assert_eq!(read_pet(&chars("c1"), 3, 5), None);
    assert_eq!(read_pet(&chars("X1"), 3, 5), None);
    assert_eq!(read_pet(&chars("1C"), 3, 5), None);
    assert_eq!(read_pet(&chars("C1x"), 3, 5), None);
    assert_eq!(read_pet(&chars("C-1"), 3, 5), None);
    assert_eq!(read_pet(&chars("D1"), 3, 0), None);
}

#[test]
fn votes_name_one_pet_of_each_species() {
    let keep_cat = read_voter("C1 D2", 2, 2).unwrap();
    assert!(keep_cat.is_cat_person());
    let keep_dog = read_voter("  D2 C1\n", 2, 2).unwrap();
    assert!(!keep_dog.is_cat_person());
    assert!(!keep_cat.is_compatible(&keep_dog));
    assert!(!keep_dog.is_compatible(&keep_cat));

    assert!(read_voter("C1 C2", 2, 2).is_none());
    assert!(read_voter("D1 D2", 2, 2).is_none());
    assert!(read_voter("C1", 2, 2).is_none());
    assert!(read_voter("C1 D1 C2", 2, 2).is_none());
    assert!(read_voter("C1  D1", 2, 2).is_none());
    assert!(read_voter("C1\tD1", 2, 2).is_none());
    assert!(read_voter("", 2, 2).is_none());
    assert!(read_voter("C3 D1", 2, 2).is_none());
    assert!(read_voter("C1 D3", 2, 2).is_none());
    assert!(read_voter("C1 D0", 2, 2).is_none());
}

#[test]
fn compatible_voters() {
    let a = read_voter("C1 D1", 3, 3).unwrap();
    let b = read_voter("C2 D1", 3, 3).unwrap();
    let c = read_voter("D1 C2", 3, 3).unwrap();
    let d = read_voter("D2 C3", 3, 3).unwrap();
    let e = read_voter("D2 C1", 3, 3).unwrap();
    assert!(a.is_compatible(&a));
    assert!(a.is_compatible(&b));
    assert!(c.is_compatible(&d));
    assert!(!a.is_compatible(&c));
    assert!(!b.is_compatible(&c));
    assert!(a.is_compatible(&d));
    assert!(d.is_compatible(&a));
    assert!(!a.is_compatible(&e));
    assert!(!e.is_compatible(&a));
    assert!(b.is_compatible(&e));
}

#[test]
fn parameters_are_three_numbers() {
    assert_eq!(get_parameters("1 1 2"), Some((1, 1, 2)));
    assert_eq!(get_parameters("  100 100 500\n"), Some((100, 100, 500)));
    assert_eq!(get_parameters("7 0 0"), Some((7, 0, 0)));
    assert_eq!(get_parameters("1000 5 5"), Some((1000, 5, 5)));
    assert_eq!(get_parameters("3 4 5 6"), Some((3, 4, 5)));
}

#[test]
fn parameters_out_of_range_or_malformed() {
    assert_eq!(get_parameters("0 1 2"), None);
    assert_eq!(get_parameters("1 101 2"), None);
    assert_eq!(get_parameters("1 1 501"), None);
    assert_eq!(get_parameters("1 1"), None);
    assert_eq!(get_parameters(""), None);
    assert_eq!(get_parameters("1 1 x"), None);
    assert_eq!(get_parameters("1  1 2"), None);
    assert_eq!(get_parameters("1 1 2 x"), None);
    assert_eq!(get_parameters("1\t1\t2"), None);
    assert_eq!(get_parameters("-1 1 2"), None);
    assert_eq!(get_parameters("1 1 99999999999999999999999999"), None);
}

#[test]
fn voters_are_parted_by_favorite() {
    let input = lines(&["C1 D1", "nonsense", "D1 C1", "D2 C2", "C2 D2", "C1 D2"]);
    let (cat_lovers, dog_lovers) = get_voter_list(&input, 2, 2, 4);
    assert_eq!(cat_lovers.len(), 2);
    assert_eq!(dog_lovers.len(), 2);
    assert!(cat_lovers.iter().all(|voter| voter.is_cat_person()));
    assert!(dog_lovers.iter().all(|voter| !voter.is_cat_person()));
    let first_cat = read_voter("C1 D1", 2, 2).unwrap();
    let second_cat = read_voter("C2 D2", 2, 2).unwrap();
    let probe = read_voter("D1 C2", 2, 2).unwrap();
    assert_eq!(cat_lovers[0].is_compatible(&probe), first_cat.is_compatible(&probe));
    assert_eq!(cat_lovers[1].is_compatible(&probe), second_cat.is_compatible(&probe));
    assert!(!cat_lovers[0].is_compatible(&dog_lovers[0]));
    assert!(cat_lovers[0].is_compatible(&dog_lovers[1]));
    assert!(cat_lovers[1].is_compatible(&dog_lovers[0]));
    assert!(!cat_lovers[1].is_compatible(&dog_lovers[1]));
}

#[test]
fn voter_list_stops_at_the_wanted_number() {
    let input = lines(&["C1 D1", "C1 D1", "D1 C1"]);
    let (cat_lovers, dog_lovers) = get_voter_list(&input, 1, 1, 2);
    assert_eq!((cat_lovers.len(), dog_lovers.len()), (2, 0));
    let (cat_lovers, dog_lovers) = get_voter_list(&input, 1, 1, 0);
    assert_eq!((cat_lovers.len(), dog_lovers.len()), (0, 0));
    let (cat_lovers, dog_lovers) = get_voter_list(&input, 1, 1, 10);
    assert_eq!((cat_lovers.len(), dog_lovers.len()), (2, 1));
    let (cat_lovers, dog_lovers) = get_voter_list(&lines(&[]), 1, 1, 10);
    assert_eq!((cat_lovers.len(), dog_lovers.len()), (0, 0));
}

#[test]
fn conflicts_join_cat_lovers_and_dog_lovers() {
    let input = lines(&["C1 D1", "C1 D2", "D2 C1", "D1 C2"]);
    let (cat_lovers, dog_lovers) = get_voter_list(&input, 2, 2, 4);
    let graph = conflict_graph(&cat_lovers, &dog_lovers);
    assert_eq!(graph.dimensions(), (2, 2));
    assert!(graph.has_edge(0, 0));
    assert!(graph.has_edge(0, 1));
    assert!(graph.has_edge(1, 0));
    assert!(!graph.has_edge(1, 1));
    assert_eq!(graph.get_max_matching_size(), 2);
}

#[test]
fn two_opposed_voters() {
    assert_eq!(run_test_case(&lines(&["C1 D1", "D1 C1"]), 1, 1, 2), 1);
}

#[test]
fn three_of_four_voters() {
    let input = lines(&["C1 D1", "C1 D1", "C1 D2", "D2 C1"]);
    assert_eq!(run_test_case(&input, 1, 2, 4), 3);
}

#[test]
fn show_without_conflicts_or_without_voters() {
    assert_eq!(run_test_case(&lines(&["C1 D1", "C2 D1", "D2 C3"]), 3, 2, 3), 3);
    assert_eq!(run_test_case(&lines(&[]), 1, 1, 0), 0);
    assert_eq!(run_test_case(&lines(&["C1 D1", "D1 C1"]), 1, 1, 0), 0);
    assert_eq!(run_test_case(&lines(&["bad", "C1 D1", "worse", "D1 C1"]), 1, 1, 1), 1);
}
