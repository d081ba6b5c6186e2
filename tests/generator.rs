use dicgen::{sorted_alphabet, DictionaryGenerator, DictionaryGeneratorError};

fn drain(g: &mut DictionaryGenerator) -> Vec<String> {
    let mut out = Vec::new();
    while let Some(v) = g.next() {
        out.push(v);
    }
    out
}

#[test]
fn explicit_start_sequence() {
    let mut g = DictionaryGenerator::new("abc", "b", "ab").unwrap();
    assert_eq!(g.next(), Some("b".to_string()));
    assert_eq!(g.next(), Some("c".to_string()));
    assert_eq!(g.next(), Some("aa".to_string()));
    assert_eq!(g.next(), Some("ab".to_string()));
    assert_eq!(g.next(), None);
}

#[test]
fn implicit_start_sequence() {
    let mut g = DictionaryGenerator::new_from_start("abc", "ab").unwrap();
    assert_eq!(g.next(), Some("a".to_string()));
    assert_eq!(g.next(), Some("b".to_string()));
    assert_eq!(g.next(), Some("c".to_string()));
    assert_eq!(g.next(), Some("aa".to_string()));
    assert_eq!(g.next(), Some("ab".to_string()));
    assert_eq!(g.next(), None);
}

#[test]
fn implicit_start_uses_smallest_symbol() {
    let mut g = DictionaryGenerator::new_from_start("cba", "b").unwrap();
    assert_eq!(drain(&mut g), vec!["a", "b"]);
}

#[test]
fn unsorted_alphabet_with_duplicates() {
    let mut g = DictionaryGenerator::new("cabca", "b", "ab").unwrap();
    assert_eq!(drain(&mut g), vec!["b", "c", "aa", "ab"]);
    assert_eq!(sorted_alphabet("cabca"), vec!['a', 'b', 'c']);
    assert_eq!(sorted_alphabet(""), Vec::<char>::new());
}

#[test]
fn empty_alphabet_is_refused() {
    assert!(matches!(
        DictionaryGenerator::new("", "", ""),
        Err(DictionaryGeneratorError::AlphabetEmpty)
    ));
    assert!(matches!(
        DictionaryGenerator::new_from_start("", ""),
        Err(DictionaryGeneratorError::AlphabetEmpty)
    ));
    assert!(matches!(
        DictionaryGenerator::new("", "a", "b"),
        Err(DictionaryGeneratorError::AlphabetEmpty)
    ));
    assert!(matches!(
        DictionaryGenerator::new_from_start("", "ab"),
        Err(DictionaryGeneratorError::AlphabetEmpty)
    ));
}

#[test]
fn deduplicated_alphabet_sequence() {
    let mut g = DictionaryGenerator::new("cbaac", "a", "ba").unwrap();
    assert_eq!(drain(&mut g), vec!["a", "b", "c", "aa", "ab", "ac", "ba"]);
}

#[test]
fn decoration_round_trip_buffer_form() {
    let mut g = DictionaryGenerator::new("01", "0", "1")
        .unwrap()
        .with_prefix("P-")
        .with_suffix("-S");
    let mut small = [0u8; 5];
    assert!(matches!(g.read(&mut small), Err(DictionaryGeneratorError::BufferTooSmall)));
    assert_eq!(small, [0u8; 5]);
    let mut buf = [0u8; 16];
    assert_eq!(g.read(&mut buf).unwrap(), 6);
    assert_eq!(&buf[..6], b"P-0-S\n");
    assert_eq!(g.read(&mut buf).unwrap(), 6);
    assert_eq!(&buf[..6], b"P-1-S\n");
    assert_eq!(g.read(&mut buf).unwrap(), 0);
}

#[test]
fn exhaustion_is_final() {
    let mut g = DictionaryGenerator::new("ab", "b", "b").unwrap();
    assert_eq!(g.next(), Some("b".to_string()));
    assert_eq!(g.next(), None);
    assert_eq!(g.next(), None);
    let mut buf = [7u8; 8];
    assert_eq!(g.read(&mut buf).unwrap(), 0);
    assert_eq!(buf, [7u8; 8]);
    let mut s = String::from("old");
    assert_eq!(g.next_in(&mut s), None);
    assert_eq!(s, "");
    assert_eq!(g.size_hint(), (0, Some(0)));
}

#[test]
fn carry_grows_length() {
    let mut g = DictionaryGenerator::new("xyz", "zz", "xxx").unwrap();
    assert_eq!(drain(&mut g), vec!["zz", "xxx"]);
    let mut g = DictionaryGenerator::new("ab", "ab", "bab").unwrap();
    let all = drain(&mut g);
    assert_eq!(all, vec!["ab", "ba", "bb", "aaa", "aab", "aba", "abb", "baa", "bab"]);
    for w in all.windows(2) {
        assert!(w[1].len() >= w[0].len());
    }
}

#[test]
fn single_symbol_alphabet() {
    let mut g = DictionaryGenerator::new_from_start("0", "0000").unwrap();
    assert_eq!(drain(&mut g), vec!["0", "00", "000", "0000"]);
}

#[test]
fn empty_start_value() {
    let mut g = DictionaryGenerator::new("ab", "", "a").unwrap();
    assert_eq!(drain(&mut g), vec!["", "a"]);
}

#[test]
fn step_count_matches_distance() {
    // Over ten digits, "000" comes 1000 + 100 + 10 places after "0".
    let mut g = DictionaryGenerator::new("0123456789", "00000", "99999").unwrap();
    assert_eq!(drain(&mut g).len(), 100000);
    let mut g = DictionaryGenerator::new("0123456789", "0", "000").unwrap();
    assert_eq!(drain(&mut g).len(), 111);
}

#[test]
fn decoration_round_trip() {
    let mut g = DictionaryGenerator::new("01", "0", "1")
        .unwrap()
        .with_prefix("P-")
        .with_suffix("-S");
    assert_eq!(g.next(), Some("P-0-S".to_string()));
    assert_eq!(g.next(), Some("P-1-S".to_string()));
    assert_eq!(g.next(), None);
}

#[test]
fn empty_decoration_is_no_decoration() {
    let mut g = DictionaryGenerator::new("01", "0", "1")
        .unwrap()
        .with_prefix("")
        .with_suffix("");
    assert_eq!(drain(&mut g), vec!["0", "1"]);
    let mut g = DictionaryGenerator::new("01", "0", "1")
        .unwrap()
        .with_prefix("<")
        .with_prefix("");
    assert_eq!(drain(&mut g), vec!["<0", "<1"]);
}

#[test]
fn next_in_reuses_buffer() {
    let mut g = DictionaryGenerator::new("abc", "c", "aa").unwrap().with_suffix("!");
    let mut s = String::from("leftover");
    assert_eq!(g.next_in(&mut s), Some(()));
    assert_eq!(s, "c!");
    assert_eq!(g.next_in(&mut s), Some(()));
    assert_eq!(s, "aa!");
    assert_eq!(g.next_in(&mut s), None);
}

#[test]
fn buffer_and_string_forms_agree() {
    let mut a = DictionaryGenerator::new("aé€😀", "a", "😀a")
        .unwrap()
        .with_prefix("«")
        .with_suffix("»");
    let mut b = DictionaryGenerator::new("aé€😀", "a", "😀a")
        .unwrap()
        .with_prefix("«")
        .with_suffix("»");
    let mut buf = [0u8; 64];
    let mut count = 0;
    loop {
        let s = a.next();
        let n = b.read(&mut buf).unwrap();
        match s {
            Some(s) => {
                let mut expected = s.into_bytes();
                expected.push(b'\n');
                assert_eq!(&buf[..n], &expected[..]);
                count += 1;
            }
            None => {
                assert_eq!(n, 0);
                break;
            }
        }
    }
    // four one-symbol values, then "aa" through "😀a"
    assert_eq!(count, 17);
}

#[test]
fn read_writes_record() {
    let mut g = DictionaryGenerator::new("ab", "ba", "bb").unwrap().with_prefix("[").with_suffix("]");
    let mut buf = [b'.'; 8];
    assert_eq!(g.read(&mut buf).unwrap(), 5);
    assert_eq!(&buf, b"[ba]\n...");
    assert_eq!(g.read(&mut buf).unwrap(), 5);
    assert_eq!(&buf, b"[bb]\n...");
    assert_eq!(g.read(&mut buf).unwrap(), 0);
}

#[test]
fn buffer_too_small_by_one_byte() {
    let mut g = DictionaryGenerator::new("ab", "ab", "bb").unwrap().with_prefix("P-").with_suffix("-S");
    // "P-ab-S\n" takes seven bytes.
    let mut small = [0u8; 6];
    assert!(matches!(g.read(&mut small), Err(DictionaryGeneratorError::BufferTooSmall)));
    assert_eq!(small, [0u8; 6]);
    let mut exact = [0u8; 7];
    assert_eq!(g.read(&mut exact).unwrap(), 7);
    assert_eq!(&exact, b"P-ab-S\n");
}

#[test]
fn buffer_too_small_leaves_state() {
    let mut g = DictionaryGenerator::new("ab", "a", "b").unwrap();
    let mut empty: [u8; 0] = [];
    assert!(matches!(g.read(&mut empty), Err(DictionaryGeneratorError::BufferTooSmall)));
    assert_eq!(g.next(), Some("a".to_string()));
}

#[test]
fn size_hint_values() {
    let mut g = DictionaryGenerator::new("abc", "b", "ab").unwrap();
    // lengths 1 and 2 over three symbols: 3 + 9
    assert_eq!(g.size_hint(), (1, Some(12)));
    let mut last = 12;
    while g.next().is_some() {
        let (lo, hi) = g.size_hint();
        let hi = hi.unwrap();
        assert!(hi <= last);
        last = hi;
        if lo == 0 {
            assert_eq!(hi, 0);
        }
    }
    assert_eq!(g.size_hint(), (0, Some(0)));
    let g = DictionaryGenerator::new("0123456789", "0", "00000").unwrap();
    assert_eq!(g.size_hint(), (1, Some(111110)));
}

#[test]
fn size_hint_saturates() {
    let g = DictionaryGenerator::new("0123456789", "0", "0000000000000000000000000").unwrap();
    assert_eq!(g.size_hint(), (1, Some(usize::MAX)));
}

#[test]
fn reset_moves_current_value() {
    let mut g = DictionaryGenerator::new("abc", "a", "b").unwrap().with_prefix("-");
    assert_eq!(g.next(), Some("-a".to_string()));
    g.reset_starting_in("c");
    assert_eq!(g.next(), Some("-c".to_string()));
    g.reset_starting_in("a");
    assert_eq!(drain(&mut g), vec!["-a", "-b"]);
    g.reset_starting_in("b");
    assert_eq!(drain(&mut g), vec!["-b"]);
}

#[test]
fn error_messages() {
    assert_eq!(
        DictionaryGeneratorError::AlphabetEmpty.message(),
        "Alphabet is empty, then combinations can't be generated"
    );
    assert_eq!(DictionaryGeneratorError::BufferTooSmall.message(), "Buffer is too small");
}
