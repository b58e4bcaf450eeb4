use randstream::encoding::parse_words;
use randstream::encoding::serialize_words;
use randstream::xorshift::advance;
use randstream::xorshift::fill_words;

#[test]
fn golden_first_word() {
    // Seeding with 1 pins the exact shift amounts (12, 25, 27) and the
    // multiplier: the first advance and output word are fixed forever.
    let (state, word) = advance(1);
    assert_eq!(state, 0x2000001);
    assert_eq!(word, 5180492295206395165);
}

#[test]
fn golden_word_sequence() {
    let (words, state) = fill_words(1, 2);
    assert_eq!(words, vec![5180492295206395165u64, 12380297144915551517u64]);
    // The state handed back is the one that produced the last word, advanced.
    let (s1, _) = advance(1);
    let (s2, w2) = advance(s1);
    assert_eq!(state, s2);
    assert_eq!(w2, 12380297144915551517u64);
}

#[test]
fn fill_words_matches_single_advances() {
    let seed: u64 = 0x9e3779b97f4a7c15;
    let (words, _) = fill_words(seed, 5);
    let mut s: u64 = seed;
    for i in 0..5usize {
        let (next, w) = advance(s);
        s = next;
        assert_eq!(words[i], w);
    }
}

#[test]
fn le_byte_order_is_fixed() {
    let bytes = serialize_words(&vec![0x0102030405060708u64]);
    assert_eq!(bytes, vec![8u8, 7, 6, 5, 4, 3, 2, 1]);
}

#[test]
fn parse_known_bytes() {
    let bytes = vec![29u8, 221, 108, 137, 75, 206, 228, 71];
    assert_eq!(parse_words(&bytes), vec![5180492295206395165u64]);
}

#[test]
fn round_trip_words_to_bytes() {
    let words = vec![0u64, 1, u64::MAX, 5180492295206395165];
    let bytes = serialize_words(&words);
    assert_eq!(bytes.len(), 8 * words.len());
    assert_eq!(parse_words(&bytes), words);
}

#[test]
fn empty_buffers() {
    assert!(serialize_words(&Vec::new()).is_empty());
    assert!(parse_words(&Vec::new()).is_empty());
    let (words, state) = fill_words(7, 0);
    assert!(words.is_empty());
    assert_eq!(state, 7);
}
