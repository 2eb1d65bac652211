use bndm::{find_pattern, BndmConfig};

const FOX: &[u8] = b"The quick brown fox jumps over the lazy dog";

fn search(source: &[u8], pattern: &[u8], wildcard: Option<u8>) -> Option<usize> {
    let config = BndmConfig::new(pattern, wildcard);
    find_pattern(source, &config)
}

fn naive(source: &[u8], pattern: &[u8], wildcard: Option<u8>) -> Option<usize> {
    if pattern.is_empty() {
        return None;
    }
    if pattern.len() == 1 && wildcard == Some(pattern[0]) {
        return Some(0);
    }
    if pattern.len() > source.len() {
        return None;
    }
    (0..=source.len() - pattern.len()).find(|&i| {
        pattern
            .iter()
            .enumerate()
            .all(|(k, &b)| Some(b) == wildcard || source[i + k] == b)
    })
}

struct Lcg(u64);

impl Lcg {
    fn next(&mut self) -> u64 {
        self.0 = self.0.wrapping_mul(6364136223846793005).wrapping_add(1442695040888963407);
        self.0 >> 33
    }

    fn byte(&mut self, alphabet: u8) -> u8 {
        b'a' + (self.next() % alphabet as u64) as u8
    }
}

#[test]
fn finds_plain_word() {
    assert_eq!(search(FOX, b"jumps", None), Some(20));
}

#[test]
fn finds_word_with_wildcards() {
    assert_eq!(search(FOX, b"ju??s", Some(b'?')), Some(20));
}

#[test]
fn absent_byte_not_found() {
    assert_eq!(search(b"aaa", b"b", None), None);
}

#[test]
fn empty_input_not_found() {
    assert_eq!(search(b"", b"a", None), None);
}

#[test]
fn empty_pattern_not_found() {
    assert_eq!(search(b"abc", b"", None), None);
    assert_eq!(search(b"", b"", None), None);
    assert_eq!(search(b"abc", b"", Some(b'?')), None);
}

#[test]
fn lone_wildcard_is_found_at_zero() {
    assert_eq!(search(b"", b"?", Some(b'?')), Some(0));
    assert_eq!(search(b"xyz", b"?", Some(b'?')), Some(0));
}

#[test]
fn single_byte_is_first_occurrence() {
    assert_eq!(search(b"abcabc", b"c", None), Some(2));
    assert_eq!(search(b"abcabc", b"c", Some(b'?')), Some(2));
    assert_eq!(search(b"abcabc", b"a", None), Some(0));
}

#[test]
fn longer_pattern_not_found() {
    assert_eq!(search(b"ab", b"abc", None), None);
    assert_eq!(search(b"ab", b"???", Some(b'?')), None);
}

#[test]
fn first_of_several_matches() {
    assert_eq!(search(b"xxabyyabzzab", b"ab", None), Some(2));
    assert_eq!(search(b"aaaaab", b"aab", None), Some(3));
    assert_eq!(search(b"abab", b"abab", None), Some(0));
}

#[test]
fn match_at_the_very_end() {
    assert_eq!(search(b"xxxxxxxyz", b"xyz", None), Some(6));
}

#[test]
fn wildcard_at_both_ends() {
    assert_eq!(search(b"zzabczz", b"?b?", Some(b'?')), Some(2));
    assert_eq!(search(b"abc", b"??", Some(b'?')), Some(0));
}

#[test]
fn mask_table_without_wildcard() {
    let config = BndmConfig::new(b"aab", None);
    assert_eq!(config.masks[b'a' as usize], 0b110);
    assert_eq!(config.masks[b'b' as usize], 0b001);
    assert_eq!(config.masks[b'c' as usize], 0);
    assert_eq!(config.pattern, b"aab".to_vec());
    assert_eq!(config.wildcard, None);
}

#[test]
fn mask_table_with_wildcard() {
    let config = BndmConfig::new(b"a?b", Some(b'?'));
    assert_eq!(config.masks[b'a' as usize], 0b110);
    assert_eq!(config.masks[b'b' as usize], 0b011);
    assert_eq!(config.masks[b'z' as usize], 0b010);
    assert_eq!(config.masks[b'?' as usize], 0b010);
}

#[test]
fn mask_table_uses_first_word_only() {
    let mut pattern = vec![b'x'; 64];
    pattern.push(b'y');
    let config = BndmConfig::new(&pattern, None);
    assert_eq!(config.masks[b'x' as usize], u64::MAX);
    assert_eq!(config.masks[b'y' as usize], 0);
}

#[test]
fn long_pattern_checks_tail() {
    let mut pattern: Vec<u8> = (0..100u32).map(|i| b'a' + (i % 7) as u8).collect();
    let mut source = vec![b'z'; 10];
    source.extend_from_slice(&pattern);
    source.extend_from_slice(b"zz");
    assert_eq!(search(&source, &pattern, None), Some(10));
    pattern[90] = b'q';
    assert_eq!(search(&source, &pattern, None), None);
    assert_eq!(search(&source, &pattern, Some(b'q')), Some(10));
}

#[test]
fn long_pattern_tail_mismatch_then_match() {
    let pattern = vec![b'a'; 70];
    let mut source = vec![b'a'; 69];
    source.push(b'b');
    source.extend(vec![b'a'; 70]);
    assert_eq!(search(&source, &pattern, None), Some(70));
}

#[test]
fn repeated_searches_agree() {
    let config = BndmConfig::new(b"o?er", Some(b'?'));
    let first = find_pattern(FOX, &config);
    let second = find_pattern(FOX, &config);
    assert_eq!(first, Some(26));
    assert_eq!(first, second);
    let again = BndmConfig::new(b"o?er", Some(b'?'));
    assert_eq!(again.masks, config.masks);
    assert_eq!(find_pattern(FOX, &again), first);
}

#[test]
fn agrees_with_naive_scan() {
    let mut rng = Lcg(0x5eed);
    for &plen in &[1usize, 2, 3, 63, 64, 65, 128, 130] {
        for round in 0..60 {
            let alphabet: u8 = if round % 3 == 0 { 2 } else { 3 };
            let slen = (rng.next() % 300) as usize;
            let source: Vec<u8> = (0..slen).map(|_| rng.byte(alphabet)).collect();
            let mut pattern: Vec<u8> = if slen >= plen && round % 2 == 0 {
                let start = (rng.next() as usize) % (slen - plen + 1);
                source[start..start + plen].to_vec()
            } else {
                (0..plen).map(|_| rng.byte(alphabet)).collect()
            };
            let wildcard = if round % 4 == 1 { Some(b'?') } else { None };
            if wildcard.is_some() {
                for _ in 0..(1 + plen / 8) {
                    let at = (rng.next() as usize) % plen;
                    if rng.next() % 2 == 0 {
                        pattern[at] = b'?';
                    }
                }
            }
            let config = BndmConfig::new(&pattern, wildcard);
            assert_eq!(
                find_pattern(&source, &config),
                naive(&source, &pattern, wildcard),
                "length {} round {}",
                plen,
                round
            );
        }
    }
}
