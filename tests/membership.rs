use smallset::SmallSet;

fn build(keys: &[&[u8]]) -> SmallSet {
    SmallSet::new(keys)
}

fn random_keys(state: &mut u64, count: usize) -> Vec<Vec<u8>> {
    let mut out = Vec::with_capacity(count);
    for _ in 0..count {
        let mut key = Vec::with_capacity(16);
        for _ in 0..16 {
            *state ^= *state << 13;
            *state ^= *state >> 7;
            *state ^= *state << 17;
            key.push((*state >> 24) as u8);
        }
        out.push(key);
    }
    out
}

#[test]
fn three_keys_found_and_others_not() {
    let s = build(&[b"a", b"b", b"c"]);
    assert_eq!(s.contains(b"a"), Ok(true));
    assert_eq!(s.contains(b"b"), Ok(true));
    assert_eq!(s.contains(b"c"), Ok(true));
    assert_eq!(s.contains(b"z"), Ok(false));
}

#[test]
fn empty_set_holds_nothing() {
    let s = build(&[]);
    assert_eq!(s.contains(b"anything"), Ok(false));
    assert_eq!(s.contains(b""), Ok(false));
    assert_eq!(s.stored_bytes(), Ok(Vec::new()));
}

#[test]
fn repeated_key_still_found() {
    let s = build(&[b"x", b"x", b"x"]);
    assert_eq!(s.contains(b"x"), Ok(true));
    assert_eq!(s.contains(b"y"), Ok(false));
    assert_eq!(s.contains(b"xx"), Ok(false));
    assert_eq!(s.stored_bytes(), Ok(b"xxx".to_vec()));
}

#[test]
fn repeats_do_not_change_answers() {
    let once = build(&[b"alpha", b"beta"]);
    let twice = build(&[b"alpha", b"beta", b"alpha", b"beta", b"beta"]);
    for q in [&b"alpha"[..], b"beta", b"gamma", b"", b"alph"] {
        assert_eq!(once.contains(q), twice.contains(q));
    }
}

#[test]
fn empty_key_can_be_stored() {
    let s = build(&[b"", b"k"]);
    assert_eq!(s.contains(b""), Ok(true));
    assert_eq!(s.contains(b"k"), Ok(true));
    assert_eq!(s.contains(b"kk"), Ok(false));
}

#[test]
fn store_round_trips_in_order() {
    let s = build(&[b"one", b"two", b"three", b"two"]);
    assert_eq!(s.stored_bytes(), Ok(b"onetwothreetwo".to_vec()));
}

#[test]
fn store_round_trips_long_repetitive_input() {
    let key = vec![7u8; 1000];
    let keys: Vec<&[u8]> = vec![&key[..], &key[..], b"tail"];
    let s = build(&keys);
    let mut expected = vec![7u8; 2000];
    expected.extend_from_slice(b"tail");
    assert_eq!(s.stored_bytes(), Ok(expected));
}

#[test]
fn building_twice_is_deterministic() {
    let keys: Vec<&[u8]> = vec![b"q", b"w", b"e", b"q"];
    let a = build(&keys);
    let b = build(&keys);
    assert_eq!(a.stored_bytes(), b.stored_bytes());
    for q in [&b"q"[..], b"w", b"e", b"r"] {
        assert_eq!(a.contains(q), b.contains(q));
    }
}

#[test]
fn decoded_query_confirms_content() {
    let s = build(&[b"abc", b"def"]);
    let stored = s.stored_bytes().unwrap();
    assert!(s.contains_decoded(&stored, b"abc"));
    assert!(s.contains_decoded(&stored, b"def"));
    assert!(!s.contains_decoded(&stored, b"ghi"));
    let altered = b"xbcdef".to_vec();
    assert!(!s.contains_decoded(&altered, b"abc"));
    assert!(s.contains_decoded(&altered, b"def"));
    assert!(!s.contains_decoded(b"ab", b"abc"));
}

#[test]
fn ten_thousand_random_keys() {
    let mut state: u64 = 0x9e37_79b9_7f4a_7c15;
    let inside = random_keys(&mut state, 10_000);
    let outside = random_keys(&mut state, 10_000);
    let refs: Vec<&[u8]> = inside.iter().map(|k| k.as_slice()).collect();
    let s = build(&refs);
    let stored = s.stored_bytes().unwrap();
    assert_eq!(stored, inside.concat());
    for k in &inside {
        assert!(s.contains_decoded(&stored, k));
    }
    for k in &outside {
        if !inside.contains(k) {
            assert!(!s.contains_decoded(&stored, k));
        }
    }
    for k in inside.iter().step_by(97) {
        assert_eq!(s.contains(k), Ok(true));
    }
    for k in outside.iter().step_by(97) {
        assert_eq!(s.contains(k), Ok(inside.contains(k)));
    }
    assert_eq!(s.contains(&inside[9_999]), Ok(true));
}
