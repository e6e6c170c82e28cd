use ngram_log::{
    count_decoded, decoder_keycode, encode, handle_event, CountOverflow, Decoder, FormatError, FreqTable, Log, Transition,
    SENTINEL,
};

fn key(s: &str) -> Vec<char> {
    s.chars().collect()
}

fn total(t: &FreqTable) -> u64 {
    let mut s = 0;
    for i in 0..t.len() {
        s += t.count_at(i);
    }
    s
}

fn push_all(g: &mut Log, s: &str) {
    for c in s.chars() {
        g.push(c).unwrap();
    }
}

fn same_counts(a: &FreqTable, b: &FreqTable) -> bool {
    a.len() == b.len() && (0..a.len()).all(|i| b.get(a.key_at(i)) == a.count_at(i))
}

#[test]
fn push_abc() {
    let mut g = Log::new();
    push_all(&mut g, "abc");
    let (u, b, t) = g.snapshot();
    assert_eq!(u.len(), 3);
    for k in ["a", "b", "c"] {
        assert_eq!(u.get(&key(k)), 1);
    }
    let s = SENTINEL;
    assert_eq!(b.len(), 3);
    assert_eq!(b.get(&vec![s, 'a']), 1);
    assert_eq!(b.get(&key("ab")), 1);
    assert_eq!(b.get(&key("bc")), 1);
    assert_eq!(t.len(), 3);
    assert_eq!(t.get(&vec![s, s, 'a']), 1);
    assert_eq!(t.get(&vec![s, 'a', 'b']), 1);
    assert_eq!(t.get(&key("abc")), 1);
}

#[test]
fn push_repeated_characters() {
    let mut g = Log::new();
    push_all(&mut g, "aaaa");
    let (u, b, t) = g.snapshot();
    assert_eq!(u.get(&key("a")), 4);
    assert_eq!(b.get(&key("aa")), 3);
    assert_eq!(t.get(&key("aaa")), 2);
}

#[test]
fn checkpoint_then_restore() {
    let mut g = Log::new();
    push_all(&mut g, "hello\\ world\n\\n");
    let (a, b, c) = g.checkpoint_texts();
    let r = Log::restore(Some(&a), Some(&b), Some(&c)).unwrap();
    let (u0, b0, t0) = g.snapshot();
    let (u1, b1, t1) = r.snapshot();
    assert!(same_counts(&u0, &u1));
    assert!(same_counts(&b0, &b1));
    assert!(same_counts(&t0, &t1));
}

#[test]
fn restore_window_is_fresh() {
    let mut g = Log::new();
    push_all(&mut g, "xy");
    let (a, b, c) = g.checkpoint_texts();
    let mut r = Log::restore(Some(&a), Some(&b), Some(&c)).unwrap();
    r.push('z').unwrap();
    let (_, b1, t1) = r.snapshot();
    assert_eq!(b1.get(&vec![SENTINEL, 'z']), 1);
    assert_eq!(b1.get(&key("yz")), 0);
    assert_eq!(t1.get(&vec![SENTINEL, SENTINEL, 'z']), 1);
}

#[test]
fn restore_missing_texts_is_empty() {
    let r = Log::restore(None, None, None).unwrap();
    let (u, b, t) = r.snapshot();
    assert_eq!((u.len(), b.len(), t.len()), (0, 0, 0));
    let r = Log::restore(Some("2 a\n"), None, None).unwrap();
    assert_eq!(r.snapshot().0.get(&key("a")), 2);
    assert_eq!(r.snapshot().1.len(), 0);
}

#[test]
fn restore_malformed_text_fails() {
    assert_eq!(
        Log::restore(Some("1 a\n"), Some("bad\n"), Some("x y\n")).err(),
        Some(FormatError::MissingSeparator)
    );
    assert_eq!(
        Log::restore(None, None, Some("x y\n")).err(),
        Some(FormatError::InvalidCount)
    );
}

#[test]
fn overflow_is_reported_and_changes_nothing() {
    let mut g = Log::restore(Some("18446744073709551615 a\n"), None, None).unwrap();
    assert_eq!(g.push('a'), Err(CountOverflow));
    let (u, b, t) = g.snapshot();
    assert_eq!(u.get(&key("a")), u64::MAX);
    assert_eq!(b.len(), 0);
    assert_eq!(t.len(), 0);
    g.push('b').unwrap();
    assert_eq!(g.snapshot().1.get(&vec![SENTINEL, 'b']), 1);
}

#[test]
fn overflow_in_bigram_table() {
    let text = format!("{} {}a\n", u64::MAX, SENTINEL);
    let mut g = Log::restore(None, Some(&text), None).unwrap();
    assert_eq!(g.push('a'), Err(CountOverflow));
    assert_eq!(g.snapshot().0.len(), 0);
}

#[test]
fn totals_track_pushes_across_checkpoints() {
    let mut g = Log::new();
    let text = "the quick brown fox";
    let mut n = 0u64;
    for c in text.chars() {
        g.push(c).unwrap();
        n += 1;
        let (a, b, c3) = g.checkpoint_texts();
        let r = Log::restore(Some(&a), Some(&b), Some(&c3)).unwrap();
        let (u, bi, tri) = r.snapshot();
        assert_eq!(total(&u), n);
        assert_eq!(total(&bi), n);
        assert_eq!(total(&tri), n);
    }
}

struct FakeDecoder {
    calls: Vec<(u32, Transition)>,
}

impl Decoder for FakeDecoder {
    fn translate(&mut self, key: u32, t: Transition) -> Option<char> {
        self.calls.push((key, t));
        if t == Transition::Release {
            return Some('!');
        }
        char::from_u32(key)
    }
}

#[test]
fn repeats_are_counted_once() {
    let mut g = Log::new();
    let mut d = FakeDecoder { calls: Vec::new() };
    let x = 'X' as u32;
    let seq = [Transition::Press, Transition::Repeat, Transition::Repeat, Transition::Release];
    let mut got = Vec::new();
    for t in seq {
        got.push(handle_event(&mut g, &mut d, x, t).unwrap());
    }
    assert_eq!(got, vec![Some('X'), None, None, None]);
    assert_eq!(d.calls, vec![(x, Transition::Press), (x, Transition::Release)]);
    let (u, _, _) = g.snapshot();
    assert_eq!(u.len(), 1);
    assert_eq!(u.get(&key("X")), 1);
}

#[test]
fn transition_values() {
    assert_eq!(Transition::from_value(0), Some(Transition::Release));
    assert_eq!(Transition::from_value(1), Some(Transition::Press));
    assert_eq!(Transition::from_value(2), Some(Transition::Repeat));
    assert_eq!(Transition::from_value(3), None);
    assert_eq!(Transition::from_value(-1), None);
    assert!(Transition::Press.reaches_decoder());
    assert!(Transition::Release.reaches_decoder());
    assert!(!Transition::Repeat.reaches_decoder());
}

#[test]
fn keycode_offset() {
    assert_eq!(decoder_keycode(30), 38);
    assert_eq!(decoder_keycode(0), 8);
    assert_eq!(decoder_keycode(65535), 7);
}

#[test]
fn snapshot_is_unaffected_by_later_pushes() {
    let mut g = Log::new();
    push_all(&mut g, "ab");
    let (u, b, t) = g.snapshot();
    push_all(&mut g, "ab");
    assert_eq!(u.get(&key("a")), 1);
    assert_eq!(g.snapshot().0.get(&key("a")), 2);
    let (e1, e2, e3) = (encode(&u), encode(&b), encode(&t));
    let r = Log::restore(Some(&e1), Some(&e2), Some(&e3)).unwrap();
    assert_eq!(r.snapshot().1.get(&key("ab")), 1);
}

#[test]
fn count_decoded_counts_press_only() {
    let mut g = Log::new();
    assert_eq!(count_decoded(&mut g, Transition::Press, Some('q')), Ok(Some('q')));
    assert_eq!(count_decoded(&mut g, Transition::Release, Some('q')), Ok(None));
    assert_eq!(count_decoded(&mut g, Transition::Repeat, Some('q')), Ok(None));
    assert_eq!(count_decoded(&mut g, Transition::Press, None), Ok(None));
    assert_eq!(count_decoded(&mut g, Transition::Press, Some('r')), Ok(Some('r')));
    let (u, b, _) = g.snapshot();
    assert_eq!(u.get(&key("q")), 1);
    assert_eq!(u.get(&key("r")), 1);
    assert_eq!(u.len(), 2);
    assert_eq!(b.get(&key("qr")), 1);
}

#[test]
fn count_decoded_reports_overflow() {
    let mut g = Log::restore(Some("18446744073709551615 z\n"), None, None).unwrap();
    assert_eq!(count_decoded(&mut g, Transition::Press, Some('z')), Err(CountOverflow));
    assert_eq!(g.snapshot().1.len(), 0);
    assert_eq!(count_decoded(&mut g, Transition::Release, Some('z')), Ok(None));
}
