use std::collections::HashMap;

use bingus::legacy::legacy_fits;
use bingus::{Brain, Edges, Token, Weight};

fn weights_map(edges: &Edges) -> HashMap<Token, Weight> {
    edges.weights().into_iter().collect()
}

fn word(s: &str) -> Token {
    Some(s.to_string())
}

#[test]
fn ingest_parse() {
    let tokens = Brain::parse("Hello world");
    assert_eq!(
        tokens,
        vec![Some("hello".to_string()), Some("world".to_string()), None]
    );
}

#[test]
fn ingest_url() {
    let tokens = Brain::parse("https://example.com/CAPS-PATH");
    assert_eq!(
        tokens,
        vec![Some("https://example.com/CAPS-PATH".to_string()), None]
    );
}

#[test]
fn ingest_ping() {
    let tokens = Brain::parse("hi <@1234567>");
    assert_eq!(tokens, vec![Some("hi".to_string()), None]);
}

#[test]
fn basic_chain() {
    let mut brain = Brain::default();
    brain.ingest("hello world");
    let hello_edges = brain
        .edges_for(&Some("hello".to_string()))
        .expect("Hello edges not created");
    assert_eq!(
        weights_map(hello_edges),
        HashMap::from_iter([(Some("world".to_string()), 1)])
    );
    let reply = brain.respond("hello", false, false, None);
    assert_eq!(reply, Some("world".to_string()));
}

#[test]
fn at_least_1_token() {
    let mut brain = Brain::default();
    brain.ingest("hello world");
    for _ in 0..100 {
        brain.ingest("hello");
    }

    for _ in 0..100 {
        let reply = brain.respond("hello", false, false, None);
        assert_eq!(reply, Some("world".to_string()));
    }
}

#[test]
fn forget_word() {
    let mut brain = Brain::default();

    brain.ingest("hello world");
    brain.ingest("hello evil world");

    brain.forget("evil");

    assert!(
        brain.edges_for(&Some(String::from("evil"))).is_none(),
        "Edges still exist for evil"
    );
    let edges = brain
        .edges_for(&Some(String::from("hello")))
        .expect("No weights for hello");
    assert!(
        edges.weight_of(&Some(String::from("evil"))).is_none(),
        "Edges for hello still has evil"
    );
    assert_eq!(edges.total(), 1);
}

#[test]
fn none_on_empty() {
    let brain = Brain::default();

    let reply = brain.respond("hello", false, false, None);
    assert_eq!(reply, None);
}

#[test]
fn none_on_long() {
    let mut brain = Brain::default();

    let msg = vec!["a"; 2500].into_iter().collect::<String>();
    let msg = format!("hello {msg}");

    brain.ingest(&msg);

    assert!(brain.respond("hello", false, false, None).is_none())
}

#[test]
fn random_on_end() {
    let mut brain = Brain::default();
    brain.ingest("world hello");

    let reply = brain.respond("hello", false, false, None);
    assert!(reply.is_some());
}

#[test]
fn long_chain() {
    const LETTERS: &str = "abcdefghijklmnopqrstuvwxyz";
    let msg = LETTERS
        .chars()
        .map(|c| c.to_string())
        .collect::<Vec<String>>()
        .join(" ");
    let mut brain = Brain::default();
    brain.ingest(&msg);
    let reply = brain.respond("a", false, false, None);
    let expected = LETTERS
        .chars()
        .skip(1)
        .take(21)
        .map(|c| c.to_string())
        .collect::<Vec<String>>()
        .join(" ");
    assert_eq!(reply, Some(expected));
}

#[test]
fn merge_brain() {
    let mut brain1 = Brain::default();
    let mut brain2 = Brain::default();

    brain1.ingest("hello world");
    brain2.ingest("hello world");
    brain2.ingest("hello world");
    brain2.ingest("other word");

    brain1.merge_from(brain2);

    let hello_edges = brain1
        .edges_for(&Some("hello".to_string()))
        .expect("Hello edges not created");
    assert_eq!(
        weights_map(hello_edges),
        HashMap::from_iter([(Some("world".to_string()), 3)])
    );

    let new_edges = brain1
        .edges_for(&Some("other".to_string()))
        .expect("New edges not created");
    assert_eq!(
        weights_map(new_edges),
        HashMap::from_iter([(Some("word".to_string()), 1)])
    );
}

// ---------------------------------------------------------------------------
// Further cases
// ---------------------------------------------------------------------------

#[test]
fn ingest_reports_new_tokens() {
    let mut brain = Brain::default();
    assert!(brain.ingest("hello world"));
    assert!(!brain.ingest("hello world"));
    assert!(!brain.ingest("HELLO"));
    assert!(brain.ingest("world peace"));
    assert!(!brain.ingest(""));
    assert!(!brain.ingest("   \t\n "));
    assert_eq!(brain.word_count(), 3);
}

#[test]
fn ingest_counts_transitions() {
    let mut brain = Brain::default();
    brain.ingest("a b a b");
    let a = brain.edges_for(&word("a")).unwrap();
    assert_eq!(weights_map(a), HashMap::from_iter([(word("b"), 2)]));
    assert_eq!(a.total(), 2);
    let b = brain.edges_for(&word("b")).unwrap();
    assert_eq!(weights_map(b), HashMap::from_iter([(word("a"), 1), (None, 1)]));
    assert_eq!(b.total(), 2);
    assert!(brain.edges_for(&None).is_none());
}

#[test]
fn parse_splits_on_unicode_whitespace() {
    let tokens = Brain::parse("Un\u{00A0}DEUX\u{3000}<@x> trois\u{2028}<@>");
    assert_eq!(tokens, vec![word("un"), word("deux"), word("trois"), None]);
    assert_eq!(Brain::parse(""), vec![None]);
    assert_eq!(Brain::parse("http://A.b HTTPS://C"), vec![word("http://A.b"), word("https://c"), None]);
    assert_eq!(Brain::parse("<@ nope>"), vec![word("<@"), word("nope>"), None]);
    assert_eq!(Brain::parse("ÄÖ Ab"), vec![word("ÄÖ"), word("ab"), None]);
}

#[test]
fn whitespace_matches_std() {
    for n in 0..=0x10FFFFu32 {
        if let Some(c) = char::from_u32(n) {
            assert_eq!(bingus::text::is_whitespace(c), c.is_whitespace(), "{n:#x}");
        }
    }
}

#[test]
fn word_count_counts_tokens() {
    let mut brain = Brain::default();
    assert_eq!(brain.word_count(), 0);
    brain.ingest("one two three two one");
    assert_eq!(brain.word_count(), 3);
}

#[test]
fn get_weights_normalizes_and_skips_empty() {
    let mut brain = Brain::default();
    brain.ingest("Cat dog");
    let e = brain.get_weights("CAT").expect("cat has edges");
    assert_eq!(weights_map(e), HashMap::from_iter([(word("dog"), 1)]));
    assert!(brain.get_weights("bird").is_none());
    let e = Edges::from_parts(vec![(word("x"), 4)], 4);
    let mut brain = Brain::from_parts(vec![(word("lonely"), Edges::new()), (word("w"), e)]);
    assert!(brain.get_weights("lonely").is_none());
    assert!(brain.get_weights("w").is_some());
    brain.forget("x");
    assert!(brain.get_weights("w").is_none());
}

#[test]
fn forget_removes_every_instance() {
    let mut brain = Brain::default();
    brain.ingest("a b c");
    brain.ingest("c b a");
    assert!(brain.forget_fits("B"));
    brain.forget("B");
    assert!(brain.edges_for(&word("b")).is_none());
    for t in [word("a"), word("c")] {
        let e = brain.edges_for(&t).unwrap();
        assert!(e.weight_of(&word("b")).is_none());
    }
    assert_eq!(brain.edges_for(&word("a")).unwrap().total(), 1);
    assert_eq!(brain.edges_for(&word("c")).unwrap().total(), 1);
}

#[test]
fn forget_fits_detects_short_totals() {
    let e = Edges::from_parts(vec![(word("x"), 5)], 3);
    let brain = Brain::from_parts(vec![(word("w"), e)]);
    assert!(!brain.forget_fits("x"));
    assert!(brain.forget_fits("w"));
}

#[test]
fn merge_saturates_weights_and_totals() {
    let big = Edges::from_parts(vec![(word("b"), u16::MAX - 1)], u64::MAX - 1);
    let mut one = Brain::from_parts(vec![(word("a"), big)]);
    let mut two = Brain::default();
    two.ingest("a b");
    two.ingest("a b");
    two.ingest("a c");
    one.merge_from(two);
    let a = one.edges_for(&word("a")).unwrap();
    assert_eq!(
        weights_map(a),
        HashMap::from_iter([(word("b"), u16::MAX), (word("c"), 1)])
    );
    assert_eq!(a.total(), u64::MAX);
}

#[test]
fn merge_ignores_the_other_total() {
    let odd = Edges::from_parts(vec![(word("y"), 2)], 40);
    let mut one = Brain::default();
    one.ingest("x y");
    one.merge_from(Brain::from_parts(vec![(word("x"), odd)]));
    let x = one.edges_for(&word("x")).unwrap();
    assert_eq!(weights_map(x), HashMap::from_iter([(word("y"), 3)]));
    assert_eq!(x.total(), 3);
}

#[test]
fn from_parts_later_overrides() {
    let e = Edges::from_parts(vec![(word("x"), 1), (word("y"), 2), (word("x"), 7)], 9);
    assert_eq!(weights_map(&e), HashMap::from_iter([(word("x"), 7), (word("y"), 2)]));
    assert_eq!(e.total(), 9);
    assert_eq!(e.weights().len(), 2);
}

#[test]
fn format_token_shows_end() {
    assert_eq!(bingus::format_token(&word("hi")), "hi");
    assert_eq!(bingus::format_token(&None), "~END");
}

#[test]
fn legacy_format_round_trip() {
    let mut brain = Brain::default();
    brain.ingest("hello world");
    brain.ingest("hello E-- W-x");
    let dump = brain.as_legacy_hashmap();
    let mut keys: Vec<String> = dump.iter().map(|(k, _)| k.clone()).collect();
    keys.sort();
    assert_eq!(keys, vec!["W-e--", "W-hello", "W-w-x", "W-world"]);
    let hello = dump.iter().find(|(k, _)| k == "W-hello").unwrap();
    let inner: HashMap<String, Weight> = hello.1.iter().cloned().collect();
    assert_eq!(
        inner,
        HashMap::from_iter([("W-world".to_string(), 1), ("W-e--".to_string(), 1)])
    );
    let world = dump.iter().find(|(k, _)| k == "W-world").unwrap();
    assert_eq!(world.1, vec![("E--".to_string(), 1)]);

    let back = Brain::from_legacy_hashmap(dump);
    assert_eq!(back.word_count(), brain.word_count());
    for t in [word("hello"), word("world"), word("e--"), word("w-x")] {
        let a = brain.edges_for(&t).unwrap();
        let b = back.edges_for(&t).unwrap();
        assert_eq!(weights_map(a), weights_map(b));
        assert_eq!(a.total(), b.total());
    }
}

#[test]
fn legacy_reading() {
    let map = vec![
        (
            "W-hi".to_string(),
            vec![("E--".to_string(), 2), ("there".to_string(), 3), ("W-there".to_string(), 4)],
        ),
        ("E--".to_string(), vec![("W-hi".to_string(), 1)]),
    ];
    let brain = Brain::from_legacy_hashmap(map);
    let hi = brain.edges_for(&word("hi")).unwrap();
    assert_eq!(weights_map(hi), HashMap::from_iter([(None, 2), (word("there"), 4)]));
    assert_eq!(hi.total(), 9);
    let end = brain.edges_for(&None).unwrap();
    assert_eq!(weights_map(end), HashMap::from_iter([(word("hi"), 1)]));
}

#[test]
fn respond_forced_and_rolled() {
    let mut brain = Brain::default();
    brain.ingest("ping pong");
    brain.set_always_reply(false);
    assert!(!brain.always_reply());
    for _ in 0..20 {
        assert_eq!(brain.respond("ping", false, true, None), Some("pong".to_string()));
    }
    let mut replies = 0;
    for _ in 0..400 {
        match brain.respond("ping", true, false, None) {
            Some(r) => {
                assert_eq!(r, "pong");
                replies += 1;
            }
            None => {}
        }
    }
    assert!(replies > 0 && replies < 400);
}

#[test]
fn respond_without_words_starts_anywhere() {
    let mut brain = Brain::default();
    brain.ingest("alpha beta");
    for _ in 0..20 {
        let r = brain.respond("   ", false, false, None);
        assert!(
            r.is_none() || r == Some("beta".to_string()) || r == Some("alpha beta".to_string()),
            "{r:?}"
        );
    }
    assert!(brain.respond_fits("   "));
}

#[test]
fn respond_drops_blank_replies() {
    let e = Edges::from_parts(vec![(word(" "), 1)], 1);
    let brain = Brain::from_parts(vec![(word("x"), e)]);
    assert_eq!(brain.respond("x", false, false, None), None);
}

#[test]
fn respond_sends_typing() {
    let mut brain = Brain::default();
    brain.ingest("hello world");
    let (tx, mut rx) = tokio::sync::oneshot::channel();
    assert_eq!(brain.respond("hello", false, false, Some(tx)), Some("world".to_string()));
    assert_eq!(rx.try_recv(), Ok(true));
    let (tx, mut rx) = tokio::sync::oneshot::channel();
    assert_eq!(brain.respond("nothing", false, false, Some(tx)).is_some(), true);
    assert_eq!(rx.try_recv(), Ok(true));
    let empty = Brain::default();
    let (tx, mut rx) = tokio::sync::oneshot::channel();
    assert_eq!(empty.respond("nothing", false, false, Some(tx)), None);
    assert_eq!(rx.try_recv(), Ok(false));
}

#[test]
fn respond_counts_utf16_units() {
    let long = "\u{1F600}".repeat(999);
    let e = Edges::from_parts(vec![(Some(long.clone()), 1)], 1);
    let brain = Brain::from_parts(vec![(word("x"), e)]);
    assert_eq!(brain.respond("x", false, false, None), Some(long));
    let longer = "\u{1F600}".repeat(1000);
    let e = Edges::from_parts(vec![(Some(longer), 1)], 1);
    let brain = Brain::from_parts(vec![(word("x"), e)]);
    assert_eq!(brain.respond("x", false, false, None), None);
}

#[test]
fn respond_fits_checks_end_weight() {
    let e = Edges::from_parts(vec![(None, 5), (word("y"), 1)], 2);
    let brain = Brain::from_parts(vec![(word("x"), e)]);
    assert!(!brain.respond_fits("say x"));
    assert!(brain.respond_fits("say y"));
    assert!(!brain.respond_fits(""));
    assert!(!brain.ends_fit());
}

#[test]
fn pick_by_roll_follows_running_weights() {
    let e = Edges::from_parts(
        vec![(None, 2), (word("a"), 3), (word("b"), 0), (word("c"), 5)],
        10,
    );
    let with_end: Vec<Option<usize>> = (0..11).map(|r| e.pick_by_roll(true, r)).collect();
    assert_eq!(
        with_end,
        vec![
            Some(0),
            Some(0),
            Some(1),
            Some(1),
            Some(1),
            Some(3),
            Some(3),
            Some(3),
            Some(3),
            Some(3),
            None
        ]
    );
    let without_end: Vec<Option<usize>> = (0..9).map(|r| e.pick_by_roll(false, r)).collect();
    assert_eq!(
        without_end,
        vec![Some(1), Some(1), Some(1), Some(3), Some(3), Some(3), Some(3), Some(3), None]
    );
    assert_eq!(Edges::new().pick_by_roll(true, 0), None);
}

#[test]
fn learning_keeps_what_was_known() {
    let mut brain = Brain::default();
    brain.ingest("to be or not to be");
    let before = weights_map(brain.edges_for(&word("to")).unwrap());
    brain.ingest("to see");
    let after = weights_map(brain.edges_for(&word("to")).unwrap());
    for (t, w) in before {
        assert!(after[&t] >= w);
    }
    assert_eq!(after[&word("see")], 1);
    assert!(brain.ends_fit());
    assert!(brain.respond_fits("anything at all"));
    assert!(brain.forget_fits("be"));
}

#[test]
fn merging_empty_brains() {
    let mut brain = Brain::default();
    brain.ingest("x y z");
    let mut merged = Brain::default();
    merged.merge_from(brain.clone());
    brain.merge_from(Brain::default());
    for t in [word("x"), word("y"), word("z")] {
        let a = brain.edges_for(&t).unwrap();
        let b = merged.edges_for(&t).unwrap();
        assert_eq!(weights_map(a), weights_map(b));
        assert_eq!(a.total(), b.total());
    }
    assert_eq!(merged.word_count(), 3);
}

#[test]
fn parts_round_trip() {
    let mut brain = Brain::default();
    brain.ingest("one two one");
    let parts = brain.clone().into_parts();
    assert_eq!(parts.len(), 2);
    let back = Brain::from_parts(parts);
    assert_eq!(back.word_count(), 2);
    assert_eq!(
        weights_map(back.edges_for(&word("one")).unwrap()),
        HashMap::from_iter([(word("two"), 1), (None, 1)])
    );
    assert!(back.always_reply());
}

#[test]
fn legacy_loads_stay_within_totals() {
    let map = vec![(
        "W-a".to_string(),
        vec![("W-b".to_string(), 7), ("b".to_string(), 2), ("E--".to_string(), 3)],
    )];
    let brain = Brain::from_legacy_hashmap(map);
    let a = brain.edges_for(&word("a")).unwrap();
    assert_eq!(weights_map(a), HashMap::from_iter([(word("b"), 2), (None, 3)]));
    assert_eq!(a.total(), 12);
    assert!(brain.ends_fit());
    assert!(brain.forget_fits("b"));
}

#[test]
fn learning_order_does_not_matter() {
    let (m1, m2) = ("the cat sat on the mat", "the dog sat on <@1> the cat");
    let mut a = Brain::default();
    a.ingest(m1);
    a.ingest(m2);
    let mut b = Brain::default();
    b.ingest(m2);
    b.ingest(m1);
    assert_eq!(a.word_count(), b.word_count());
    for t in ["the", "cat", "sat", "on", "mat", "dog"] {
        let (ea, eb) = (a.edges_for(&word(t)).unwrap(), b.edges_for(&word(t)).unwrap());
        assert_eq!(weights_map(ea), weights_map(eb));
        assert_eq!(ea.total(), eb.total());
    }
}

#[test]
fn merging_is_learning_both() {
    let xs = ["a b c", "b c d"];
    let ys = ["c d a", "a b", "d"];
    let mut a = Brain::default();
    for m in xs {
        a.ingest(m);
    }
    let mut b = Brain::default();
    for m in ys {
        b.ingest(m);
    }
    let mut c = Brain::default();
    for m in xs.iter().chain(ys.iter()) {
        c.ingest(m);
    }
    a.merge_from(b);
    assert_eq!(a.word_count(), c.word_count());
    for t in ["a", "b", "c", "d"] {
        let (ea, ec) = (a.edges_for(&word(t)).unwrap(), c.edges_for(&word(t)).unwrap());
        assert_eq!(weights_map(ea), weights_map(ec));
        assert_eq!(ea.total(), ec.total());
    }
}

#[test]
fn learned_totals_are_weight_sums() {
    let mut brain = Brain::default();
    for m in ["one two three", "two two one", "three", "one <@5> two"] {
        brain.ingest(m);
    }
    assert!(brain.edges_for(&None).is_none());
    for t in ["one", "two", "three"] {
        let e = brain.edges_for(&word(t)).unwrap();
        let sum: u64 = e.weights().iter().map(|(_, w)| *w as u64).sum();
        assert_eq!(sum, e.total());
        assert!(e.weights().iter().all(|(_, w)| *w >= 1));
    }
}

#[test]
fn draw_bound_leaves_out_the_end() {
    let e = Edges::from_parts(vec![(None, 2), (word("a"), 3), (word("c"), 5)], 10);
    assert_eq!(e.draw_bound(true), 10);
    assert_eq!(e.draw_bound(false), 8);
    let f = Edges::from_parts(vec![(word("a"), 3)], 4);
    assert_eq!(f.draw_bound(false), 4);
    assert_eq!(Edges::new().draw_bound(true), 0);
}

#[test]
fn respond_after_roll_uses_the_authors_chance() {
    let mut brain = Brain::default();
    brain.ingest("ping pong");
    brain.set_always_reply(false);
    let pong = Some("pong".to_string());
    assert_eq!(brain.respond_after_roll("ping", false, false, 0, None), (pong.clone(), None));
    assert_eq!(brain.respond_after_roll("ping", false, false, 80, None), (pong.clone(), None));
    assert_eq!(brain.respond_after_roll("ping", false, false, 81, None), (None, None));
    assert_eq!(brain.respond_after_roll("ping", true, false, 45, None), (pong.clone(), None));
    assert_eq!(brain.respond_after_roll("ping", true, false, 46, None), (None, None));
    assert_eq!(brain.respond_after_roll("ping", true, false, 100, None), (None, None));
    assert_eq!(brain.respond_after_roll("ping", true, true, 100, None), (pong.clone(), None));
    brain.set_always_reply(true);
    assert_eq!(brain.respond_after_roll("ping", true, false, 100, None), (pong, None));
}

#[test]
fn respond_after_roll_reports_typing() {
    let mut brain = Brain::default();
    brain.ingest("hello world");
    brain.set_always_reply(false);
    let (tx, mut rx) = tokio::sync::oneshot::channel();
    assert_eq!(
        brain.respond_after_roll("hello", false, false, 10, Some(tx)),
        (Some("world".to_string()), Some(true))
    );
    assert_eq!(rx.try_recv(), Ok(true));
    let (tx, mut rx) = tokio::sync::oneshot::channel();
    assert_eq!(brain.respond_after_roll("hello", false, false, 90, Some(tx)), (None, None));
    assert!(rx.try_recv().is_err());
    let empty = Brain::default();
    let (tx, mut rx) = tokio::sync::oneshot::channel();
    assert_eq!(empty.respond_after_roll("nothing", false, true, 90, Some(tx)), (None, Some(false)));
    assert_eq!(rx.try_recv(), Ok(false));
    let (tx, mut rx) = tokio::sync::oneshot::channel();
    assert_eq!(empty.respond_after_roll("", false, true, 0, Some(tx)), (None, None));
    assert!(rx.try_recv().is_err());
}

#[test]
fn weights_by_weight_orders_lightest_first() {
    let e = Edges::from_parts(vec![(word("a"), 5), (None, 2), (word("b"), 9), (word("c"), 2)], 18);
    assert_eq!(
        e.weights_by_weight(),
        vec![(None, 2), (word("c"), 2), (word("a"), 5), (word("b"), 9)]
    );
    assert_eq!(Edges::new().weights_by_weight(), vec![]);
}

#[test]
fn legacy_fits_checks_each_sum() {
    let ok = vec![("W-a".to_string(), vec![("W-b".to_string(), u16::MAX)])];
    assert!(legacy_fits(&ok));
    assert!(legacy_fits(&vec![]));
    let many = vec![("W-a".to_string(), vec![("W-b".to_string(), 1); 10])];
    assert!(legacy_fits(&many));
}
