use necropolis::clock::{now, now_secs, secs_of_reading};
use necropolis::email::{login_mail, login_status, signup_status, verification_mail, verification_note};
use necropolis::order::{rank, RankKey};
use necropolis::ordmap::{ListMap, OrdMap, PairLists, PairMap};
use necropolis::secret::{hash, is_public_key, rand_hex};
use necropolis::text::{
    chars_of, compare, contains_string, contains_text, decimal_of, decimal_of_i128, decimal_of_u64, excerpt, join, same,
    split_list, strip_prefix, trim, words, Rank,
};

#[test]
fn clock_reads_seconds() {
    assert_eq!(secs_of_reading(Some(5)), 5);
    assert_eq!(secs_of_reading(None), 0);
    assert_eq!(secs_of_reading(Some(u64::MAX)), -1);
    let t = now();
    assert!(t > 1_600_000_000);
    assert!(now_secs() >= t);
}

#[test]
fn digests_and_tokens() {
    assert_eq!(hash("abc"), "ba7816bf8f01cfea414140de5dae2223b00361a396177a9cb410ff61f20015ad");
    assert_eq!(hash(""), "e3b0c44298fc1c149afbf4c8996fb92427ae41e4649b934ca495991b7852b855");
    let a = rand_hex(20);
    assert_eq!(a.len(), 40);
    assert!(a.chars().all(|c| c.is_ascii_digit() || ('a'..='f').contains(&c)));
    assert_ne!(a, rand_hex(20));
    assert_eq!(rand_hex(0), "");
    assert!(is_public_key(&"0f".repeat(32)));
    assert!(is_public_key(&"AF".repeat(32)));
    assert!(!is_public_key(&"0g".repeat(32)));
    assert!(!is_public_key(&"0f".repeat(31)));
    assert!(!is_public_key(""));
}

#[test]
fn texts_compare_by_characters() {
    assert_eq!(compare("a", "b"), Rank::Less);
    assert_eq!(compare("b", "a"), Rank::Greater);
    assert_eq!(compare("ab", "ab"), Rank::Equal);
    assert_eq!(compare("ab", "abc"), Rank::Less);
    assert_eq!(compare("", ""), Rank::Equal);
    assert_eq!(compare("z", "é"), Rank::Less);
    assert!(same("é", "é"));
    assert!(!same("e", "é"));
}

#[test]
fn texts_are_cut_and_joined() {
    assert_eq!(trim(" \t a b\u{a0}\n"), "a b");
    assert_eq!(trim("  "), "");
    assert_eq!(words(" a  bc\td "), vec!["a", "bc", "d"]);
    assert_eq!(words("   ").len(), 0);
    assert_eq!(split_list(" http://a , ,http://b,", ','), vec!["http://a", "http://b"]);
    assert_eq!(split_list("", ',').len(), 0);
    assert_eq!(excerpt("héllo", 2), "hé");
    assert_eq!(excerpt("hi", 140), "hi");
    assert_eq!(strip_prefix("Bearer x", "Bearer "), Some("x".to_string()));
    assert_eq!(strip_prefix("bearer x", "Bearer "), None);
    assert_eq!(strip_prefix("Bea", "Bearer "), None);
    assert_eq!(join(&vec!["a".to_string(), "b".to_string()], " "), "a b");
    assert_eq!(join(&vec![], " "), "");
    assert!(contains_text(&chars_of("abcd"), &chars_of("bc")));
    assert!(!contains_text(&chars_of("abcd"), &chars_of("cb")));
    assert!(contains_text(&chars_of("abcd"), &chars_of("")));
    assert!(contains_string(&vec!["x".to_string()], "x"));
    assert!(!contains_string(&vec!["x".to_string()], "y"));
}

#[test]
fn numbers_in_decimal() {
    for n in [0, 7, 10, 100, -1, -10, i64::MAX, i64::MIN] {
        assert_eq!(decimal_of(n), format!("{n}"));
    }
    assert_eq!(decimal_of_u64(u64::MAX), "18446744073709551615");
    for n in [0, -7, i128::MAX, i128::MIN] {
        assert_eq!(decimal_of_i128(n), format!("{n}"));
    }
}

#[test]
fn maps_are_in_key_order() {
    let mut m: OrdMap<u32> = OrdMap::new();
    for (k, v) in [("b", 2), ("a", 1), ("c", 3), ("b", 4)] {
        m.insert(k.to_string(), v);
    }
    assert_eq!(m.len(), 3);
    assert_eq!((0..3).map(|i| m.key_at(i).clone()).collect::<Vec<_>>(), vec!["a", "b", "c"]);
    assert_eq!(m.values(), vec![&1, &4, &3]);
    assert_eq!(*m.value_at(1), 4);
    assert_eq!(m.remove("b"), Some(4));
    assert_eq!(m.remove("b"), None);
    assert!(!m.contains_key("b"));
    assert_eq!(m.get("c"), Some(&3));

    let mut l: ListMap<u32> = ListMap::new();
    l.push("x", 1);
    l.push("x", 2);
    l.push("a", 3);
    assert_eq!((l.len(), l.count("x"), l.count("none")), (2, 2, 0));
    assert_eq!(l.list("x"), Some(&vec![1, 2]));
    assert_eq!(l.key_at(0), "a");
    assert_eq!(l.list_at_key(1), &vec![1, 2]);

    let mut p: PairMap<u32> = PairMap::new();
    p.insert("a", "b", 1);
    p.insert("a", "c", 2);
    p.insert("a", "b", 3);
    assert_eq!((p.get("a", "b"), p.get("a", "c"), p.get("b", "a")), (Some(&3), Some(&2), None));

    let mut q: PairLists<u32> = PairLists::new();
    q.push("a", "b", 1);
    q.push("a", "b", 2);
    q.push("ab", "", 3);
    assert_eq!((q.count("a", "b"), q.count("ab", ""), q.count("a", "")), (2, 1, 0));
    assert_eq!(q.len(), 2);
    assert_eq!(q.row_at(0).len(), 1);
    assert_eq!(q.list("ab", ""), Some(&vec![3]));
}

#[test]
fn ranking_is_stable() {
    let k = |first: i128, second: i128, third: i128| RankKey { first, second, third };
    let keys = vec![k(1, 0, 0), k(2, 0, 0), k(1, 5, 0), k(1, 0, 0), k(2, 0, 1)];
    assert_eq!(rank(&keys), vec![4, 1, 2, 0, 3]);
    assert_eq!(rank(&vec![]), Vec::<usize>::new());
}

#[test]
fn mails_say_what_to_do() {
    let m = verification_mail(None, "h@x.com", "tok");
    assert_eq!(m.from, "Revenant <noreply@revenantai.dev>");
    assert_eq!(m.to, "h@x.com");
    assert_eq!(m.subject, "Verify your Revenant network account");
    assert_eq!(
        m.text,
        "Welcome to the horde.\n\nVerify your account to publish to the Revenant network:\n\n    revenant net verify tok\n\nRegister as many agents as you like — but a human vouches for them. If you didn't request this, ignore it."
    );
    assert_eq!(verification_mail(Some("Me <me@x.y>".to_string()), "h@x.com", "t").from, "Me <me@x.y>");
    assert_eq!(
        verification_note("h@x.com", "tok"),
        "[dev email] verify for h@x.com: token=tok (run: revenant net verify tok)"
    );
    assert!(login_mail(None, "h@x.com", "tok").text.contains("tok"));
    assert_eq!(signup_status(true, false), "already verified");
    assert_eq!(signup_status(false, true), "registered — check your email for the token, then bind your agent");
    assert_eq!(signup_status(false, false), "registered — email not delivered; use the token below directly");
    assert_eq!(login_status(false, false), "if that email has a verified account, a login token is on its way");
    // Once the mail is out, the answer does not tell whether there is an account.
    assert_eq!(login_status(true, true), login_status(false, false));
    assert_eq!(login_status(true, true), login_status(false, true));
    assert_eq!(login_status(true, false), "email not delivered — use the token below");
}

#[test]
fn white_space_is_these_characters() {
    for n in 0..=0x10ffff {
        if let Some(c) = char::from_u32(n) {
            let white = matches!(
                c,
                '\u{9}'..='\u{d}'
                    | '\u{20}'
                    | '\u{85}'
                    | '\u{a0}'
                    | '\u{1680}'
                    | '\u{2000}'..='\u{200a}'
                    | '\u{2028}'
                    | '\u{2029}'
                    | '\u{202f}'
                    | '\u{205f}'
                    | '\u{3000}'
            );
            assert_eq!(trim(&c.to_string()).is_empty(), white, "{n:x}");
        }
    }
}
