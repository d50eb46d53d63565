//! Laws of texts: their order, the numbers and bytes they spell, and what people are told.

use crate::admission::Refusal;
use crate::email::{login_text, login_words, signup_words, verification_text};
use crate::records::Str;
use crate::secret::{hex_byte, hex_digit, hex_text, public_key_text};
use crate::text::{decimal, decimal_nat, digit, joined, lex_lt, occurs, piece_end, pieces_from, trimmed};
use vstd::prelude::*;
use vstd::utf8::{encode_utf8, is_ascii_chars_encode_utf8};

verus! {

// ---- order ----

/// The first place where two texts part: they agree before it, and there `a` ends or has the
/// smaller character.
pub open spec fn parts_below(a: Str, b: Str, k: int) -> bool {
    &&& 0 <= k <= a.len() && k < b.len()
    &&& forall|i: int| 0 <= i < k ==> #[trigger] a[i] == b[i]
    &&& k == a.len() || a[k] < b[k]
}

/// One text comes before another exactly where they part so.
pub proof fn law_order_of_texts(a: Str, b: Str)
    ensures
        lex_lt(a, b) <==> exists|k: int| parts_below(a, b, k),
    decreases a.len(),
{
    if a.len() > 0 && b.len() > 0 && a[0] == b[0] {
        let x = a.drop_first();
        let y = b.drop_first();
        law_order_of_texts(x, y);
        if lex_lt(x, y) {
            let k = choose|k: int| parts_below(x, y, k);
            assert forall|i: int| 0 <= i < k + 1 implies #[trigger] a[i] == b[i] by {
                if i > 0 {
                    assert(a[i] == x[i - 1] && b[i] == y[i - 1]);
                }
            }
            if k < x.len() {
                assert(x[k] == a[k + 1] && y[k] == b[k + 1]);
            }
            assert(parts_below(a, b, k + 1));
        }
        if exists|k: int| parts_below(a, b, k) {
            let k = choose|k: int| parts_below(a, b, k);
            assert(k > 0);
            assert forall|i: int| 0 <= i < k - 1 implies #[trigger] x[i] == y[i] by {
                assert(a[i + 1] == b[i + 1]);
            }
            assert(parts_below(x, y, k - 1));
        }
    } else if lex_lt(a, b) {
        assert(parts_below(a, b, 0));
    }
}

// ---- numbers and bytes ----

/// The number that digits spell.
pub open spec fn spelled(s: Str) -> int
    decreases s.len(),
{
    if s.len() == 0 {
        0
    } else {
        10 * spelled(s.drop_last()) + (s.last() as int - '0' as int)
    }
}

/// A number is written in digits that spell it, without leading zeros.
pub proof fn law_numbers_are_spelled(n: nat)
    ensures
        spelled(decimal_nat(n)) == n,
        decimal_nat(n).len() > 0,
        forall|i: int| 0 <= i < decimal_nat(n).len() ==> '0' <= #[trigger] decimal_nat(n)[i] <= '9',
        decimal_nat(n)[0] == '0' ==> n == 0 && decimal_nat(n).len() == 1,
    decreases n,
{
    let s = decimal_nat(n);
    if n < 10 {
        assert(s.drop_last() =~= Seq::<char>::empty());
        assert(spelled(s.drop_last()) == 0);
        assert(s.last() == digit(n as int));
    } else {
        let m = n / 10;
        law_numbers_are_spelled(m);
        let d = (n % 10) as int;
        assert(s.drop_last() =~= decimal_nat(m));
        assert(s.last() == digit(d));
        assert(10 * m + d == n);
        assert forall|i: int| 0 <= i < s.len() implies '0' <= #[trigger] s[i] <= '9' by {
            if i < s.len() - 1 {
                assert(s[i] == decimal_nat(m)[i]);
            }
        }
        assert(s[0] == decimal_nat(m)[0]);
    }
}

/// A number below zero is written with a minus sign before what it lacks to zero.
pub proof fn law_negative_numbers(n: int)
    ensures
        n >= 0 ==> decimal(n) == decimal_nat(n as nat),
        n < 0 ==> decimal(n) == seq!['-'] + decimal_nat((-n) as nat),
{
}

/// What a hexadecimal digit stands for.
pub open spec fn nibble(c: char) -> int {
    if '0' <= c <= '9' {
        c as int - '0' as int
    } else {
        c as int - 'a' as int + 10
    }
}

/// Bytes are written in two lower-case digits each, which stand for them.
pub proof fn law_bytes_are_spelled(bytes: Seq<u8>)
    ensures
        hex_text(bytes).len() == 2 * bytes.len(),
        forall|i: int| #![trigger bytes[i]]
            0 <= i < bytes.len() ==> 16 * nibble(hex_text(bytes)[2 * i]) + nibble(hex_text(bytes)[2 * i + 1]) == bytes[i],
        forall|k: int|
            0 <= k < hex_text(bytes).len() ==> '0' <= #[trigger] hex_text(bytes)[k] <= '9' || 'a' <= hex_text(bytes)[k] <= 'f',
{
    let s = hex_text(bytes);
    assert forall|d: int| 0 <= d < 16 implies nibble(#[trigger] hex_digit(d)) == d && ('0' <= hex_digit(d) <= '9' || 'a' <= hex_digit(
        d,
    ) <= 'f') by {}
    assert forall|i: int| #![trigger bytes[i]] 0 <= i < bytes.len() implies 16 * nibble(s[2 * i]) + nibble(s[2 * i + 1]) == bytes[i] by {
        assert((2 * i) / 2 == i && (2 * i) % 2 == 0);
        assert((2 * i + 1) / 2 == i && (2 * i + 1) % 2 == 1);
        assert(s[2 * i] == hex_digit(bytes[i] as int / 16));
        assert(s[2 * i + 1] == hex_digit(bytes[i] as int % 16));
    }
    assert forall|k: int| 0 <= k < s.len() implies '0' <= #[trigger] s[k] <= '9' || 'a' <= s[k] <= 'f' by {
        let b = bytes[k / 2] as int;
        assert(s[k] == hex_digit(b / 16) || s[k] == hex_digit(b % 16));
    }
}

/// Bytes in hexadecimal are the text of a public key exactly where there are 32 of them.
pub proof fn law_public_keys_are_32_bytes(bytes: Seq<u8>)
    ensures
        public_key_text(hex_text(bytes)) <==> bytes.len() == 32,
{
    let s = hex_text(bytes);
    law_bytes_are_spelled(bytes);
    is_ascii_chars_encode_utf8(s);
    assert forall|i: int| 0 <= i < s.len() implies hex_byte(#[trigger] encode_utf8(s)[i]) by {
        assert(s[i] as u8 == encode_utf8(s)[i]);
    }
}

// ---- lists ----

/// A run of texts is written one after the other, in order, with the separator between them
/// and nowhere else.
pub proof fn law_joining(v: Seq<Str>, x: Str, sep: Str)
    ensures
        joined(Seq::empty(), sep) == Seq::<char>::empty(),
        joined(seq![x], sep) == x,
        v.len() > 0 ==> joined(v.push(x), sep) == joined(v, sep) + sep + x,
{
    assert(v.push(x).drop_last() =~= v);
}

/// A piece of the text begins at `i`, and is not blank: it goes from the start or from behind
/// a separator to the next one or to the end, and is trimmed.
pub open spec fn is_piece(s: Str, sep: char, i: int, e: int, p: Str) -> bool {
    &&& 0 <= i <= e <= s.len()
    &&& i == 0 || s[i - 1] == sep
    &&& e == s.len() || s[e] == sep
    &&& forall|k: int| i <= k < e ==> #[trigger] s[k] != sep
    &&& p == trimmed(s.subrange(i, e))
    &&& p.len() > 0
}

/// `at` holds where the pieces begin, one after the other, none left out.
pub open spec fn piece_places(s: Str, sep: char, from: int, ps: Seq<Str>, at: Seq<int>) -> bool {
    &&& at.len() == ps.len()
    &&& forall|k: int|
        0 <= k < at.len() ==> from <= #[trigger] at[k] && is_piece(s, sep, at[k], piece_end(s, sep, at[k]), ps[k])
    &&& forall|k: int, l: int| 0 <= k < l < at.len() ==> #[trigger] at[k] < #[trigger] at[l]
    &&& forall|i: int, e: int, p: Str| from <= i && #[trigger] is_piece(s, sep, i, e, p) ==> at.contains(i)
}

proof fn lemma_piece(s: Str, sep: char, i: int)
    requires
        0 <= i <= s.len(),
    ensures
        i <= piece_end(s, sep, i) <= s.len(),
        forall|k: int| i <= k < piece_end(s, sep, i) ==> #[trigger] s[k] != sep,
        piece_end(s, sep, i) == s.len() || s[piece_end(s, sep, i)] == sep,
    decreases s.len() - i,
{
    if i < s.len() && s[i] != sep {
        lemma_piece(s, sep, i + 1);
    }
}

proof fn lemma_pieces(s: Str, sep: char, from: int) -> (at: Seq<int>)
    requires
        0 <= from <= s.len(),
        from == 0 || s[from - 1] == sep,
    ensures
        piece_places(s, sep, from, pieces_from(s, sep, from), at),
    decreases s.len() - from,
{
    lemma_piece(s, sep, from);
    let e = piece_end(s, sep, from);
    let p = trimmed(s.subrange(from, e));
    let here: Seq<int> = if p.len() == 0 {
        Seq::empty()
    } else {
        seq![from]
    };
    let texts: Seq<Str> = if p.len() == 0 {
        Seq::empty()
    } else {
        seq![p]
    };
    let (tail, rest): (Seq<int>, Seq<Str>) = if e >= s.len() {
        (Seq::empty(), Seq::empty())
    } else {
        (lemma_pieces(s, sep, e + 1), pieces_from(s, sep, e + 1))
    };
    let at = here + tail;
    let all = pieces_from(s, sep, from);
    let n = here.len() as int;
    assert(all =~= texts + rest);
    assert forall|k: int| 0 <= k < at.len() implies from <= #[trigger] at[k] && is_piece(
        s,
        sep,
        at[k],
        piece_end(s, sep, at[k]),
        all[k],
    ) by {
        if k >= n {
            assert(at[k] == tail[k - n] && all[k] == rest[k - n]);
        }
    }
    assert forall|k: int, l: int| 0 <= k < l < at.len() implies #[trigger] at[k] < #[trigger] at[l] by {
        assert(at[l] == tail[l - n]);
        if k >= n {
            assert(at[k] == tail[k - n]);
        }
    }
    assert forall|i: int, f: int, x: Str| from <= i && #[trigger] is_piece(s, sep, i, f, x) implies at.contains(i) by {
        if i == from {
            if f < e {
                assert(s[f] != sep);
            } else if e < f {
                assert(s[e] != sep);
            }
            assert(at[0] == i);
        } else if i <= e {
            assert(s[i - 1] != sep);
        } else {
            let k = choose|k: int| 0 <= k < tail.len() && tail[k] == i;
            assert(at[k + n] == i);
        }
    }
    at
}

/// A list is split at each separator, and its pieces are trimmed; those that are not blank
/// come in the order in which they stand, none left out.
pub proof fn law_splitting(s: Str, sep: char) -> (at: Seq<int>)
    ensures
        piece_places(s, sep, 0, pieces_from(s, sep, 0), at),
{
    lemma_pieces(s, sep, 0)
}

// ---- what people are told ----

/// A mail holds the token that it is sent for.
pub proof fn law_mails_hold_their_token(token: Str)
    ensures
        occurs(token, verification_text(token)),
        occurs(token, login_text(token)),
{
    let a = "Welcome to the horde.\n\nVerify your account to publish to the Revenant network:\n\n    revenant net verify "@;
    let s = verification_text(token);
    let i = a.len() as int;
    assert(s.subrange(i, i + token.len()) =~= token);
    let b = "Your one-time login token for the Revenant network, good for 15 minutes:\n\n    "@;
    let t = login_text(token);
    let j = b.len() as int;
    assert(t.subrange(j, j + token.len()) =~= token);
}

/// Who signs up is told one of three things: that the email was verified before, whatever
/// became of a mail, that a mail is on its way, or that none is.
pub proof fn law_signup_answers(delivered: bool)
    ensures
        signup_words(true, delivered) == signup_words(true, !delivered),
        signup_words(true, true) != signup_words(false, delivered),
        signup_words(false, true) != signup_words(false, false),
{
    reveal_strlit("already verified");
    reveal_strlit("registered — check your email for the token, then bind your agent");
    reveal_strlit("registered — email not delivered; use the token below directly");
    assert(signup_words(true, true).len() != signup_words(false, true).len());
    assert(signup_words(true, true).len() != signup_words(false, false).len());
    assert(signup_words(false, true).len() != signup_words(false, false).len());
}

/// Who asks to log in is told otherwise only where there is a token that no mail took away.
pub proof fn law_login_answers(found: bool, delivered: bool)
    ensures
        login_words(found, delivered) != login_words(true, true) <==> found && !delivered,
{
    reveal_strlit("email not delivered — use the token below");
    reveal_strlit("if that email has a verified account, a login token is on its way");
    assert(login_words(true, false).len() != login_words(true, true).len());
}

/// The refusal of a taken name quotes the name, and no other refusal does. One for want of
/// credits says what the account has and what it needs, in this order.
pub proof fn law_refusals_say_why(x: Refusal, a: Str, b: Str, have: i128, need: u64)
    ensures
        occurs(a, Refusal::NameTaken.words(a)),
        x !is NameTaken ==> x.words(a) == x.words(b),
        says_in_order(decimal(have as int), decimal(need as int), (Refusal::CannotStake { have, need }).words(a)),
        says_in_order(decimal(have as int), decimal(need as int), (Refusal::CannotBoost { have, cost: need }).words(a)),
{
    let s = Refusal::NameTaken.words(a);
    let n = "the name '"@.len() as int;
    assert(s.subrange(n, n + a.len()) =~= a);
    lemma_says(
        "insufficient credits to stake this bounty (have "@,
        decimal(have as int),
        ", need "@,
        decimal_nat(need as nat),
        ")"@,
    );
    lemma_says("insufficient credits to boost (have "@, decimal(have as int), ", need "@, decimal_nat(need as nat), ")"@);
}

/// The text has `x`, and `y` behind it.
pub open spec fn says_in_order(x: Str, y: Str, s: Str) -> bool {
    exists|i: int, j: int| #[trigger] stands_at(x, s, i) && #[trigger] stands_at(y, s, j) && i + x.len() < j
}

/// `x` stands in the text at `i`.
pub open spec fn stands_at(x: Str, s: Str, i: int) -> bool {
    0 <= i <= s.len() - x.len() && s.subrange(i, i + x.len()) == x
}

proof fn lemma_says(head: Str, x: Str, mid: Str, y: Str, tail: Str)
    requires
        mid == ", need "@,
    ensures
        says_in_order(x, y, head + x + mid + y + tail),
{
    reveal_strlit(", need ");
    let s = head + x + mid + y + tail;
    let i = head.len() as int;
    let j = i + x.len() + mid.len();
    assert(s.subrange(i, i + x.len()) =~= x);
    assert(s.subrange(j, j + y.len()) =~= y);
    assert(stands_at(x, s, i) && stands_at(y, s, j));
}

} // verus!
