//! Strings as sequences of characters: ordering, equality and decimal numbers.

use vstd::prelude::*;
use vstd::std_specs::iter::IteratorSpec;

verus! {

/// How two strings stand to each other in lexicographic order.
#[derive(Debug, Clone, Copy, PartialEq, Eq, Structural)]
pub enum Rank {
    Less,
    Equal,
    Greater,
}

/// Lexicographic order by code point, which is also the order of the UTF-8 bytes.
pub open spec fn lex_lt(a: Seq<char>, b: Seq<char>) -> bool
    decreases a.len(),
{
    if b.len() == 0 {
        false
    } else if a.len() == 0 {
        true
    } else if a[0] != b[0] {
        a[0] < b[0]
    } else {
        lex_lt(a.drop_first(), b.drop_first())
    }
}

pub proof fn lemma_lex_irreflexive(a: Seq<char>)
    ensures
        !lex_lt(a, a),
    decreases a.len(),
{
    if a.len() > 0 {
        lemma_lex_irreflexive(a.drop_first());
    }
}

pub proof fn lemma_lex_transitive(a: Seq<char>, b: Seq<char>, c: Seq<char>)
    requires
        lex_lt(a, b),
        lex_lt(b, c),
    ensures
        lex_lt(a, c),
    decreases a.len(),
{
    if a.len() > 0 && a[0] == b[0] && b[0] == c[0] {
        lemma_lex_transitive(a.drop_first(), b.drop_first(), c.drop_first());
    }
}

pub proof fn lemma_lex_total(a: Seq<char>, b: Seq<char>)
    ensures
        lex_lt(a, b) || a == b || lex_lt(b, a),
    decreases a.len(),
{
    if a.len() == 0 && b.len() == 0 {
        assert(a =~= b);
    } else if a.len() > 0 && b.len() > 0 && a[0] == b[0] {
        lemma_lex_total(a.drop_first(), b.drop_first());
        if a.drop_first() == b.drop_first() {
            assert(a =~= seq![a[0]] + a.drop_first());
            assert(b =~= seq![b[0]] + b.drop_first());
        }
    }
}

/// Orders two strings lexicographically.
pub fn compare(a: &str, b: &str) -> (r: Rank)
    ensures
        r == Rank::Less <==> lex_lt(a@, b@),
        r == Rank::Equal <==> a@ == b@,
        r == Rank::Greater <==> lex_lt(b@, a@),
{
    let mut x = a.chars();
    let mut y = b.chars();
    let ghost mut n: nat = a@.len();
    proof {
        lemma_lex_irreflexive(a@);
    }
    loop
        invariant
            n == x.remaining().len(),
            lex_lt(a@, b@) == lex_lt(x.remaining(), y.remaining()),
            lex_lt(b@, a@) == lex_lt(y.remaining(), x.remaining()),
            a@ == b@ <==> x.remaining() == y.remaining(),
        decreases n,
    {
        let ghost xs = x.remaining();
        let ghost ys = y.remaining();
        let c = x.next();
        let d = y.next();
        match (c, d) {
            (None, None) => {
                proof {
                    assert(xs =~= ys);
                    lemma_lex_irreflexive(xs);
                }
                return Rank::Equal;
            },
            (None, Some(_)) => {
                return Rank::Less;
            },
            (Some(_), None) => {
                return Rank::Greater;
            },
            (Some(p), Some(q)) => {
                if p < q {
                    return Rank::Less;
                }
                if q < p {
                    return Rank::Greater;
                }
                proof {
                    if xs.drop_first() == ys.drop_first() {
                        assert(xs =~= seq![xs[0]] + xs.drop_first());
                        assert(ys =~= seq![ys[0]] + ys.drop_first());
                    }
                    n = (n - 1) as nat;
                }
            },
        }
    }
}

/// Whether two strings hold the same characters.
pub fn same(a: &str, b: &str) -> (r: bool)
    ensures
        r == (a@ == b@),
{
    compare(a, b) == Rank::Equal
}

/// The texts of a list of strings.
pub open spec fn texts(v: Seq<String>) -> Seq<Seq<char>> {
    v.map_values(|s: String| s@)
}

/// Whether `k` is one of the strings.
pub fn contains_string(v: &Vec<String>, k: &str) -> (r: bool)
    ensures
        r == texts(v@).contains(k@),
{
    let mut i: usize = 0;
    while i < v.len()
        invariant
            0 <= i <= v.len(),
            forall|j: int| 0 <= j < i ==> #[trigger] texts(v@)[j] != k@,
        decreases v.len() - i,
    {
        if same(v[i].as_str(), k) {
            assert(texts(v@)[i as int] == k@);
            return true;
        }
        i = i + 1;
    }
    false
}

/// The characters of a string.
pub fn chars_of(s: &str) -> (r: Vec<char>)
    ensures
        r@ == s@,
{
    let mut it = s.chars();
    let mut v: Vec<char> = Vec::new();
    let ghost mut n: nat = s@.len();
    loop
        invariant
            s@ == v@ + it.remaining(),
            n == it.remaining().len(),
        decreases n,
    {
        let ghost rest = it.remaining();
        match it.next() {
            Some(c) => {
                v.push(c);
                proof {
                    n = (n - 1) as nat;
                    assert(rest =~= seq![c] + rest.drop_first());
                    assert(s@ =~= v@ + it.remaining());
                }
            },
            None => {
                assert(s@ =~= v@);
                return v;
            },
        }
    }
}

/// The first `n` characters, or all of them where there are fewer.
pub fn excerpt(s: &str, n: usize) -> (r: String)
    ensures
        r@ == s@.take(if n < s@.len() { n as int } else { s@.len() as int }),
{
    let len = s.unicode_len();
    let k = if n < len { n } else { len };
    s.substring_char(0, k).to_owned()
}

/// The text after `prefix`, where the string begins with it.
pub fn strip_prefix(s: &str, prefix: &str) -> (r: Option<String>)
    ensures
        match r {
            Some(rest) => s@ == prefix@ + rest@,
            None => !prefix@.is_prefix_of(s@),
        },
{
    let n = s.unicode_len();
    let k = prefix.unicode_len();
    if k > n {
        return None;
    }
    if same(s.substring_char(0, k), prefix) {
        assert(s@ =~= s@.subrange(0, k as int) + s@.subrange(k as int, n as int));
        Some(s.substring_char(k, n).to_owned())
    } else {
        proof {
            if prefix@.is_prefix_of(s@) {
                assert(s@.subrange(0, k as int) =~= prefix@);
            }
        }
        None
    }
}

/// `needle` stands somewhere in `hay`, without a gap.
pub open spec fn occurs(needle: Seq<char>, hay: Seq<char>) -> bool {
    exists|i: int| 0 <= i <= hay.len() - needle.len() && #[trigger] hay.subrange(i, i + needle.len()) == needle
}

/// Whether `needle` stands in `hay`.
pub fn contains_text(hay: &Vec<char>, needle: &Vec<char>) -> (r: bool)
    ensures
        r == occurs(needle@, hay@),
{
    let n = needle.len();
    if n > hay.len() {
        return false;
    }
    let last = hay.len() - n;
    let mut i: usize = 0;
    while i <= last
        invariant
            n == needle.len(),
            n <= hay.len(),
            last == hay.len() - n,
            0 <= i <= last + 1,
            forall|k: int| 0 <= k < i ==> #[trigger] hay@.subrange(k, k + n) != needle@,
        decreases last + 1 - i,
    {
        let mut j: usize = 0;
        while j < n && hay[i + j] == needle[j]
            invariant
                n == needle.len(),
                n <= hay.len(),
                last == hay.len() - n,
                0 <= i <= last,
                0 <= j <= n,
                forall|m: int| 0 <= m < j ==> hay@[i + m] == needle@[m],
            decreases n - j,
        {
            j = j + 1;
        }
        if j == n {
            assert(hay@.subrange(i as int, i + n) =~= needle@);
            return true;
        }
        proof {
            assert(hay@.subrange(i as int, i + n)[j as int] != needle@[j as int]);
        }
        if i == last {
            return false;
        }
        i = i + 1;
    }
    false
}

/// The characters with the Unicode property `White_Space`.
pub open spec fn white_space(c: char) -> bool {
    let n = c as int;
    ||| 0x9 <= n <= 0xd
    ||| n == 0x20
    ||| n == 0x85
    ||| n == 0xa0
    ||| n == 0x1680
    ||| 0x2000 <= n <= 0x200a
    ||| 0x2028 <= n <= 0x2029
    ||| n == 0x202f
    ||| n == 0x205f
    ||| n == 0x3000
}

/// `char::is_whitespace` says whether the character has the Unicode property `White_Space`.
pub assume_specification[ char::is_whitespace ](c: char) -> (r: bool)
    ensures
        r == white_space(c),
;

/// What `str::to_lowercase` makes of a text.
pub uninterp spec fn lowercase(s: Seq<char>) -> Seq<char>;

/// `str::to_lowercase` depends on the text alone: its result is named `lowercase`.
#[verifier::external_body]
pub(crate) fn to_lower(s: &str) -> (r: String)
    ensures
        r@ == lowercase(s@),
{
    s.to_lowercase()
}

/// A text without the white space it begins with.
pub open spec fn trim_start(s: Seq<char>) -> Seq<char>
    decreases s.len(),
{
    if s.len() > 0 && white_space(s[0]) {
        trim_start(s.drop_first())
    } else {
        s
    }
}

/// A text without the white space it ends with.
pub open spec fn trim_end(s: Seq<char>) -> Seq<char>
    decreases s.len(),
{
    if s.len() > 0 && white_space(s.last()) {
        trim_end(s.drop_last())
    } else {
        s
    }
}

/// A text without the white space round it.
pub open spec fn trimmed(s: Seq<char>) -> Seq<char> {
    trim_end(trim_start(s))
}

/// The text without the white space round it.
pub fn trim(s: &str) -> (r: String)
    ensures
        r@ == trimmed(s@),
{
    let cs = chars_of(s);
    let n = cs.len();
    let mut i: usize = 0;
    assert(cs@.skip(0) =~= cs@);
    while i < n && cs[i].is_whitespace()
        invariant
            n == cs.len(),
            0 <= i <= n,
            trim_start(cs@) == trim_start(cs@.skip(i as int)),
        decreases n - i,
    {
        assert(cs@.skip(i as int).drop_first() =~= cs@.skip(i + 1));
        i = i + 1;
    }
    let ghost from = cs@.skip(i as int);
    assert(trim_start(cs@) == from);
    let mut j: usize = n;
    assert(cs@.subrange(i as int, n as int) =~= from);
    while i < j && cs[j - 1].is_whitespace()
        invariant
            n == cs.len(),
            0 <= i <= j <= n,
            trim_end(from) == trim_end(cs@.subrange(i as int, j as int)),
        decreases j,
    {
        assert(cs@.subrange(i as int, j as int).drop_last() =~= cs@.subrange(i as int, j - 1));
        j = j - 1;
    }
    s.substring_char(i, j).to_owned()
}

/// Where the first white space at or after `i` is, or the end of the text.
pub open spec fn word_end(s: Seq<char>, i: int) -> int
    decreases s.len() - i,
{
    if 0 <= i < s.len() && !white_space(s[i]) {
        word_end(s, i + 1)
    } else {
        i
    }
}

/// The words of the text from `i` on: its longest stretches without white space.
pub open spec fn words_from(s: Seq<char>, i: int) -> Seq<Seq<char>>
    decreases s.len() - i,
    when 0 <= i
    via words_from_decreases
{
    if i >= s.len() {
        Seq::empty()
    } else if white_space(s[i]) {
        words_from(s, i + 1)
    } else {
        seq![s.subrange(i, word_end(s, i))] + words_from(s, word_end(s, i))
    }
}

#[via_fn]
proof fn words_from_decreases(s: Seq<char>, i: int) {
    if i < s.len() && !white_space(s[i]) {
        lemma_word_end(s, i);
    }
}

proof fn lemma_word_end(s: Seq<char>, i: int)
    requires
        0 <= i <= s.len(),
    ensures
        i <= word_end(s, i) <= s.len(),
        i < s.len() && !white_space(s[i]) ==> i < word_end(s, i),
    decreases s.len() - i,
{
    if i < s.len() && !white_space(s[i]) {
        lemma_word_end(s, i + 1);
    }
}

/// The words of a text.
pub open spec fn words_of(s: Seq<char>) -> Seq<Seq<char>> {
    words_from(s, 0)
}

/// The words of the text, in order.
pub fn words(s: &str) -> (r: Vec<String>)
    ensures
        texts(r@) == words_of(s@),
{
    let cs = chars_of(s);
    let n = cs.len();
    let mut out: Vec<String> = Vec::new();
    let mut i: usize = 0;
    assert(texts(out@) + words_from(s@, 0) =~= words_of(s@));
    while i < n
        invariant
            n == cs.len(),
            cs@ == s@,
            0 <= i <= n,
            texts(out@) + words_from(s@, i as int) == words_of(s@),
        decreases n - i,
    {
        if cs[i].is_whitespace() {
            i = i + 1;
        } else {
            let start = i;
            while i < n && !cs[i].is_whitespace()
                invariant
                    n == cs.len(),
                    cs@ == s@,
                    start <= i <= n,
                    i == start ==> i < n && !white_space(s@[i as int]),
                    word_end(s@, start as int) == word_end(s@, i as int),
                decreases n - i,
            {
                i = i + 1;
            }
            let w = s.substring_char(start, i).to_owned();
            let ghost o0 = out@;
            out.push(w);
            proof {
                let we = word_end(s@, start as int);
                assert(we == i);
                assert(texts(out@) =~= texts(o0).push(w@));
                assert(words_from(s@, start as int) == seq![s@.subrange(start as int, we)] + words_from(s@, we));
                assert(texts(out@) + words_from(s@, i as int) =~= texts(o0) + words_from(s@, start as int));
            }
        }
    }
    assert(texts(out@) =~= words_of(s@));
    out
}

/// Where the first `sep` at or after `i` is, or the end of the text.
pub open spec fn piece_end(s: Seq<char>, sep: char, i: int) -> int
    decreases s.len() - i,
{
    if 0 <= i < s.len() && s[i] != sep {
        piece_end(s, sep, i + 1)
    } else {
        i
    }
}

proof fn lemma_piece_end(s: Seq<char>, sep: char, i: int)
    requires
        0 <= i <= s.len(),
    ensures
        i <= piece_end(s, sep, i) <= s.len(),
    decreases s.len() - i,
{
    if i < s.len() && s[i] != sep {
        lemma_piece_end(s, sep, i + 1);
    }
}

/// The pieces between separators from `i` on, each trimmed, without the empty ones.
pub open spec fn pieces_from(s: Seq<char>, sep: char, i: int) -> Seq<Seq<char>>
    decreases s.len() - i,
    when 0 <= i <= s.len()
    via pieces_from_decreases
{
    let e = piece_end(s, sep, i);
    let p = trimmed(s.subrange(i, e));
    let here = if p.len() == 0 { Seq::empty() } else { seq![p] };
    if e >= s.len() {
        here
    } else {
        here + pieces_from(s, sep, e + 1)
    }
}

#[via_fn]
proof fn pieces_from_decreases(s: Seq<char>, sep: char, i: int) {
    lemma_piece_end(s, sep, i);
}

/// Splits a text at each `sep`, trims the pieces and drops the empty ones.
pub fn split_list(s: &str, sep: char) -> (r: Vec<String>)
    ensures
        texts(r@) == pieces_from(s@, sep, 0),
{
    let cs = chars_of(s);
    let n = cs.len();
    let mut out: Vec<String> = Vec::new();
    let mut start: usize = 0;
    assert(texts(out@) + pieces_from(s@, sep, 0) =~= pieces_from(s@, sep, 0));
    loop
        invariant
            n == cs.len(),
            cs@ == s@,
            0 <= start <= n,
            texts(out@) + pieces_from(s@, sep, start as int) == pieces_from(s@, sep, 0),
        decreases n - start,
    {
        let mut i = start;
        while i < n && cs[i] != sep
            invariant
                n == cs.len(),
                cs@ == s@,
                start <= i <= n,
                piece_end(s@, sep, start as int) == piece_end(s@, sep, i as int),
            decreases n - i,
        {
            i = i + 1;
        }
        assert(piece_end(s@, sep, start as int) == i);
        let p = trim(s.substring_char(start, i));
        let ghost o0 = out@;
        if !p.as_str().is_empty() {
            out.push(p);
            assert(texts(out@) =~= texts(o0).push(p@));
        }
        if i >= n {
            assert(texts(out@) =~= pieces_from(s@, sep, 0));
            return out;
        }
        assert(texts(out@) + pieces_from(s@, sep, i + 1) =~= texts(o0) + pieces_from(s@, sep, start as int));
        start = i + 1;
    }
}

/// The character of a decimal digit.
pub open spec fn digit(d: int) -> char {
    seq!['0', '1', '2', '3', '4', '5', '6', '7', '8', '9'][d]
}

/// A natural number in decimal, without leading zeros.
pub open spec fn decimal_nat(n: nat) -> Seq<char>
    decreases n,
{
    if n < 10 {
        seq![digit(n as int)]
    } else {
        decimal_nat(n / 10).push(digit((n % 10) as int))
    }
}

/// An integer in decimal.
pub open spec fn decimal(n: int) -> Seq<char> {
    if n < 0 {
        seq!['-'] + decimal_nat((-n) as nat)
    } else {
        decimal_nat(n as nat)
    }
}

fn digit_text(d: u128) -> (r: &'static str)
    requires
        d < 10,
    ensures
        r@ == seq![digit(d as int)],
{
    proof {
        reveal_strlit("0");
        reveal_strlit("1");
        reveal_strlit("2");
        reveal_strlit("3");
        reveal_strlit("4");
        reveal_strlit("5");
        reveal_strlit("6");
        reveal_strlit("7");
        reveal_strlit("8");
        reveal_strlit("9");
    }
    match d {
        0 => "0",
        1 => "1",
        2 => "2",
        3 => "3",
        4 => "4",
        5 => "5",
        6 => "6",
        7 => "7",
        8 => "8",
        _ => "9",
    }
}

/// A natural number in decimal.
pub fn decimal_of_u128(n: u128) -> (r: String)
    ensures
        r@ == decimal_nat(n as nat),
    decreases n,
{
    let mut s = if n < 10 {
        String::new()
    } else {
        decimal_of_u128(n / 10)
    };
    s.append(digit_text(n % 10));
    assert(s@ =~= decimal_nat(n as nat));
    s
}

/// A natural number in decimal.
pub fn decimal_of_u64(n: u64) -> (r: String)
    ensures
        r@ == decimal_nat(n as nat),
{
    decimal_of_u128(n as u128)
}

/// An integer in decimal.
pub fn decimal_of_i128(n: i128) -> (r: String)
    ensures
        r@ == decimal(n as int),
{
    if n < 0 {
        let m: u128 = (-(n + 1)) as u128 + 1;
        let mut s = "-".to_owned();
        s.append(decimal_of_u128(m).as_str());
        proof {
            reveal_strlit("-");
            assert(s@ =~= decimal(n as int));
        }
        s
    } else {
        decimal_of_u128(n as u128)
    }
}

/// An integer in decimal.
pub fn decimal_of(n: i64) -> (r: String)
    ensures
        r@ == decimal(n as int),
{
    decimal_of_i128(n as i128)
}

proof fn lemma_digits_distinct(a: int, b: int)
    requires
        0 <= a < 10,
        0 <= b < 10,
        digit(a) == digit(b),
    ensures
        a == b,
{
}

proof fn lemma_decimal_nat_injective(a: nat, b: nat)
    requires
        decimal_nat(a) == decimal_nat(b),
    ensures
        a == b,
    decreases a,
{
    let s = decimal_nat(a);
    let t = decimal_nat(b);
    lemma_decimal_nat_shape(a);
    lemma_decimal_nat_shape(b);
    lemma_digits_distinct((a % 10) as int, (b % 10) as int);
    if a >= 10 && b >= 10 {
        assert(s.drop_last() =~= decimal_nat(a / 10));
        assert(t.drop_last() =~= decimal_nat(b / 10));
        lemma_decimal_nat_injective(a / 10, b / 10);
    }
}

proof fn lemma_decimal_nat_shape(a: nat)
    ensures
        decimal_nat(a).len() > 0,
        a < 10 <==> decimal_nat(a).len() == 1,
        decimal_nat(a).last() == digit((a % 10) as int),
        decimal_nat(a)[0] != '-',
    decreases a,
{
    if a >= 10 {
        lemma_decimal_nat_shape(a / 10);
    }
}

/// Two integers have the same decimal text only where they are equal.
pub proof fn lemma_decimal_injective(a: int, b: int)
    requires
        decimal(a) == decimal(b),
    ensures
        a == b,
{
    if a < 0 {
        lemma_decimal_nat_shape((-a) as nat);
        assert(decimal(a)[0] == '-');
    } else {
        lemma_decimal_nat_shape(a as nat);
    }
    if b < 0 {
        lemma_decimal_nat_shape((-b) as nat);
        assert(decimal(b)[0] == '-');
    } else {
        lemma_decimal_nat_shape(b as nat);
    }
    if a < 0 && b < 0 {
        assert(decimal(a).skip(1) =~= decimal_nat((-a) as nat));
        assert(decimal(b).skip(1) =~= decimal_nat((-b) as nat));
        lemma_decimal_nat_injective((-a) as nat, (-b) as nat);
    } else if a >= 0 && b >= 0 {
        lemma_decimal_nat_injective(a as nat, b as nat);
    }
}

/// The strings one after the other, with `sep` between them.
pub open spec fn joined(v: Seq<Seq<char>>, sep: Seq<char>) -> Seq<char>
    decreases v.len(),
{
    if v.len() == 0 {
        Seq::empty()
    } else if v.len() == 1 {
        v[0]
    } else {
        joined(v.drop_last(), sep) + sep + v.last()
    }
}

/// The strings one after the other, with `sep` between them.
pub fn join(v: &Vec<String>, sep: &str) -> (r: String)
    ensures
        r@ == joined(texts(v@), sep@),
{
    let mut s = String::new();
    let ghost all = texts(v@);
    let mut i: usize = 0;
    while i < v.len()
        invariant
            0 <= i <= v.len(),
            all == texts(v@),
            s@ == joined(all.take(i as int), sep@),
        decreases v.len() - i,
    {
        assert(all.take(i + 1).drop_last() =~= all.take(i as int));
        assert(all.take(i + 1).last() == all[i as int]);
        if i > 0 {
            s.append(sep);
        }
        s.append(v[i].as_str());
        assert(s@ =~= joined(all.take(i + 1), sep@));
        i = i + 1;
    }
    assert(all.take(i as int) =~= all);
    s
}

} // verus!
