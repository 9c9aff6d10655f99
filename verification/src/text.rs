//! Text primitives used by the search and page logic: whitespace, trimming,
//! splitting into words, joining, infix search and decimal `i32` parsing.
//!
//! Each operation is stated over `Seq<char>` and follows the documented
//! behaviour of its std counterpart (`char::is_whitespace`, `str::trim`,
//! `str::split_whitespace`, `str::contains`, `<i32 as FromStr>::from_str`).
use vstd::prelude::*;

verus! {

broadcast use vstd::string::group_string_axioms;

/// The characters with the Unicode `White_Space` property.
pub open spec fn is_space(c: char) -> bool {
    ||| ('\u{9}' <= c && c <= '\u{d}')
    ||| c == ' '
    ||| c == '\u{85}'
    ||| c == '\u{a0}'
    ||| c == '\u{1680}'
    ||| ('\u{2000}' <= c && c <= '\u{200a}')
    ||| c == '\u{2028}'
    ||| c == '\u{2029}'
    ||| c == '\u{202f}'
    ||| c == '\u{205f}'
    ||| c == '\u{3000}'
}

/// `s` holds no whitespace character.
pub open spec fn no_space(s: Seq<char>) -> bool {
    forall|i: int| 0 <= i < s.len() ==> !is_space(#[trigger] s[i])
}

/// Every character of `s` is whitespace.
pub open spec fn all_space(s: Seq<char>) -> bool {
    forall|i: int| 0 <= i < s.len() ==> is_space(#[trigger] s[i])
}

/// `s` without its leading whitespace.
pub open spec fn trim_start(s: Seq<char>) -> Seq<char>
    decreases s.len(),
{
    if s.len() > 0 && is_space(s[0]) {
        trim_start(s.drop_first())
    } else {
        s
    }
}

/// `s` without its trailing whitespace.
pub open spec fn trim_end(s: Seq<char>) -> Seq<char>
    decreases s.len(),
{
    if s.len() > 0 && is_space(s.last()) {
        trim_end(s.drop_last())
    } else {
        s
    }
}

/// `s` without leading and trailing whitespace.
pub open spec fn trimmed(s: Seq<char>) -> Seq<char> {
    trim_end(trim_start(s))
}

/// The words of `s`: its maximal runs of non-whitespace characters, in order.
/// Stated by how the list grows when one character is appended.
pub open spec fn words(s: Seq<char>) -> Seq<Seq<char>>
    decreases s.len(),
{
    if s.len() == 0 {
        seq![]
    } else {
        let p = s.drop_last();
        let c = s.last();
        let w = words(p);
        if is_space(c) {
            w
        } else if p.len() > 0 && !is_space(p.last()) {
            w.update(w.len() - 1, w.last().push(c))
        } else {
            w.push(seq![c])
        }
    }
}

/// Every entry is a non-empty run without whitespace.
pub open spec fn all_words(ws: Seq<Seq<char>>) -> bool {
    forall|i: int| 0 <= i < ws.len() ==> (#[trigger] ws[i]).len() > 0 && no_space(ws[i])
}

/// The entries of `ws` with `sep` between each two neighbours.
pub open spec fn joined(ws: Seq<Seq<char>>, sep: Seq<char>) -> Seq<char>
    decreases ws.len(),
{
    if ws.len() == 0 {
        seq![]
    } else if ws.len() == 1 {
        ws[0]
    } else {
        joined(ws.drop_last(), sep) + sep + ws.last()
    }
}

/// `needle` occurs in `hay` as a contiguous run.
pub open spec fn has_infix(hay: Seq<char>, needle: Seq<char>) -> bool {
    exists|i: int|
        0 <= i && i + needle.len() <= hay.len() && #[trigger] hay.subrange(i, i + needle.len())
            == needle
}

/// An ASCII decimal digit.
pub open spec fn is_digit(c: char) -> bool {
    '0' <= c && c <= '9'
}

/// The value of a digit character.
pub open spec fn digit_value(c: char) -> int {
    (c as int) - ('0' as int)
}

/// The value of a run of decimal digits, most significant first.
pub open spec fn digits_value(s: Seq<char>) -> int
    decreases s.len(),
{
    if s.len() == 0 {
        0
    } else {
        digits_value(s.drop_last()) * 10 + digit_value(s.last())
    }
}

/// Every character of `s` is a decimal digit.
pub open spec fn all_digits(s: Seq<char>) -> bool {
    forall|i: int| 0 <= i < s.len() ==> is_digit(#[trigger] s[i])
}

/// Decimal `i32` syntax: an optional `+` or `-`, then one or more digits,
/// nothing else, and a value within the range of `i32`.
pub open spec fn parsed_i32(s: Seq<char>) -> Option<i32> {
    let neg = s.len() > 0 && s[0] == '-';
    let signed = s.len() > 0 && (s[0] == '-' || s[0] == '+');
    let d = if signed {
        s.drop_first()
    } else {
        s
    };
    let v = if neg {
        -digits_value(d)
    } else {
        digits_value(d)
    };
    if d.len() > 0 && all_digits(d) && i32::MIN <= v && v <= i32::MAX {
        Some(v as i32)
    } else {
        None
    }
}

/// The digit character of `d` (`0 <= d < 10`).
pub open spec fn digit_char(d: nat) -> char {
    ((d + '0' as nat) as u32) as char
}

/// The decimal digits of `n`, most significant first, with no leading zero.
pub open spec fn digits_of(n: nat) -> Seq<char>
    decreases n,
{
    if n < 10 {
        seq![digit_char(n)]
    } else {
        digits_of(n / 10).push(digit_char(n % 10))
    }
}

/// `n` written in decimal, with a `-` before a negative number.
pub open spec fn decimal(n: int) -> Seq<char> {
    if n < 0 {
        seq!['-'] + digits_of((-n) as nat)
    } else {
        digits_of(n as nat)
    }
}

// ---------------------------------------------------------------------------
// Lemmas
// ---------------------------------------------------------------------------

proof fn lemma_words_last_not_space(s: Seq<char>)
    requires
        s.len() > 0,
        !is_space(s.last()),
    ensures
        words(s).len() > 0,
    decreases s.len(),
{
    let p = s.drop_last();
    if p.len() > 0 && !is_space(p.last()) {
        lemma_words_last_not_space(p);
    }
}

/// Each word is non-empty and holds no whitespace.
pub proof fn lemma_words_are_words(s: Seq<char>)
    ensures
        all_words(words(s)),
    decreases s.len(),
{
    if s.len() > 0 {
        let p = s.drop_last();
        let c = s.last();
        lemma_words_are_words(p);
        let w = words(p);
        if is_space(c) {
        } else if p.len() > 0 && !is_space(p.last()) {
            lemma_words_last_not_space(p);
            let nw = w.update(w.len() - 1, w.last().push(c));
            assert forall|i: int| 0 <= i < nw.len() implies (#[trigger] nw[i]).len() > 0 && no_space(
                nw[i],
            ) by {
                if i == w.len() - 1 {
                    assert(w[i].len() > 0 && no_space(w[i]));
                    assert forall|k: int| 0 <= k < nw[i].len() implies !is_space(
                        #[trigger] nw[i][k],
                    ) by {
                        if k < w[i].len() {
                            assert(nw[i][k] == w[i][k]);
                        }
                    }
                }
            }
        } else {
            let nw = w.push(seq![c]);
            assert forall|i: int| 0 <= i < nw.len() implies (#[trigger] nw[i]).len() > 0 && no_space(
                nw[i],
            ) by {
                if i < w.len() {
                    assert(nw[i] == w[i]);
                }
            }
        }
    }
}

proof fn lemma_words_all_space(s: Seq<char>)
    requires
        all_space(s),
    ensures
        words(s) == Seq::<Seq<char>>::empty(),
    decreases s.len(),
{
    if s.len() > 0 {
        lemma_words_all_space(s.drop_last());
    }
}

/// Words do not run across a whitespace boundary.
proof fn lemma_words_concat(a: Seq<char>, b: Seq<char>)
    requires
        a.len() == 0 || is_space(a.last()),
    ensures
        words(a + b) == words(a) + words(b),
    decreases b.len(),
{
    if b.len() == 0 {
        assert(a + b =~= a);
        assert(words(a) + words(b) =~= words(a));
    } else {
        let b1 = b.drop_last();
        let c = b.last();
        lemma_words_concat(a, b1);
        let ab = a + b;
        assert(ab.drop_last() =~= a + b1);
        assert(ab.last() == c);
        let p = a + b1;
        if is_space(c) {
        } else if p.len() > 0 && !is_space(p.last()) {
            assert(b1.len() > 0) by {
                if b1.len() == 0 {
                    assert(p =~= a);
                }
            }
            assert(p.last() == b1.last());
            lemma_words_last_not_space(b1);
            let wa = words(a);
            let wb = words(b1);
            assert((wa + wb).update((wa + wb).len() - 1, (wa + wb).last().push(c)) =~= wa + wb.update(
                wb.len() - 1,
                wb.last().push(c),
            ));
        } else {
            if b1.len() > 0 {
                assert(p.last() == b1.last());
            }
            assert((words(a) + words(b1)).push(seq![c]) =~= words(a) + words(b1).push(seq![c]));
        }
    }
}

proof fn lemma_trim_start_words(s: Seq<char>)
    ensures
        words(trim_start(s)) == words(s),
    decreases s.len(),
{
    if s.len() > 0 && is_space(s[0]) {
        let a = seq![s[0]];
        let rest = s.drop_first();
        lemma_trim_start_words(rest);
        lemma_words_concat(a, rest);
        assert(a + rest =~= s);
        lemma_words_all_space(a);
        assert(words(a) + words(rest) =~= words(rest));
    }
}

proof fn lemma_trim_end_words(s: Seq<char>)
    ensures
        words(trim_end(s)) == words(s),
    decreases s.len(),
{
    if s.len() > 0 && is_space(s.last()) {
        lemma_trim_end_words(s.drop_last());
    }
}

/// Trimming keeps the words.
pub proof fn lemma_trimmed_words(s: Seq<char>)
    ensures
        words(trimmed(s)) == words(s),
{
    lemma_trim_start_words(s);
    lemma_trim_end_words(trim_start(s));
}

/// A single word splits into itself.
pub proof fn lemma_words_single(w: Seq<char>)
    requires
        w.len() > 0,
        no_space(w),
    ensures
        words(w) == seq![w],
    decreases w.len(),
{
    let p = w.drop_last();
    assert(!is_space(w[w.len() - 1]));
    if p.len() > 0 {
        assert forall|i: int| 0 <= i < p.len() implies !is_space(#[trigger] p[i]) by {
            assert(p[i] == w[i]);
        }
        lemma_words_single(p);
        assert(p.last() == w[w.len() - 2]);
        assert(p.push(w.last()) =~= w);
        assert(!is_space(p.last()));
        assert(words(w) == words(p).update(words(p).len() - 1, words(p).last().push(w.last())));
        assert(seq![p].update(0, p.push(w.last())) =~= seq![w]);
    } else {
        assert(seq![w.last()] =~= w);
        assert(words(p) =~= Seq::<Seq<char>>::empty());
        assert(words(w) == words(p).push(seq![w.last()]));
        assert(Seq::<Seq<char>>::empty().push(seq![w.last()]) =~= seq![w]);
    }
}

/// Joining words with a single space and splitting again gives the words back.
pub proof fn lemma_words_of_joined(ws: Seq<Seq<char>>)
    requires
        all_words(ws),
    ensures
        words(joined(ws, seq![' '])) == ws,
    decreases ws.len(),
{
    if ws.len() == 0 {
    } else if ws.len() == 1 {
        assert(ws[0].len() > 0 && no_space(ws[0]));
        lemma_words_single(ws[0]);
        assert(ws =~= seq![ws[0]]);
    } else {
        let init = ws.drop_last();
        assert forall|i: int| 0 <= i < init.len() implies (#[trigger] init[i]).len() > 0 && no_space(
            init[i],
        ) by {
            assert(init[i] == ws[i]);
        }
        lemma_words_of_joined(init);
        let x = joined(init, seq![' ']);
        let xs = x + seq![' '];
        assert(xs.last() == ' ');
        lemma_words_concat(xs, ws.last());
        assert(xs.drop_last() =~= x);
        assert(ws.last() == ws[ws.len() - 1]);
        lemma_words_single(ws.last());
        assert(init.push(ws.last()) =~= ws);
    }
}

proof fn lemma_digits_of(n: nat)
    ensures
        all_digits(digits_of(n)),
        digits_value(digits_of(n)) == n,
        digits_of(n).len() > 0,
    decreases n,
{
    if n < 10 {
        let s = digits_of(n);
        assert(s.drop_last() =~= Seq::<char>::empty());
        assert(digits_value(Seq::<char>::empty()) == 0);
        assert(digit_value(digit_char(n)) == n);
        assert(s.last() == digit_char(n));
        assert(digits_value(s) == digits_value(s.drop_last()) * 10 + digit_value(s.last()));
    } else {
        lemma_digits_of(n / 10);
        let p = digits_of(n / 10);
        let s = digits_of(n);
        assert(s.drop_last() =~= p);
        assert(digit_value(digit_char(n % 10)) == n % 10);
        assert forall|i: int| 0 <= i < s.len() implies is_digit(#[trigger] s[i]) by {
            if i < p.len() {
                assert(s[i] == p[i]);
            }
        }
        assert((n / 10) * 10 + n % 10 == n);
        assert(s.last() == digit_char(n % 10));
        assert(digits_value(s) == digits_value(s.drop_last()) * 10 + digit_value(s.last()));
    }
}

/// Reading a number written in decimal gives the number back.
pub proof fn lemma_parse_decimal(n: i32)
    ensures
        parsed_i32(decimal(n as int)) == Some(n),
{
    let s = decimal(n as int);
    if n < 0 {
        lemma_digits_of((-n) as nat);
        assert(s.drop_first() =~= digits_of((-n) as nat));
    } else {
        lemma_digits_of(n as nat);
        let d = digits_of(n as nat);
        assert(is_digit(d[0]));
    }
}


/// A number in decimal starts and ends with a character that is not
/// whitespace, so trimming keeps it whole.
pub proof fn lemma_decimal_has_no_space(n: int)
    ensures
        trimmed(decimal(n)) == decimal(n),
{
    let s = decimal(n);
    if n < 0 {
        lemma_digits_of((-n) as nat);
        let d = digits_of((-n) as nat);
        assert(is_digit(d[d.len() - 1]));
        assert(s.last() == d.last());
    } else {
        lemma_digits_of(n as nat);
        let d = digits_of(n as nat);
        assert(is_digit(d[0]));
        assert(is_digit(d[d.len() - 1]));
    }
    assert(trim_start(s) == s);
    assert(trim_end(s) == s);
}

proof fn lemma_trim_start_after_space(w: Seq<char>, x: Seq<char>)
    requires
        all_space(w),
    ensures
        trim_start(w + x) == trim_start(x),
    decreases w.len(),
{
    if w.len() > 0 {
        assert((w + x)[0] == w[0]);
        assert((w + x).drop_first() =~= w.drop_first() + x);
        lemma_trim_start_after_space(w.drop_first(), x);
    } else {
        assert(w + x =~= x);
    }
}

proof fn lemma_trim_end_before_space(x: Seq<char>, w: Seq<char>)
    requires
        all_space(w),
    ensures
        trim_end(x + w) == trim_end(x),
    decreases w.len(),
{
    if w.len() > 0 {
        assert((x + w).last() == w.last());
        assert((x + w).drop_last() =~= x + w.drop_last());
        lemma_trim_end_before_space(x, w.drop_last());
    } else {
        assert(x + w =~= x);
    }
}

proof fn lemma_trim_start_keeps_tail(s: Seq<char>, w: Seq<char>)
    requires
        !all_space(s),
    ensures
        trim_start(s + w) == trim_start(s) + w,
    decreases s.len(),
{
    assert(s.len() > 0);
    assert((s + w)[0] == s[0]);
    if is_space(s[0]) {
        assert((s + w).drop_first() =~= s.drop_first() + w);
        assert(!all_space(s.drop_first())) by {
            let i = choose|i: int| 0 <= i < s.len() && !is_space(#[trigger] s[i]);
            assert(i > 0);
            assert(s.drop_first()[i - 1] == s[i]);
        }
        lemma_trim_start_keeps_tail(s.drop_first(), w);
    }
}

proof fn lemma_trim_start_all_space(s: Seq<char>)
    requires
        all_space(s),
    ensures
        trim_start(s) == Seq::<char>::empty(),
    decreases s.len(),
{
    if s.len() > 0 {
        assert(is_space(s[0]));
        let t = s.drop_first();
        assert(all_space(t)) by {
            assert forall|i: int| 0 <= i < t.len() implies is_space(#[trigger] t[i]) by {
                assert(t[i] == s[i + 1]);
            }
        }
        lemma_trim_start_all_space(t);
    }
}

proof fn lemma_words_before_space(s: Seq<char>, w: Seq<char>)
    requires
        all_space(w),
    ensures
        words(s + w) == words(s),
    decreases w.len(),
{
    if w.len() > 0 {
        assert((s + w).last() == w.last());
        assert((s + w).drop_last() =~= s + w.drop_last());
        lemma_words_before_space(s, w.drop_last());
    } else {
        assert(s + w =~= s);
    }
}

/// Whitespace around a text changes neither its trimmed form nor its words.
pub proof fn lemma_padding(w1: Seq<char>, s: Seq<char>, w2: Seq<char>)
    requires
        all_space(w1),
        all_space(w2),
    ensures
        trimmed(w1 + s + w2) == trimmed(s),
        words(w1 + s + w2) == words(s),
{
    assert(w1 + s + w2 =~= w1 + (s + w2));
    lemma_trim_start_after_space(w1, s + w2);
    if all_space(s) {
        let sw = s + w2;
        assert(all_space(sw)) by {
            assert forall|i: int| 0 <= i < sw.len() implies is_space(#[trigger] sw[i]) by {
                if i < s.len() {
                    assert(sw[i] == s[i]);
                } else {
                    assert(sw[i] == w2[i - s.len()]);
                }
            }
        }
        lemma_trim_start_all_space(sw);
        lemma_trim_start_all_space(s);
    } else {
        lemma_trim_start_keeps_tail(s, w2);
        lemma_trim_end_before_space(trim_start(s), w2);
    }
    if w1.len() > 0 {
        assert(w1.last() == w1[w1.len() - 1]);
    }
    lemma_words_concat(w1, s + w2);
    lemma_words_all_space(w1);
    assert(words(w1) + words(s + w2) =~= words(s + w2));
    lemma_words_before_space(s, w2);
}

/// Joining at least three entries: the first two, then the rest.
pub proof fn lemma_joined_rest(ws: Seq<Seq<char>>)
    requires
        ws.len() >= 3,
    ensures
        joined(ws, seq![' ']) == ws[0] + seq![' '] + ws[1] + seq![' '] + joined(ws.skip(2), seq![' ']),
    decreases ws.len(),
{
    let sep = seq![' '];
    let init = ws.drop_last();
    if ws.len() == 3 {
        assert(init.drop_last() =~= seq![ws[0]]);
        assert(ws.skip(2) =~= seq![ws[2]]);
        assert(init[0] == ws[0] && init[1] == ws[1] && ws.last() == ws[2]);
        assert(joined(init, sep) == joined(init.drop_last(), sep) + sep + init.last());
    } else {
        lemma_joined_rest(init);
        assert(init[0] == ws[0] && init[1] == ws[1]);
        assert(init.skip(2) =~= ws.skip(2).drop_last());
        assert(ws.skip(2).last() == ws.last());
        assert(ws.skip(2).len() >= 2);
    }
}

proof fn lemma_digits_value_nonneg(s: Seq<char>)
    requires
        all_digits(s),
    ensures
        digits_value(s) >= 0,
    decreases s.len(),
{
    if s.len() > 0 {
        assert(is_digit(s[s.len() - 1]));
        let p = s.drop_last();
        assert forall|i: int| 0 <= i < p.len() implies is_digit(#[trigger] p[i]) by {
            assert(p[i] == s[i]);
        }
        lemma_digits_value_nonneg(p);
    }
}

// ---------------------------------------------------------------------------
// Executable operations
// ---------------------------------------------------------------------------

/// The characters of `s`, one by one.
pub fn chars_of(s: &str) -> (r: Vec<char>)
    ensures
        r@ == s@,
{
    let mut out: Vec<char> = Vec::new();
    for c in it: s.chars()
        invariant
            out@ == it.seq().take(it.index()),
            it.seq() == s@,
    {
        out.push(c);
    }
    out
}

/// Whether `c` is whitespace (`char::is_whitespace`).
pub fn is_space_char(c: char) -> (r: bool)
    ensures
        r == is_space(c),
{
    ('\u{9}' <= c && c <= '\u{d}') || c == ' ' || c == '\u{85}' || c == '\u{a0}' || c == '\u{1680}'
        || ('\u{2000}' <= c && c <= '\u{200a}') || c == '\u{2028}' || c == '\u{2029}' || c
        == '\u{202f}' || c == '\u{205f}' || c == '\u{3000}'
}

/// `s` with leading and trailing whitespace removed (`str::trim`).
pub fn trim(s: &str) -> (r: String)
    ensures
        r@ == trimmed(s@),
{
    let v = chars_of(s);
    let n = v.len();
    let mut i: usize = 0;
    assert(s@.subrange(0, n as int) =~= s@);
    while i < n && is_space_char(v[i])
        invariant
            v@ == s@,
            n == v@.len(),
            i <= n,
            trim_start(s@) == trim_start(s@.subrange(i as int, n as int)),
        decreases n - i,
    {
        assert(s@.subrange(i as int, n as int).drop_first() =~= s@.subrange(i + 1, n as int));
        i = i + 1;
    }
    assert(trim_start(s@) == s@.subrange(i as int, n as int));
    let mut j: usize = n;
    while j > i && is_space_char(v[j - 1])
        invariant
            v@ == s@,
            n == v@.len(),
            i <= j <= n,
            trim_end(s@.subrange(i as int, n as int)) == trim_end(s@.subrange(i as int, j as int)),
        decreases j,
    {
        assert(s@.subrange(i as int, j as int).drop_last() =~= s@.subrange(i as int, j - 1));
        j = j - 1;
    }
    let sub = s.substring_char(i, j);
    sub.to_owned()
}

/// The words of `s` (`str::split_whitespace`).
pub fn split_words(s: &str) -> (r: Vec<String>)
    ensures
        r.deep_view() == words(s@),
{
    let v = chars_of(s);
    let n = v.len();
    let mut out: Vec<String> = Vec::new();
    let mut start: usize = 0;
    let mut in_word = false;
    let mut i: usize = 0;
    while i < n
        invariant
            v@ == s@,
            n == v@.len(),
            i <= n,
            in_word ==> start < i,
            in_word <==> (i > 0 && !is_space(s@[i - 1])),
            words(s@.take(i as int)) == out.deep_view() + (if in_word {
                seq![s@.subrange(start as int, i as int)]
            } else {
                Seq::<Seq<char>>::empty()
            }),
        decreases n - i,
    {
        let c = v[i];
        let ghost pre = s@.take(i as int);
        assert(s@.take(i + 1).drop_last() =~= pre);
        assert(s@.take(i + 1).last() == c);
        if is_space_char(c) {
            if in_word {
                let ghost before = out.deep_view();
                let w = s.substring_char(start, i).to_owned();
                out.push(w);
                assert(out.deep_view() =~= before.push(s@.subrange(start as int, i as int)));
                in_word = false;
            }
        } else {
            if in_word {
                assert(pre.last() == s@[i - 1]);
                assert(s@.subrange(start as int, i as int).push(c) =~= s@.subrange(
                    start as int,
                    i + 1,
                ));
            } else {
                if i > 0 {
                    assert(pre.last() == s@[i - 1]);
                }
                start = i;
                in_word = true;
                assert(s@.subrange(i as int, i + 1) =~= seq![c]);
            }
        }
        i = i + 1;
    }
    if in_word {
        let ghost before = out.deep_view();
        let w = s.substring_char(start, n).to_owned();
        out.push(w);
        assert(out.deep_view() =~= before.push(s@.subrange(start as int, n as int)));
    }
    assert(s@.take(n as int) =~= s@);
    out
}

/// The entries of `ws` from index `from` on, with `sep` between neighbours
/// (`[&str]::join`).
pub fn join_from(ws: &Vec<String>, from: usize, sep: &str) -> (r: String)
    requires
        from <= ws.len(),
    ensures
        r@ == joined(ws.deep_view().skip(from as int), sep@),
{
    let mut res = String::new();
    let n = ws.len();
    let mut k = from;
    while k < n
        invariant
            from <= k <= n,
            n == ws.len(),
            res@ == joined(ws.deep_view().subrange(from as int, k as int), sep@),
        decreases n - k,
    {
        let ghost before = ws.deep_view().subrange(from as int, k as int);
        let ghost after = ws.deep_view().subrange(from as int, k + 1);
        assert(after.drop_last() =~= before);
        assert(after.last() == ws[k as int]@);
        if k != from {
            res.append(sep);
        } else {
            assert(after =~= seq![ws[k as int]@]);
        }
        res.append(ws[k].as_str());
        k = k + 1;
    }
    assert(ws.deep_view().subrange(from as int, n as int) =~= ws.deep_view().skip(from as int));
    res
}

/// Whether `c` occurs in `s`.
pub fn contains_char(s: &str, c: char) -> (r: bool)
    ensures
        r == s@.contains(c),
{
    let v = chars_of(s);
    let n = v.len();
    let mut i: usize = 0;
    while i < n
        invariant
            v@ == s@,
            n == v@.len(),
            i <= n,
            forall|k: int| 0 <= k < i ==> v@[k] != c,
        decreases n - i,
    {
        if v[i] == c {
            return true;
        }
        i = i + 1;
    }
    false
}

fn matches_at(h: &Vec<char>, nd: &Vec<char>, i: usize) -> (r: bool)
    requires
        i + nd.len() <= h.len(),
    ensures
        r == (h@.subrange(i as int, i + nd.len()) == nd@),
{
    let m = nd.len();
    let mut k: usize = 0;
    while k < m
        invariant
            m == nd.len(),
            i + m <= h.len(),
            k <= m,
            forall|j: int| 0 <= j < k ==> h@[i + j] == nd@[j],
        decreases m - k,
    {
        if h[i + k] != nd[k] {
            assert(h@.subrange(i as int, i + m)[k as int] != nd@[k as int]);
            return false;
        }
        k = k + 1;
    }
    assert(h@.subrange(i as int, i + m) =~= nd@);
    true
}

/// Whether `needle` occurs in `hay` (`str::contains` with a string pattern).
pub fn contains_str(hay: &str, needle: &str) -> (r: bool)
    ensures
        r == has_infix(hay@, needle@),
{
    let h = chars_of(hay);
    let nd = chars_of(needle);
    let n = h.len();
    let m = nd.len();
    if m > n {
        assert forall|i: int| 0 <= i && i + m <= n implies #[trigger] hay@.subrange(i, i + m)
            != needle@ by {}
        return false;
    }
    let last = n - m;
    let mut i: usize = 0;
    loop
        invariant
            h@ == hay@,
            nd@ == needle@,
            n == h.len(),
            m == nd.len(),
            last == n - m,
            i <= last,
            forall|k: int| 0 <= k < i ==> #[trigger] hay@.subrange(k, k + m) != needle@,
        decreases last - i,
    {
        if matches_at(&h, &nd, i) {
            return true;
        }
        if i == last {
            return false;
        }
        i = i + 1;
    }
}


fn digit_str(d: u64) -> (r: &'static str)
    requires
        d < 10,
    ensures
        r@ == seq![digit_char(d as nat)],
{
    proof {
        reveal_strlit("0");
        reveal_strlit("1");
        reveal_strlit("2");
        reveal_strlit("3");
        reveal_strlit("4");
        reveal_strlit("5");
        reveal_strlit("6");
        reveal_strlit("7");
        reveal_strlit("8");
        reveal_strlit("9");
    }
    if d == 0 {
        "0"
    } else if d == 1 {
        "1"
    } else if d == 2 {
        "2"
    } else if d == 3 {
        "3"
    } else if d == 4 {
        "4"
    } else if d == 5 {
        "5"
    } else if d == 6 {
        "6"
    } else if d == 7 {
        "7"
    } else if d == 8 {
        "8"
    } else {
        "9"
    }
}

fn digits_string(n: u64) -> (r: String)
    ensures
        r@ == digits_of(n as nat),
{
    let mut m = n;
    let mut res = String::new();
    assert(digits_of(n as nat) + res@ =~= digits_of(n as nat));
    loop
        invariant
            digits_of(n as nat) == digits_of(m as nat) + res@,
        decreases m,
    {
        let d = m % 10;
        let piece = digit_str(d).to_owned();
        let ghost before = res@;
        res = piece.concat(res.as_str());
        if m < 10 {
            assert(digits_of(m as nat) == seq![digit_char(d as nat)]);
            assert(seq![digit_char(d as nat)] + before =~= digits_of(m as nat) + before);
            return res;
        }
        assert(digits_of(m as nat) == digits_of((m / 10) as nat).push(digit_char(d as nat)));
        assert(digits_of((m / 10) as nat).push(digit_char(d as nat)) + before =~= digits_of(
            (m / 10) as nat,
        ) + (seq![digit_char(d as nat)] + before));
        m = m / 10;
    }
}

/// `n` in decimal (`i32::to_string`).
pub fn decimal_i32(n: i32) -> (r: String)
    ensures
        r@ == decimal(n as int),
{
    if n < 0 {
        let m: i64 = -(n as i64);
        let digits = digits_string(m as u64);
        let minus = "-".to_owned();
        proof {
            reveal_strlit("-");
        }
        minus.concat(digits.as_str())
    } else {
        digits_string(n as u64)
    }
}

/// `n` in decimal (`u32::to_string`).
pub fn decimal_u32(n: u32) -> (r: String)
    ensures
        r@ == decimal(n as int),
{
    digits_string(n as u64)
}

/// Decimal `i32` parsing (`str::parse::<i32>`), `None` where that fails.
pub fn parse_i32(s: &str) -> (r: Option<i32>)
    ensures
        r == parsed_i32(s@),
{
    let v = chars_of(s);
    let n = v.len();
    let neg = n > 0 && v[0] == '-';
    let signed = n > 0 && (v[0] == '-' || v[0] == '+');
    let first: usize = if signed {
        1
    } else {
        0
    };
    assert(neg == (s@.len() > 0 && s@[0] == '-'));
    assert(signed == (s@.len() > 0 && (s@[0] == '-' || s@[0] == '+')));
    let ghost d = if signed {
        s@.drop_first()
    } else {
        s@
    };
    assert(d =~= s@.subrange(first as int, n as int));
    if first == n {
        return None;
    }
    // Values above `cap` are all out of range; `acc` saturates there.

    let cap: i64 = 2147483649;
    let mut acc: i64 = 0;
    let mut i: usize = first;
    while i < n
        invariant
            v@ == s@,
            n == v@.len(),
            first <= i <= n,
            d == s@.subrange(first as int, n as int),
            d == (if s@.len() > 0 && (s@[0] == '-' || s@[0] == '+') {
                s@.drop_first()
            } else {
                s@
            }),
            neg == (s@.len() > 0 && s@[0] == '-'),
            all_digits(s@.subrange(first as int, i as int)),
            0 <= acc <= cap,
            cap == 2147483649,
            acc == (if digits_value(s@.subrange(first as int, i as int)) < cap {
                digits_value(s@.subrange(first as int, i as int))
            } else {
                cap as int
            }),
        decreases n - i,
    {
        let c = v[i];
        let ghost pre = s@.subrange(first as int, i as int);
        let ghost next = s@.subrange(first as int, i + 1);
        assert(next.drop_last() =~= pre);
        assert(next.last() == c);
        if !('0' <= c && c <= '9') {
            assert(!all_digits(d)) by {
                assert(d[i - first] == c);
                assert(!is_digit(c));
            }
            assert(parsed_i32(s@).is_none());
            return None;
        }
        assert forall|k: int| 0 <= k < next.len() implies is_digit(#[trigger] next[k]) by {
            if k < pre.len() {
                assert(next[k] == pre[k]);
            }
        }
        proof {
            lemma_digits_value_nonneg(pre);
        }
        let dv = (c as u32 - '0' as u32) as i64;
        assert(dv == digit_value(c));
        if acc >= cap {
            acc = cap;
        } else {
            let t = acc * 10 + dv;
            if t >= cap {
                acc = cap;
            } else {
                acc = t;
            }
        }
        i = i + 1;
    }
    assert(s@.subrange(first as int, n as int) =~= d);
    if neg {
        if acc > 2147483648 {
            None
        } else {
            let x: i64 = -acc;
            Some(x as i32)
        }
    } else {
        if acc > 2147483647 {
            None
        } else {
            Some(acc as i32)
        }
    }
}

} // verus!
