//! Byte-level text primitives for the matrix file format: line splitting,
//! whitespace tokenizing, decimal numbers, and the numeric-token grammar.
//!
//! Every executable function is specified against a spec-level model of the
//! same operation, so that the file format's round-trip law can be proved
//! from these models.

use vstd::prelude::*;

verus! {

/// Line feed.
pub const NEWLINE: u8 = 10;

/// Carriage return.
pub const CARRIAGE_RETURN: u8 = 13;

/// Horizontal tab, the column separator written between matrix values.
pub const TAB: u8 = 9;

/// The `=` byte used by header lines.
pub const EQUALS: u8 = 61;

/// The `+` byte, accepted as a sign.
pub const PLUS: u8 = 43;

/// The `-` byte, accepted as a sign.
pub const MINUS: u8 = 45;

/// The `.` byte, the decimal point.
pub const DOT: u8 = 46;

/// ASCII whitespace, as the byte-level tokenizer understands it:
/// space, tab, line feed, carriage return, form feed.
pub open spec fn is_ascii_ws(b: u8) -> bool {
    b == 32 || b == 9 || b == 10 || b == 13 || b == 12
}

/// ASCII decimal digit.
pub open spec fn is_digit(b: u8) -> bool {
    48 <= b && b <= 57
}

/// Relates a vector of byte vectors to its sequence-of-sequences model.
pub open spec fn views_match(v: Seq<Vec<u8>>, m: Seq<Seq<u8>>) -> bool {
    v.len() == m.len() && forall|j: int| 0 <= j < v.len() ==> v[j]@ == m[j]
}

/// Exec mirror of [`is_ascii_ws`].
pub fn ws_byte(b: u8) -> (r: bool)
    ensures
        r == is_ascii_ws(b),
{
    b == 32 || b == 9 || b == 10 || b == 13 || b == 12
}

/// Exec mirror of [`is_digit`].
pub fn digit_byte(b: u8) -> (r: bool)
    ensures
        r == is_digit(b),
{
    48 <= b && b <= 57
}

// ---------------------------------------------------------------------------
// Counting occurrences of a byte
// ---------------------------------------------------------------------------

/// Number of occurrences of `b` in `s`.
pub open spec fn count_byte(s: Seq<u8>, b: u8) -> nat
    decreases s.len(),
{
    if s.len() == 0 {
        0
    } else {
        count_byte(s.drop_last(), b) + if s.last() == b {
            1nat
        } else {
            0nat
        }
    }
}

/// Exec counterpart of [`count_byte`].
pub fn count_byte_in(s: &[u8], b: u8) -> (n: usize)
    ensures
        n == count_byte(s@, b),
{
    let mut n: usize = 0;
    let mut i: usize = 0;
    while i < s.len()
        invariant
            i <= s@.len(),
            n == count_byte(s@.take(i as int), b),
            n <= i,
        decreases s@.len() - i,
    {
        proof {
            assert(s@.take(i + 1).drop_last() == s@.take(i as int));
            assert(s@.take(i + 1).last() == s@[i as int]);
        }
        if s[i] == b {
            n = n + 1;
        }
        i = i + 1;
    }
    proof {
        assert(s@.take(s@.len() as int) == s@);
    }
    n
}

/// `count_byte` distributes over concatenation.
pub proof fn lemma_count_byte_add(a: Seq<u8>, c: Seq<u8>, b: u8)
    ensures
        count_byte(a + c, b) == count_byte(a, b) + count_byte(c, b),
    decreases c.len(),
{
    if c.len() == 0 {
        assert(a + c == a);
    } else {
        lemma_count_byte_add(a, c.drop_last(), b);
        assert((a + c).drop_last() == a + c.drop_last());
        assert((a + c).last() == c.last());
    }
}

/// A sequence without any occurrence of `b` counts zero.
pub proof fn lemma_count_byte_zero(s: Seq<u8>, b: u8)
    requires
        forall|i: int| 0 <= i < s.len() ==> s[i] != b,
    ensures
        count_byte(s, b) == 0,
    decreases s.len(),
{
    if s.len() > 0 {
        lemma_count_byte_zero(s.drop_last(), b);
    }
}

// ---------------------------------------------------------------------------
// Splitting into lines
// ---------------------------------------------------------------------------

/// `s` split at every line feed; the result always has one more part than
/// there are line feeds, so a trailing line feed yields a trailing empty part.
pub open spec fn raw_lines(s: Seq<u8>) -> Seq<Seq<u8>>
    decreases s.len(),
{
    if s.len() == 0 {
        seq![Seq::<u8>::empty()]
    } else if s[0] == NEWLINE {
        seq![Seq::<u8>::empty()] + raw_lines(s.skip(1))
    } else {
        let rest = raw_lines(s.skip(1));
        seq![seq![s[0]] + rest[0]] + rest.skip(1)
    }
}

/// A line with one trailing carriage return removed.
pub open spec fn strip_cr(l: Seq<u8>) -> Seq<u8> {
    if l.len() > 0 && l.last() == CARRIAGE_RETURN {
        l.drop_last()
    } else {
        l
    }
}

/// The lines of `s`: split at line feeds, drop the empty part that a final
/// line feed produces, and strip one trailing carriage return per line.
pub open spec fn spec_lines(s: Seq<u8>) -> Seq<Seq<u8>> {
    let raw = raw_lines(s);
    let trimmed = if raw.last().len() == 0 {
        raw.drop_last()
    } else {
        raw
    };
    trimmed.map_values(|l: Seq<u8>| strip_cr(l))
}

/// The raw split is never empty.
pub proof fn lemma_raw_lines_len(s: Seq<u8>)
    ensures
        raw_lines(s).len() >= 1,
    decreases s.len(),
{
    if s.len() > 0 {
        lemma_raw_lines_len(s.skip(1));
    }
}

/// Appending one byte extends the raw split: a line feed opens a new empty
/// part, any other byte extends the last part.
pub proof fn lemma_raw_lines_push(s: Seq<u8>, b: u8)
    ensures
        b == NEWLINE ==> raw_lines(s.push(b)) == raw_lines(s).push(Seq::<u8>::empty()),
        b != NEWLINE ==> raw_lines(s.push(b)) == raw_lines(s).update(
            raw_lines(s).len() - 1,
            raw_lines(s).last().push(b),
        ),
    decreases s.len(),
{
    lemma_raw_lines_len(s);
    if s.len() == 0 {
        assert(s.push(b).len() == 1);
        assert(s.push(b)[0] == b);
        assert(s.push(b).skip(1) =~= Seq::<u8>::empty());
        assert(raw_lines(Seq::<u8>::empty()) == seq![Seq::<u8>::empty()]);
        assert(raw_lines(s) == seq![Seq::<u8>::empty()]);
        if b == NEWLINE {
            assert(raw_lines(s.push(b)) == seq![Seq::<u8>::empty()] + raw_lines(
                s.push(b).skip(1),
            ));
            assert(raw_lines(s.push(b)) =~~= raw_lines(s).push(Seq::<u8>::empty()));
        } else {
            let rest = raw_lines(s.push(b).skip(1));
            assert(rest == seq![Seq::<u8>::empty()]);
            assert(raw_lines(s.push(b)) == seq![seq![b] + rest[0]] + rest.skip(1));
            assert(seq![b] + rest[0] =~= raw_lines(s).last().push(b));
            assert(rest.skip(1) =~= Seq::<Seq<u8>>::empty());
            assert(raw_lines(s.push(b)) =~~= raw_lines(s).update(
                raw_lines(s).len() - 1,
                raw_lines(s).last().push(b),
            ));
        }
    } else {
        lemma_raw_lines_push(s.skip(1), b);
        lemma_raw_lines_len(s.skip(1));
        assert(s.push(b).len() == s.len() + 1);
        assert(s.push(b)[0] == s[0]);
        assert(s.push(b).skip(1) =~= s.skip(1).push(b));
        let r = raw_lines(s.skip(1));
        let rp = raw_lines(s.skip(1).push(b));
        if s[0] == NEWLINE {
            assert(raw_lines(s) == seq![Seq::<u8>::empty()] + r);
            assert(raw_lines(s.push(b)) == seq![Seq::<u8>::empty()] + rp);
            if b == NEWLINE {
                assert(rp == r.push(Seq::<u8>::empty()));
                assert(raw_lines(s).last() == r.last());
                assert(raw_lines(s.push(b)) =~~= raw_lines(s).push(Seq::<u8>::empty()));
            } else {
                assert(rp == r.update(r.len() - 1, r.last().push(b)));
                assert(raw_lines(s).last() == r.last());
                assert(raw_lines(s.push(b)) =~~= raw_lines(s).update(
                    raw_lines(s).len() - 1,
                    raw_lines(s).last().push(b),
                ));
            }
        } else {
            assert(raw_lines(s) == seq![seq![s[0]] + r[0]] + r.skip(1));
            assert(raw_lines(s.push(b)) == seq![seq![s[0]] + rp[0]] + rp.skip(1));
            if b == NEWLINE {
                assert(rp == r.push(Seq::<u8>::empty()));
                assert(rp[0] == r[0]);
                assert(rp.skip(1) =~~= r.skip(1).push(Seq::<u8>::empty()));
                assert(raw_lines(s).last() == if r.len() == 1 {
                    seq![s[0]] + r[0]
                } else {
                    r.last()
                });
                assert(raw_lines(s.push(b)) =~~= raw_lines(s).push(Seq::<u8>::empty()));
            } else {
                assert(rp == r.update(r.len() - 1, r.last().push(b)));
                if r.len() == 1 {
                    assert(rp[0] == r[0].push(b));
                    assert(rp.skip(1) =~~= r.skip(1));
                    assert(raw_lines(s).last() == seq![s[0]] + r[0]);
                    assert(seq![s[0]] + r[0].push(b) =~= (seq![s[0]] + r[0]).push(b));
                    assert(raw_lines(s.push(b)) =~~= raw_lines(s).update(
                        raw_lines(s).len() - 1,
                        raw_lines(s).last().push(b),
                    ));
                } else {
                    assert(rp[0] == r[0]);
                    assert(rp.skip(1) =~~= r.skip(1).update(r.len() - 2, r.last().push(b)));
                    assert(raw_lines(s).last() == r.last());
                    assert(raw_lines(s.push(b)) =~~= raw_lines(s).update(
                        raw_lines(s).len() - 1,
                        raw_lines(s).last().push(b),
                    ));
                }
            }
        }
    }
}

/// Splits content into lines, exactly as [`spec_lines`] describes.
pub fn split_lines(s: &[u8]) -> (lines: Vec<Vec<u8>>)
    ensures
        views_match(lines@, spec_lines(s@)),
{
    let mut lines: Vec<Vec<u8>> = Vec::new();
    let mut cur: Vec<u8> = Vec::new();
    let mut i: usize = 0;
    proof {
        assert(s@.take(0) =~= Seq::<u8>::empty());
    }
    while i < s.len()
        invariant
            i <= s@.len(),
            raw_lines(s@.take(i as int)).len() == lines@.len() + 1,
            cur@ == raw_lines(s@.take(i as int)).last(),
            forall|j: int|
                0 <= j < lines@.len() ==> lines@[j]@ == strip_cr(
                    #[trigger] raw_lines(s@.take(i as int)).drop_last()[j],
                ),
        decreases s@.len() - i,
    {
        let b = s[i];
        proof {
            assert(s@.take(i + 1) =~= s@.take(i as int).push(s@[i as int]));
            lemma_raw_lines_push(s@.take(i as int), b);
            lemma_raw_lines_len(s@.take(i as int));
        }
        if b == NEWLINE {
            let ghost prev = raw_lines(s@.take(i as int));
            let ghost old_lines = lines@;
            if cur.len() > 0 && cur[cur.len() - 1] == CARRIAGE_RETURN {
                cur.pop();
            }
            proof {
                assert(cur@ == strip_cr(prev.last()));
            }
            lines.push(cur);
            cur = Vec::new();
            proof {
                let next = raw_lines(s@.take(i + 1));
                assert(next == prev.push(Seq::<u8>::empty()));
                assert(next.drop_last() =~~= prev);
                assert(next.last() == Seq::<u8>::empty());
                assert forall|j: int| 0 <= j < lines@.len() implies lines@[j]@ == strip_cr(
                    #[trigger] next.drop_last()[j],
                ) by {
                    if j < old_lines.len() {
                        assert(lines@[j] == old_lines[j]);
                        assert(prev.drop_last()[j] == prev[j]);
                    } else {
                        assert(lines@[j]@ == strip_cr(prev.last()));
                        assert(next.drop_last()[j] == prev[prev.len() - 1]);
                    }
                }
            }
        } else {
            cur.push(b);
            proof {
                let prev = raw_lines(s@.take(i as int));
                let next = raw_lines(s@.take(i + 1));
                assert(next == prev.update(prev.len() - 1, prev.last().push(b)));
                assert(next.drop_last() =~~= prev.drop_last());
                assert(next.last() == prev.last().push(b));
                assert(cur@ == next.last());
            }
        }
        i = i + 1;
    }
    proof {
        assert(s@.take(s@.len() as int) == s@);
    }
    let ghost raw = raw_lines(s@);
    if cur.len() > 0 {
        let ghost old_lines = lines@;
        if cur[cur.len() - 1] == CARRIAGE_RETURN {
            cur.pop();
        }
        proof {
            assert(cur@ == strip_cr(raw.last()));
        }
        lines.push(cur);
        proof {
            assert(raw.last().len() > 0);
            let trimmed = raw;
            let target = spec_lines(s@);
            assert(target.len() == trimmed.len());
            assert forall|j: int| 0 <= j < lines@.len() implies lines@[j]@ == target[j] by {
                assert(target[j] == strip_cr(trimmed[j]));
                if j < old_lines.len() {
                    assert(lines@[j] == old_lines[j]);
                    assert(raw.drop_last()[j] == raw[j]);
                } else {
                    assert(lines@[j]@ == strip_cr(raw.last()));
                    assert(trimmed[j] == raw[raw.len() - 1]);
                }
            }
            assert(views_match(lines@, spec_lines(s@)));
        }
    } else {
        proof {
            assert(raw.last().len() == 0);
            let trimmed = raw.drop_last();
            let target = spec_lines(s@);
            assert(target.len() == trimmed.len());
            assert forall|j: int| 0 <= j < lines@.len() implies lines@[j]@ == target[j] by {
                assert(target[j] == strip_cr(trimmed[j]));
            }
            assert(views_match(lines@, spec_lines(s@)));
        }
    }
    lines
}

/// `raw_lines` of a line without line feeds, a line feed, and a remainder:
/// the line comes off the front whole.
pub proof fn lemma_raw_lines_line(l: Seq<u8>, rest: Seq<u8>)
    requires
        forall|i: int| 0 <= i < l.len() ==> l[i] != NEWLINE,
    ensures
        raw_lines(l + seq![NEWLINE] + rest) == seq![l] + raw_lines(rest),
    decreases l.len(),
{
    lemma_raw_lines_len(rest);
    if l.len() == 0 {
        assert(l + seq![NEWLINE] + rest =~= seq![NEWLINE] + rest);
        assert((seq![NEWLINE] + rest)[0] == NEWLINE);
        assert((seq![NEWLINE] + rest).skip(1) =~= rest);
        assert(raw_lines(l + seq![NEWLINE] + rest) =~~= seq![l] + raw_lines(rest));
    } else {
        lemma_raw_lines_line(l.skip(1), rest);
        let s = l + seq![NEWLINE] + rest;
        assert(s[0] == l[0]);
        assert(s[0] != NEWLINE);
        assert(s.skip(1) =~= l.skip(1) + seq![NEWLINE] + rest);
        lemma_raw_lines_len(l.skip(1) + seq![NEWLINE] + rest);
        assert(seq![l[0]] + (seq![l.skip(1)] + raw_lines(rest))[0] =~= l);
        assert(raw_lines(s) =~~= seq![l] + raw_lines(rest));
    }
}

// ---------------------------------------------------------------------------
// Splitting a line into whitespace-separated tokens
// ---------------------------------------------------------------------------

/// The maximal runs of non-whitespace bytes in `s`, in order.
pub open spec fn split_ws(s: Seq<u8>) -> Seq<Seq<u8>>
    decreases s.len(),
{
    if s.len() == 0 {
        Seq::<Seq<u8>>::empty()
    } else if is_ascii_ws(s[0]) {
        split_ws(s.skip(1))
    } else if s.len() == 1 {
        seq![seq![s[0]]]
    } else {
        let rest = split_ws(s.skip(1));
        if !is_ascii_ws(s[1]) {
            seq![seq![s[0]] + rest[0]] + rest.skip(1)
        } else {
            seq![seq![s[0]]] + rest
        }
    }
}

/// A maximal non-whitespace prefix of length `k` is the first token.
pub proof fn lemma_split_ws_token(s: Seq<u8>, k: int)
    requires
        1 <= k <= s.len(),
        forall|j: int| 0 <= j < k ==> !is_ascii_ws(s[j]),
        k == s.len() || is_ascii_ws(s[k]),
    ensures
        split_ws(s) == seq![s.take(k)] + split_ws(s.skip(k)),
    decreases k,
{
    if k == 1 {
        if s.len() == 1 {
            assert(s.take(1) =~= seq![s[0]]);
            assert(s.skip(1) =~= Seq::<u8>::empty());
            assert(split_ws(s) =~~= seq![s.take(1)] + split_ws(s.skip(1)));
        } else {
            assert(is_ascii_ws(s[1]));
            assert(s.take(1) =~= seq![s[0]]);
            assert(split_ws(s) =~~= seq![s.take(1)] + split_ws(s.skip(1)));
        }
    } else {
        lemma_split_ws_token(s.skip(1), k - 1);
        assert(s.skip(1).take(k - 1) =~= s.take(k).skip(1));
        assert(s.skip(1).skip(k - 1) =~= s.skip(k));
        assert(!is_ascii_ws(s[1]));
        let rest = split_ws(s.skip(1));
        assert(rest == seq![s.skip(1).take(k - 1)] + split_ws(s.skip(k)));
        assert(rest[0] == s.skip(1).take(k - 1));
        assert(seq![s[0]] + rest[0] =~= s.take(k));
        assert(rest.skip(1) =~= split_ws(s.skip(k)));
        assert(split_ws(s) =~~= seq![s.take(k)] + split_ws(s.skip(k)));
    }
}

/// Splits a line into whitespace-separated tokens, exactly as [`split_ws`]
/// describes.
pub fn split_tokens(s: &[u8]) -> (tokens: Vec<Vec<u8>>)
    ensures
        views_match(tokens@, split_ws(s@)),
{
    let n: usize = s.len();
    let mut tokens: Vec<Vec<u8>> = Vec::new();
    let mut i: usize = 0;
    proof {
        assert(s@.skip(0) =~= s@);
    }
    while i < n
        invariant
            i <= n,
            n == s@.len(),
            split_ws(s@) == tokens@.map_values(|t: Vec<u8>| t@) + split_ws(s@.skip(i as int)),
        decreases n - i,
    {
        if ws_byte(s[i]) {
            proof {
                assert(s@.skip(i as int).skip(1) =~= s@.skip(i + 1));
            }
            i = i + 1;
        } else {
            let start: usize = i;
            let mut tok: Vec<u8> = Vec::new();
            while i < n && !ws_byte(s[i])
                invariant
                    start <= i <= n,
                    n == s@.len(),
                    tok@ == s@.subrange(start as int, i as int),
                    forall|j: int| start <= j < i ==> !is_ascii_ws(s@[j]),
                decreases n - i,
            {
                tok.push(s[i]);
                proof {
                    assert(s@.subrange(start as int, i + 1) =~= s@.subrange(
                        start as int,
                        i as int,
                    ).push(s@[i as int]));
                }
                i = i + 1;
            }
            proof {
                let rem = s@.skip(start as int);
                let k = i - start;
                assert forall|j: int| 0 <= j < k implies !is_ascii_ws(rem[j]) by {
                    assert(rem[j] == s@[start + j]);
                }
                if i < n {
                    assert(is_ascii_ws(rem[k]));
                }
                lemma_split_ws_token(rem, k);
                assert(rem.take(k) =~= s@.subrange(start as int, i as int));
                assert(rem.skip(k) =~= s@.skip(i as int));
            }
            let ghost old_tokens = tokens@;
            tokens.push(tok);
            proof {
                assert(tokens@.map_values(|t: Vec<u8>| t@) =~~= old_tokens.map_values(
                    |t: Vec<u8>| t@,
                ).push(tok@));
                assert(split_ws(s@) == tokens@.map_values(|t: Vec<u8>| t@) + split_ws(
                    s@.skip(i as int),
                ));
            }
        }
    }
    proof {
        assert(s@.skip(n as int) =~= Seq::<u8>::empty());
        assert(split_ws(s@) =~~= tokens@.map_values(|t: Vec<u8>| t@));
        assert(views_match(tokens@, split_ws(s@)));
    }
    tokens
}

// ---------------------------------------------------------------------------
// Decimal numbers
// ---------------------------------------------------------------------------

/// The decimal digits of `n`, most significant first.
pub open spec fn dec_digits(n: nat) -> Seq<u8>
    decreases n,
{
    if n < 10 {
        seq![(48 + n) as u8]
    } else {
        dec_digits(n / 10).push((48 + n % 10) as u8)
    }
}

/// The value of a digit string, most significant first.
pub open spec fn digits_val(s: Seq<u8>) -> nat
    decreases s.len(),
{
    if s.len() == 0 {
        0
    } else {
        digits_val(s.drop_last()) * 10 + (if is_digit(s.last()) {
            (s.last() - 48) as nat
        } else {
            0
        })
    }
}

/// `dec_digits` produces at least one byte, all decimal digits.
pub proof fn lemma_dec_digits_shape(n: nat)
    ensures
        dec_digits(n).len() >= 1,
        forall|i: int| 0 <= i < dec_digits(n).len() ==> is_digit(#[trigger] dec_digits(n)[i]),
    decreases n,
{
    if n >= 10 {
        lemma_dec_digits_shape(n / 10);
    }
}

/// Reading back the decimal digits of `n` yields `n`.
pub proof fn lemma_dec_digits_val(n: nat)
    ensures
        digits_val(dec_digits(n)) == n,
    decreases n,
{
    if n < 10 {
        let d = (48 + n) as u8;
        assert(d == 48 + n);
        assert(is_digit(d));
        assert(dec_digits(n) == seq![d]);
        assert(dec_digits(n).drop_last() =~= Seq::<u8>::empty());
        assert(digits_val(Seq::<u8>::empty()) == 0);
        assert(dec_digits(n).last() == d);
        assert(digits_val(dec_digits(n)) == 0 * 10 + (d - 48));
    } else {
        lemma_dec_digits_val(n / 10);
        lemma_dec_digits_shape(n / 10);
        let d = (48 + n % 10) as u8;
        assert(d == 48 + n % 10);
        assert(dec_digits(n) == dec_digits(n / 10).push(d));
        assert(dec_digits(n).drop_last() =~= dec_digits(n / 10));
        assert(dec_digits(n).last() == d);
        assert(is_digit(d));
        assert(digits_val(dec_digits(n)) == digits_val(dec_digits(n / 10)) * 10 + (d - 48));
        vstd::arithmetic::div_mod::lemma_fundamental_div_mod(n as int, 10);
    }
}

/// Writes `n` in decimal, exactly as [`dec_digits`] describes.
pub fn render_usize(n: usize) -> (out: Vec<u8>)
    ensures
        out@ == dec_digits(n as nat),
{
    let mut digits: Vec<u8> = Vec::new();
    let mut cur: usize = n;
    while cur >= 10
        invariant
            dec_digits(n as nat) == dec_digits(cur as nat) + digits@,
        decreases cur,
    {
        let d: u8 = 48 + (cur % 10) as u8;
        digits.insert(0, d);
        proof {
            assert(dec_digits(cur as nat) == dec_digits((cur as nat) / 10).push(d));
            assert(dec_digits((cur as nat) / 10) + seq![d] + digits@.drop_first() =~= dec_digits(
                (cur as nat) / 10,
            ).push(d) + digits@.drop_first());
            assert(seq![d] + digits@.drop_first() =~= digits@);
            assert((cur as nat) / 10 == (cur / 10) as nat);
        }
        cur = cur / 10;
    }
    let d: u8 = 48 + (cur % 10) as u8;
    proof {
        assert(cur % 10 == cur as int);
        assert(dec_digits(cur as nat) =~= seq![d]);
    }
    digits.insert(0, d);
    proof {
        assert(seq![d] + digits@.drop_first() =~= digits@);
        assert(dec_digits(n as nat) =~= digits@);
    }
    digits
}

/// A token that Rust's unsigned-integer parser accepts and that fits in
/// `usize`: an optional `+` sign, then at least one digit, value in range.
pub open spec fn strip_plus(t: Seq<u8>) -> Seq<u8> {
    if t.len() > 0 && t[0] == PLUS {
        t.skip(1)
    } else {
        t
    }
}

/// Whether `t` is a well-formed `usize` token whose value fits.
pub open spec fn usize_token(t: Seq<u8>) -> bool {
    let d = strip_plus(t);
    d.len() > 0 && (forall|i: int| 0 <= i < d.len() ==> is_digit(d[i])) && digits_val(d)
        <= usize::MAX
}

/// The value of a well-formed `usize` token.
pub open spec fn usize_token_val(t: Seq<u8>) -> nat {
    digits_val(strip_plus(t))
}

/// Digit strings only grow in value as they grow in length.
proof fn lemma_digits_val_prefix(s: Seq<u8>, i: int)
    requires
        0 <= i <= s.len(),
    ensures
        digits_val(s.take(i)) <= digits_val(s),
    decreases s.len() - i,
{
    if i < s.len() {
        lemma_digits_val_prefix(s, i + 1);
        assert(s.take(i + 1).drop_last() =~= s.take(i));
        assert(digits_val(s.take(i)) <= digits_val(s.take(i + 1)));
    } else {
        assert(s.take(i) =~= s);
    }
}

/// Parses a decimal `usize` token (optional `+` sign), exactly as
/// [`usize_token`] and [`usize_token_val`] describe; `None` on any
/// malformed byte and on overflow.
pub fn parse_usize(t: &[u8]) -> (r: Option<usize>)
    ensures
        usize_token(t@) ==> r == Some(usize_token_val(t@) as usize),
        !usize_token(t@) ==> r is None,
{
    let n: usize = t.len();
    let start: usize = if n > 0 && t[0] == PLUS {
        1
    } else {
        0
    };
    let ghost d = strip_plus(t@);
    proof {
        assert(d =~= t@.skip(start as int));
        assert(d.len() == n - start);
    }
    if start == n {
        proof {
            assert(!usize_token(t@));
        }
        return None;
    }
    let mut val: usize = 0;
    let mut i: usize = start;
    while i < n
        invariant
            start <= i <= n,
            n == t@.len(),
            d == strip_plus(t@),
            d == t@.skip(start as int),
            forall|j: int| 0 <= j < i - start ==> is_digit(d[j]),
            val == digits_val(d.take(i - start)),
        decreases n - i,
    {
        let b = t[i];
        if !digit_byte(b) {
            proof {
                assert(d[i - start] == t@[i as int]);
                assert(!is_digit(d[i - start]));
                assert(!usize_token(t@));
            }
            return None;
        }
        proof {
            assert(d.take(i - start + 1).drop_last() =~= d.take(i - start));
            assert(d.take(i - start + 1).last() == t@[i as int]);
        }
        let step = match val.checked_mul(10) {
            Some(v) => v.checked_add((b - 48) as usize),
            None => None,
        };
        match step {
            Some(v) => {
                val = v;
            },
            None => {
                proof {
                    assert(digits_val(d.take(i - start + 1)) == val * 10 + (t@[i as int] - 48));
                    assert(digits_val(d.take(i - start + 1)) > usize::MAX);
                    lemma_digits_val_prefix(d, i - start + 1);
                    assert(digits_val(d) > usize::MAX);
                    assert(!usize_token(t@));
                }
                return None;
            },
        }
        i = i + 1;
    }
    proof {
        assert(d.take(n - start) =~= d);
    }
    Some(val)
}

// ---------------------------------------------------------------------------
// Numeric tokens (the grammar of Rust's floating-point parser)
// ---------------------------------------------------------------------------

/// Lower-cases one ASCII byte.
pub open spec fn to_lower(b: u8) -> u8 {
    if 65 <= b && b <= 90 {
        (b + 32) as u8
    } else {
        b
    }
}

/// Case-insensitive equality against a lower-case literal.
pub open spec fn lower_eq(s: Seq<u8>, lit: Seq<u8>) -> bool {
    s.len() == lit.len() && forall|i: int| 0 <= i < s.len() ==> to_lower(s[i]) == lit[i]
}

/// The letters of `inf`.
pub open spec fn inf_bytes() -> Seq<u8> {
    seq![105u8, 110u8, 102u8]
}

/// The letters of `infinity`.
pub open spec fn infinity_bytes() -> Seq<u8> {
    seq![105u8, 110u8, 102u8, 105u8, 110u8, 105u8, 116u8, 121u8]
}

/// The letters of `nan`.
pub open spec fn nan_bytes() -> Seq<u8> {
    seq![110u8, 97u8, 110u8]
}

/// Sign byte.
pub open spec fn is_sign(b: u8) -> bool {
    b == PLUS || b == MINUS
}

/// Strips one leading sign.
pub open spec fn strip_sign(t: Seq<u8>) -> Seq<u8> {
    if t.len() > 0 && is_sign(t[0]) {
        t.skip(1)
    } else {
        t
    }
}

/// Exponent marker.
pub open spec fn is_exp_marker(b: u8) -> bool {
    b == 101 || b == 69
}

/// A mantissa: digits with at most one decimal point and at least one digit.
pub open spec fn mantissa_ok(m: Seq<u8>) -> bool {
    &&& forall|i: int| 0 <= i < m.len() ==> is_digit(#[trigger] m[i]) || m[i] == DOT
    &&& exists|i: int| 0 <= i < m.len() && is_digit(#[trigger] m[i])
    &&& count_byte(m, DOT) <= 1
}

/// An exponent: an optional sign, then at least one digit.
pub open spec fn exp_ok(x: Seq<u8>) -> bool {
    let d = strip_sign(x);
    d.len() > 0 && forall|i: int| 0 <= i < d.len() ==> is_digit(d[i])
}

/// Index of the first exponent marker, or the length when there is none.
pub open spec fn first_exp_marker(u: Seq<u8>) -> int
    decreases u.len(),
{
    if u.len() == 0 {
        0
    } else if is_exp_marker(u[0]) {
        0
    } else {
        1 + first_exp_marker(u.skip(1))
    }
}

/// Characterizes [`first_exp_marker`] by a scan.
pub proof fn lemma_first_exp_marker(u: Seq<u8>, k: int)
    requires
        0 <= k <= u.len(),
        forall|j: int| 0 <= j < k ==> !is_exp_marker(u[j]),
        k == u.len() || is_exp_marker(u[k]),
    ensures
        first_exp_marker(u) == k,
    decreases k,
{
    if k > 0 {
        lemma_first_exp_marker(u.skip(1), k - 1);
    }
}

/// Whether `t` is a numeric token: the grammar that Rust's floating-point
/// parser documents — an optional sign, then `inf`, `infinity` or `nan`
/// (case-insensitive), or a mantissa with an optional exponent part.
pub open spec fn numeric_token(t: Seq<u8>) -> bool {
    let u = strip_sign(t);
    ||| lower_eq(u, inf_bytes())
    ||| lower_eq(u, infinity_bytes())
    ||| lower_eq(u, nan_bytes())
    ||| {
        let k = first_exp_marker(u);
        if k < u.len() {
            mantissa_ok(u.take(k)) && exp_ok(u.skip(k + 1))
        } else {
            mantissa_ok(u)
        }
    }
}

/// Case-insensitive comparison of `t[start..]` against a lower-case literal.
fn eq_ignore_case(t: &[u8], start: usize, lit: &[u8]) -> (r: bool)
    requires
        start <= t@.len(),
    ensures
        r == lower_eq(t@.skip(start as int), lit@),
{
    let n: usize = t.len();
    if n - start != lit.len() {
        return false;
    }
    let mut i: usize = 0;
    while i < lit.len()
        invariant
            start <= n,
            n == t@.len(),
            n - start == lit@.len(),
            i <= lit@.len(),
            forall|j: int| 0 <= j < i ==> to_lower(t@.skip(start as int)[j]) == lit@[j],
        decreases lit@.len() - i,
    {
        let b = t[start + i];
        let low: u8 = if 65 <= b && b <= 90 {
            b + 32
        } else {
            b
        };
        if low != lit[i] {
            proof {
                assert(t@.skip(start as int)[i as int] == t@[start + i]);
            }
            return false;
        }
        proof {
            assert(t@.skip(start as int)[i as int] == t@[start + i]);
        }
        i = i + 1;
    }
    true
}

/// Scans for the first exponent marker at or after `start`.
fn find_exp_marker(t: &[u8], start: usize) -> (k: usize)
    requires
        start <= t@.len(),
    ensures
        start <= k <= t@.len(),
        first_exp_marker(t@.skip(start as int)) == k - start,
{
    let ghost u = t@.skip(start as int);
    let n: usize = t.len();
    let mut k: usize = start;
    while k < n && t[k] != 101 && t[k] != 69
        invariant
            start <= k <= n,
            n == t@.len(),
            u == t@.skip(start as int),
            forall|j: int| 0 <= j < k - start ==> !is_exp_marker(u[j]),
        decreases n - k,
    {
        proof {
            assert(u[k - start] == t@[k as int]);
        }
        k = k + 1;
    }
    proof {
        if k < n {
            assert(u[k - start] == t@[k as int]);
        }
        lemma_first_exp_marker(u, k - start);
    }
    k
}

/// Checks `t[start..end]` against the mantissa grammar.
fn check_mantissa(t: &[u8], start: usize, end: usize) -> (r: bool)
    requires
        start <= end <= t@.len(),
    ensures
        r == mantissa_ok(t@.subrange(start as int, end as int)),
{
    let ghost m = t@.subrange(start as int, end as int);
    let mut saw_digit: bool = false;
    let mut dots: usize = 0;
    let mut i: usize = start;
    proof {
        assert(m.take(0) =~= Seq::<u8>::empty());
    }
    while i < end
        invariant
            start <= i <= end <= t@.len(),
            m == t@.subrange(start as int, end as int),
            forall|j: int| 0 <= j < i - start ==> is_digit(#[trigger] m[j]) || m[j] == DOT,
            saw_digit == exists|j: int| 0 <= j < i - start && is_digit(#[trigger] m[j]),
            dots == count_byte(m.take(i - start), DOT),
            dots <= i,
        decreases end - i,
    {
        let b = t[i];
        proof {
            assert(m[i - start] == t@[i as int]);
            assert(m.take(i - start + 1).drop_last() =~= m.take(i - start));
            assert(m.take(i - start + 1).last() == t@[i as int]);
        }
        if digit_byte(b) {
            saw_digit = true;
        } else if b == DOT {
            dots = dots + 1;
        } else {
            proof {
                assert(!(is_digit(m[i - start]) || m[i - start] == DOT));
                assert(!mantissa_ok(m));
            }
            return false;
        }
        i = i + 1;
    }
    proof {
        assert(m.take(end - start) =~= m);
    }
    if !saw_digit || dots > 1 {
        proof {
            assert(!mantissa_ok(m));
        }
        return false;
    }
    proof {
        assert(mantissa_ok(m));
    }
    true
}

/// Checks `t[pos..]` against the exponent grammar (optional sign, digits).
fn check_exponent(t: &[u8], pos: usize) -> (r: bool)
    requires
        pos <= t@.len(),
    ensures
        r == exp_ok(t@.skip(pos as int)),
{
    let ghost x = t@.skip(pos as int);
    let n: usize = t.len();
    let ds: usize = if pos < n && (t[pos] == PLUS || t[pos] == MINUS) {
        pos + 1
    } else {
        pos
    };
    let ghost xd = strip_sign(x);
    proof {
        if pos < n {
            assert(x[0] == t@[pos as int]);
        }
        assert(xd =~= t@.skip(ds as int));
    }
    if ds == n {
        proof {
            assert(xd.len() == 0);
            assert(!exp_ok(x));
        }
        return false;
    }
    let mut i: usize = ds;
    while i < n
        invariant
            ds <= i <= n,
            n == t@.len(),
            x == t@.skip(pos as int),
            xd == strip_sign(x),
            xd == t@.skip(ds as int),
            forall|j: int| 0 <= j < i - ds ==> is_digit(xd[j]),
        decreases n - i,
    {
        proof {
            assert(xd[i - ds] == t@[i as int]);
        }
        if !digit_byte(t[i]) {
            proof {
                assert(!is_digit(xd[i - ds]));
                assert(!exp_ok(x));
            }
            return false;
        }
        i = i + 1;
    }
    proof {
        assert(xd.len() == n - ds);
        assert(exp_ok(x));
    }
    true
}

/// Decides whether `t` is a numeric token, exactly as [`numeric_token`]
/// describes.
pub fn is_numeric_token(t: &[u8]) -> (r: bool)
    ensures
        r == numeric_token(t@),
{
    let n: usize = t.len();
    let start: usize = if n > 0 && (t[0] == PLUS || t[0] == MINUS) {
        1
    } else {
        0
    };
    let ghost u = strip_sign(t@);
    proof {
        assert(u =~= t@.skip(start as int));
    }
    if eq_ignore_case(t, start, &[105, 110, 102]) {
        proof {
            assert(lower_eq(u, inf_bytes()));
        }
        return true;
    }
    if eq_ignore_case(t, start, &[105, 110, 102, 105, 110, 105, 116, 121]) {
        proof {
            assert(lower_eq(u, infinity_bytes()));
        }
        return true;
    }
    if eq_ignore_case(t, start, &[110, 97, 110]) {
        proof {
            assert(lower_eq(u, nan_bytes()));
        }
        return true;
    }
    proof {
        assert(!lower_eq(u, inf_bytes()));
        assert(!lower_eq(u, infinity_bytes()));
        assert(!lower_eq(u, nan_bytes()));
    }
    let k = find_exp_marker(t, start);
    proof {
        assert(first_exp_marker(u) == k - start);
        assert(t@.subrange(start as int, k as int) =~= u.take(k - start));
    }
    let man_ok = check_mantissa(t, start, k);
    if k == n {
        proof {
            assert(u.take(k - start) =~= u);
            assert(first_exp_marker(u) == u.len());
            assert(man_ok == numeric_token(t@));
        }
        man_ok
    } else {
        let e_ok = check_exponent(t, k + 1);
        proof {
            assert(t@.skip(k + 1) =~= u.skip(k - start + 1));
            assert(first_exp_marker(u) < u.len());
            assert((man_ok && e_ok) == numeric_token(t@));
        }
        man_ok && e_ok
    }
}

// ---------------------------------------------------------------------------
// Locating a byte
// ---------------------------------------------------------------------------

/// Index of the first occurrence of `b`, or the length when there is none.
pub open spec fn first_byte_idx(s: Seq<u8>, b: u8) -> int
    decreases s.len(),
{
    if s.len() == 0 {
        0
    } else if s[0] == b {
        0
    } else {
        1 + first_byte_idx(s.skip(1), b)
    }
}

/// Characterizes [`first_byte_idx`] by a scan.
pub proof fn lemma_first_byte_idx(s: Seq<u8>, b: u8, k: int)
    requires
        0 <= k <= s.len(),
        forall|j: int| 0 <= j < k ==> s[j] != b,
        k == s.len() || s[k] == b,
    ensures
        first_byte_idx(s, b) == k,
    decreases k,
{
    if k > 0 {
        lemma_first_byte_idx(s.skip(1), b, k - 1);
    }
}

/// Finds the first occurrence of `b`, exactly as [`first_byte_idx`]
/// describes; returns the length when there is none.
pub fn find_byte_in(s: &[u8], b: u8) -> (k: usize)
    ensures
        k <= s@.len(),
        first_byte_idx(s@, b) == k,
        k < s@.len() ==> s@[k as int] == b,
        forall|j: int| 0 <= j < k ==> s@[j] != b,
{
    let n: usize = s.len();
    let mut k: usize = 0;
    while k < n && s[k] != b
        invariant
            k <= n,
            n == s@.len(),
            forall|j: int| 0 <= j < k ==> s@[j] != b,
        decreases n - k,
    {
        k = k + 1;
    }
    proof {
        lemma_first_byte_idx(s@, b, k as int);
    }
    k
}

/// Copies `s[from..]` into a fresh vector.
pub fn copy_tail(s: &[u8], from: usize) -> (out: Vec<u8>)
    requires
        from <= s@.len(),
    ensures
        out@ == s@.skip(from as int),
{
    let n: usize = s.len();
    let mut out: Vec<u8> = Vec::new();
    let mut i: usize = from;
    while i < n
        invariant
            from <= i <= n,
            n == s@.len(),
            out@ == s@.subrange(from as int, i as int),
        decreases n - i,
    {
        out.push(s[i]);
        proof {
            assert(s@.subrange(from as int, i + 1) =~= s@.subrange(from as int, i as int).push(
                s@[i as int],
            ));
        }
        i = i + 1;
    }
    proof {
        assert(s@.subrange(from as int, n as int) =~= s@.skip(from as int));
    }
    out
}

/// Appends a byte slice to a byte vector.
pub fn push_bytes(out: &mut Vec<u8>, s: &[u8])
    ensures
        final(out)@ == old(out)@ + s@,
{
    let n: usize = s.len();
    let mut i: usize = 0;
    proof {
        assert(old(out)@ + s@.take(0) =~= old(out)@);
    }
    while i < n
        invariant
            i <= n,
            n == s@.len(),
            out@ == old(out)@ + s@.take(i as int),
        decreases n - i,
    {
        out.push(s[i]);
        proof {
            assert(old(out)@ + s@.take(i + 1) =~= (old(out)@ + s@.take(i as int)).push(
                s@[i as int],
            ));
        }
        i = i + 1;
    }
    proof {
        assert(s@.take(n as int) =~= s@);
    }
}

/// Every byte of a numeric token is printable ASCII (at least 33), so a
/// numeric token contains no whitespace, no line feed and no carriage return.
pub proof fn lemma_numeric_token_bytes(t: Seq<u8>)
    requires
        numeric_token(t),
    ensures
        t.len() >= 1,
        forall|i: int| 0 <= i < t.len() ==> 33 <= #[trigger] t[i],
{
    let u = strip_sign(t);
    let signed = t.len() > 0 && is_sign(t[0]);
    if lower_eq(u, inf_bytes()) || lower_eq(u, infinity_bytes()) || lower_eq(u, nan_bytes()) {
        assert(u.len() >= 3);
        assert forall|j: int| 0 <= j < u.len() implies 33 <= #[trigger] u[j] by {
            if lower_eq(u, inf_bytes()) {
                assert(to_lower(u[j]) == inf_bytes()[j]);
                assert(to_lower(u[j]) >= 97);
            } else if lower_eq(u, infinity_bytes()) {
                assert(to_lower(u[j]) == infinity_bytes()[j]);
                assert(to_lower(u[j]) >= 97);
            } else {
                assert(to_lower(u[j]) == nan_bytes()[j]);
                assert(to_lower(u[j]) >= 97);
            }
            assert(33 <= u[j]);
        }
    } else {
        let k = first_exp_marker(u);
        if k < u.len() {
            assert(mantissa_ok(u.take(k)) && exp_ok(u.skip(k + 1)));
            lemma_first_exp_marker_hit(u);
            let x = u.skip(k + 1);
            let xd = strip_sign(x);
            assert(u.len() >= 1);
            assert forall|j: int| 0 <= j < u.len() implies 33 <= #[trigger] u[j] by {
                if j < k {
                    assert(u.take(k)[j] == u[j]);
                    assert(is_digit(u[j]) || u[j] == DOT);
                } else if j == k {
                    assert(is_exp_marker(u[j]));
                } else {
                    let jj = j - (k + 1);
                    assert(x[jj] == u[j]);
                    if x.len() > 0 && is_sign(x[0]) && jj == 0 {
                        assert(is_sign(u[j]));
                    } else {
                        if x.len() > 0 && is_sign(x[0]) {
                            assert(xd[jj - 1] == x[jj]);
                            assert(is_digit(xd[jj - 1]));
                        } else {
                            assert(xd[jj] == x[jj]);
                            assert(is_digit(xd[jj]));
                        }
                    }
                }
            }
        } else {
            assert(mantissa_ok(u));
            assert(u.len() >= 1);
            assert forall|j: int| 0 <= j < u.len() implies 33 <= #[trigger] u[j] by {
                assert(is_digit(u[j]) || u[j] == DOT);
            }
        }
    }
    assert(u.len() >= 1);
    if signed {
        assert(t.len() == u.len() + 1);
        assert forall|i: int| 0 <= i < t.len() implies 33 <= #[trigger] t[i] by {
            if i == 0 {
                assert(is_sign(t[0]));
            } else {
                assert(u[i - 1] == t[i]);
            }
        }
    } else {
        assert(u == t);
    }
}

/// When the first exponent marker is inside the sequence, there is a marker
/// at that index.
pub proof fn lemma_first_exp_marker_hit(u: Seq<u8>)
    ensures
        0 <= first_exp_marker(u) <= u.len(),
        first_exp_marker(u) < u.len() ==> is_exp_marker(u[first_exp_marker(u)]),
        forall|j: int| 0 <= j < first_exp_marker(u) ==> !is_exp_marker(u[j]),
    decreases u.len(),
{
    if u.len() > 0 && !is_exp_marker(u[0]) {
        lemma_first_exp_marker_hit(u.skip(1));
        assert forall|j: int| 0 <= j < first_exp_marker(u) implies !is_exp_marker(u[j]) by {
            if j > 0 {
                assert(u.skip(1)[j - 1] == u[j]);
            }
        }
    }
}

} // verus!
