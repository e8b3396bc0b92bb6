//! Character-level helpers shared by the renderers and the pager.
use vstd::prelude::*;
use vstd::utf8::{decode_utf8, valid_utf8};

verus! {

/// `String::push` appends one character.
pub assume_specification[ String::push ](s: &mut String, ch: char)
    ensures
        final(s)@ == old(s)@.push(ch),
;

/// The characters of `s`, in order.
pub fn chars_of(s: &str) -> (r: Vec<char>)
    ensures
        r@ == s@,
{
    let mut v: Vec<char> = Vec::new();
    for c in it: s.chars()
        invariant
            v@ == it.seq().take(it.index()),
    {
        v.push(c);
    }
    v
}

/// A string holding exactly the characters `cs[from..to]`.
pub fn string_of(cs: &Vec<char>, from: usize, to: usize) -> (r: String)
    requires
        from <= to <= cs@.len(),
    ensures
        r@ == cs@.subrange(from as int, to as int),
{
    let mut out = String::new();
    let mut i = from;
    while i < to
        invariant
            from <= i <= to <= cs@.len(),
            out@ == cs@.subrange(from as int, i as int),
        decreases to - i,
    {
        out.push(cs[i]);
        i += 1;
    }
    out
}

/// Append the characters `cs[from..to]` to `out`.
pub fn push_chars(out: &mut String, cs: &Vec<char>, from: usize, to: usize)
    requires
        from <= to <= cs@.len(),
    ensures
        final(out)@ == old(out)@ + cs@.subrange(from as int, to as int),
{
    let mut i = from;
    while i < to
        invariant
            from <= i <= to <= cs@.len(),
            out@ == old(out)@ + cs@.subrange(from as int, i as int),
        decreases to - i,
    {
        out.push(cs[i]);
        i += 1;
    }
}

/// `std::str::from_utf8`: the bytes read as UTF-8 text, when they are valid
/// UTF-8 (as vstd's `valid_utf8` and `decode_utf8` define it).
#[verifier::external_body]
pub(crate) fn utf8_str(bytes: &[u8]) -> (r: Option<&str>)
    ensures
        r is Some <==> valid_utf8(bytes@),
        r matches Some(s) ==> s@ == decode_utf8(bytes@),
{
    std::str::from_utf8(bytes).ok()
}

/// Whether two strings hold the same characters.
pub fn str_eq(a: &str, b: &str) -> (r: bool)
    ensures
        r == (a@ == b@),
{
    let x = chars_of(a);
    let y = chars_of(b);
    if x.len() != y.len() {
        return false;
    }
    let mut i: usize = 0;
    while i < x.len()
        invariant
            x@ == a@,
            y@ == b@,
            x@.len() == y@.len(),
            i <= x@.len(),
            forall|k: int| 0 <= k < i ==> x@[k] == y@[k],
        decreases x@.len() - i,
    {
        if x[i] != y[i] {
            return false;
        }
        i += 1;
    }
    assert(x@ =~= y@);
    true
}

/// Position of the first `c` in `s` at or after `k`.
pub open spec fn first_index_of(s: Seq<char>, c: char, k: nat) -> Option<nat>
    decreases s.len() - k,
{
    if k >= s.len() {
        None
    } else if s[k as int] == c {
        Some(k)
    } else {
        first_index_of(s, c, k + 1)
    }
}

pub proof fn lemma_first_index_of(s: Seq<char>, c: char, k: nat)
    ensures
        first_index_of(s, c, k) matches Some(i) ==> k <= i < s.len() && s[i as int] == c,
    decreases s.len() - k,
{
    if k < s.len() && s[k as int] != c {
        lemma_first_index_of(s, c, k + 1);
    }
}

/// Find the first `c` in `cs[from..to]`.
pub fn find_char(cs: &Vec<char>, c: char, from: usize, to: usize) -> (r: Option<usize>)
    requires
        from <= to <= cs@.len(),
    ensures
        match first_index_of(cs@.subrange(from as int, to as int), c, 0) {
            Some(k) => r == Some((from + k) as usize),
            None => r is None,
        },
{
    let ghost s = cs@.subrange(from as int, to as int);
    let mut i = from;
    while i < to
        invariant
            from <= i <= to <= cs@.len(),
            s == cs@.subrange(from as int, to as int),
            first_index_of(s, c, 0) == first_index_of(s, c, (i - from) as nat),
        decreases to - i,
    {
        if cs[i] == c {
            return Some(i);
        }
        i += 1;
    }
    None
}

// ── Decimal numbers ─────────────────────────────────────────────────────────

/// The ASCII digit for `d` (for `d < 10`).
pub open spec fn digit(d: nat) -> char {
    if d == 0 { '0' }
    else if d == 1 { '1' }
    else if d == 2 { '2' }
    else if d == 3 { '3' }
    else if d == 4 { '4' }
    else if d == 5 { '5' }
    else if d == 6 { '6' }
    else if d == 7 { '7' }
    else if d == 8 { '8' }
    else { '9' }
}

/// The value of an ASCII digit character.
pub open spec fn digit_value(c: char) -> nat {
    (c as nat - '0' as nat) as nat
}

pub open spec fn is_digit(c: char) -> bool {
    '0' <= c && c <= '9'
}

/// The decimal representation of `n`, without leading zeros (`"0"` for zero).
pub open spec fn dec(n: nat) -> Seq<char>
    decreases n,
{
    if n < 10 {
        seq![digit(n)]
    } else {
        dec(n / 10).push(digit(n % 10))
    }
}

fn digit_char(d: u64) -> (c: char)
    requires
        d < 10,
    ensures
        c == digit(d as nat),
{
    if d == 0 { '0' }
    else if d == 1 { '1' }
    else if d == 2 { '2' }
    else if d == 3 { '3' }
    else if d == 4 { '4' }
    else if d == 5 { '5' }
    else if d == 6 { '6' }
    else if d == 7 { '7' }
    else if d == 8 { '8' }
    else { '9' }
}

/// Append the decimal representation of `n` to `out`.
pub fn push_decimal(out: &mut String, n: u128)
    ensures
        final(out)@ == old(out)@ + dec(n as nat),
    decreases n,
{
    if n >= 10 {
        push_decimal(out, n / 10);
    }
    out.push(digit_char((n % 10) as u64));
    proof {
        if n >= 10 {
            assert(old(out)@ + dec(n as nat) =~= old(out)@ + dec((n / 10) as nat) + seq![digit((n % 10) as nat)]);
        }
    }
}

/// The value of a run of decimal digits.
pub open spec fn digits_value(s: Seq<char>) -> nat
    decreases s.len(),
{
    if s.len() == 0 {
        0
    } else {
        digits_value(s.drop_last()) * 10 + digit_value(s.last())
    }
}

pub open spec fn all_digits(s: Seq<char>) -> bool {
    forall|i: int| 0 <= i < s.len() ==> is_digit(#[trigger] s[i])
}

/// What `str::parse` gives for an unsigned integer type whose largest value
/// is `max`: an optional `+`, then one or more decimal digits whose value
/// fits.
pub open spec fn parse_unsigned(s: Seq<char>, max: nat) -> Option<nat> {
    let d = if s.len() > 0 && s[0] == '+' { s.drop_first() } else { s };
    if d.len() == 0 || !all_digits(d) || digits_value(d) > max {
        None
    } else {
        Some(digits_value(d))
    }
}

/// Parse `cs[from..to]` as an unsigned number of at most `max`, following
/// `str::parse` for unsigned integer types.
proof fn lemma_digit(d: nat)
    requires
        d < 10,
    ensures
        is_digit(digit(d)),
        digit_value(digit(d)) == d,
{
}

/// `dec(n)` is a nonempty run of digits whose value is `n`.
pub proof fn lemma_dec(n: nat)
    ensures
        dec(n).len() > 0,
        all_digits(dec(n)),
        digits_value(dec(n)) == n,
    decreases n,
{
    if n >= 10 {
        lemma_dec(n / 10);
        lemma_digit(n % 10);
        let p = dec(n / 10);
        assert(dec(n).drop_last() =~= p);
        assert(dec(n).last() == digit(n % 10));
        assert(digits_value(dec(n)) == digits_value(p) * 10 + digit_value(digit(n % 10)));
        assert(n == (n / 10) * 10 + n % 10);
        assert forall|i: int| 0 <= i < dec(n).len() implies is_digit(#[trigger] dec(n)[i]) by {
            if i < p.len() {
                assert(dec(n)[i] == p[i]);
            }
        }
    } else {
        lemma_digit(n);
        assert(dec(n).drop_last() =~= Seq::<char>::empty());
        assert(digits_value(Seq::<char>::empty()) == 0);
        assert(dec(n).last() == digit(n));
        assert(digits_value(dec(n)) == digits_value(dec(n).drop_last()) * 10 + digit_value(dec(n).last()));
    }
}

/// Parsing the decimal representation of `n` gives `n` back.
pub proof fn lemma_parse_dec(n: nat, max: nat)
    requires
        n <= max,
    ensures
        parse_unsigned(dec(n), max) == Some(n),
{
    lemma_dec(n);
    assert(is_digit(dec(n)[0]));
}

/// The first `c` in `a`, `c`, `b` is the one after `a` when `a` holds none.
pub proof fn lemma_first_index_after(a: Seq<char>, c: char, b: Seq<char>, k: nat)
    requires
        k <= a.len(),
        forall|i: int| 0 <= i < a.len() ==> a[i] != c,
    ensures
        first_index_of(a + seq![c] + b, c, k) == Some(a.len()),
    decreases a.len() - k,
{
    let s = a + seq![c] + b;
    if k < a.len() {
        assert(s[k as int] == a[k as int]);
        lemma_first_index_after(a, c, b, k + 1);
    } else {
        assert(s[k as int] == c);
    }
}

pub fn parse_unsigned_chars(cs: &Vec<char>, from: usize, to: usize, max: u32) -> (r: Option<u32>)
    requires
        from <= to <= cs@.len(),
    ensures
        match parse_unsigned(cs@.subrange(from as int, to as int), max as nat) {
            Some(v) => r == Some(v as u32),
            None => r is None,
        },
{
    let ghost s = cs@.subrange(from as int, to as int);
    let mut start = from;
    if from < to && cs[from] == '+' {
        start = from + 1;
    }
    let ghost d = cs@.subrange(start as int, to as int);
    assert(d =~= (if s.len() > 0 && s[0] == '+' { s.drop_first() } else { s }));
    if start == to {
        return None;
    }
    let cap: u64 = max as u64 + 1;
    let mut acc: u64 = 0;
    let mut i = start;
    while i < to
        invariant
            start <= i <= to <= cs@.len(),
            cap == max as nat + 1,
            d == cs@.subrange(start as int, to as int),
            s == cs@.subrange(from as int, to as int),
            d == (if s.len() > 0 && s[0] == '+' { s.drop_first() } else { s }),
            d.len() > 0,
            all_digits(cs@.subrange(start as int, i as int)),
            acc as nat == if digits_value(cs@.subrange(start as int, i as int)) < cap {
                digits_value(cs@.subrange(start as int, i as int))
            } else {
                cap as nat
            },
        decreases to - i,
    {
        let c = cs[i];
        let ghost pre = cs@.subrange(start as int, i as int);
        let ghost next = cs@.subrange(start as int, i + 1);
        assert(next.drop_last() =~= pre);
        if !('0' <= c && c <= '9') {
            assert(!is_digit(d[i - start]));
            return None;
        }
        let dv = (c as u32 - '0' as u32) as u64;
        assert(dv == digit_value(c));
        if acc >= cap {
            acc = cap;
        } else {
            let v = acc * 10 + dv;
            acc = if v >= cap { cap } else { v };
        }
        i += 1;
        assert forall|k: int| 0 <= k < next.len() implies is_digit(#[trigger] next[k]) by {
            if k < pre.len() {
                assert(next[k] == pre[k]);
            }
        }
    }
    assert(cs@.subrange(start as int, i as int) =~= d);
    if acc >= cap {
        None
    } else {
        Some(acc as u32)
    }
}

// ── Lines ───────────────────────────────────────────────────────────────────

/// The pieces of `s` between occurrences of `sep` (always at least one piece).
pub open spec fn split_on(s: Seq<char>, sep: char) -> Seq<Seq<char>>
    decreases s.len(),
{
    if s.len() == 0 {
        seq![Seq::<char>::empty()]
    } else {
        let p = split_on(s.drop_last(), sep);
        if s.last() == sep {
            p.push(Seq::<char>::empty())
        } else {
            p.update(p.len() - 1, p.last().push(s.last()))
        }
    }
}

pub proof fn lemma_split_on_nonempty(s: Seq<char>, sep: char)
    ensures
        split_on(s, sep).len() >= 1,
    decreases s.len(),
{
    if s.len() > 0 {
        lemma_split_on_nonempty(s.drop_last(), sep);
    }
}

/// Split `s` on `sep`, like `str::split` with a single-character pattern.
pub fn split_chars(s: &str, sep: char) -> (r: Vec<String>)
    ensures
        r@.len() == split_on(s@, sep).len(),
        forall|i: int| 0 <= i < r@.len() ==> #[trigger] r@[i]@ == split_on(s@, sep)[i],
{
    let cs = chars_of(s);
    let mut done: Vec<String> = Vec::new();
    let mut cur = String::new();
    let mut i: usize = 0;
    while i < cs.len()
        invariant
            i <= cs@.len(),
            cs@ == s@,
            done@.len() + 1 == split_on(cs@.take(i as int), sep).len(),
            forall|j: int| 0 <= j < done@.len() ==> #[trigger] done@[j]@ == split_on(cs@.take(i as int), sep)[j],
            cur@ == split_on(cs@.take(i as int), sep).last(),
        decreases cs@.len() - i,
    {
        proof {
            lemma_split_on_nonempty(cs@.take(i as int), sep);
            assert(cs@.take(i + 1).drop_last() =~= cs@.take(i as int));
        }
        let c = cs[i];
        if c == sep {
            let line = cur;
            done.push(line);
            cur = String::new();
        } else {
            cur.push(c);
        }
        i += 1;
    }
    proof {
        assert(cs@.take(cs@.len() as int) =~= s@);
        lemma_split_on_nonempty(s@, sep);
    }
    done.push(cur);
    done
}

/// `s` without one trailing carriage return.
pub open spec fn strip_cr(line: Seq<char>) -> Seq<char> {
    if line.len() > 0 && line.last() == '\r' { line.drop_last() } else { line }
}

/// The lines of `s` as `str::lines` gives them: split at `\n`, a `\r`
/// before the `\n` dropped, and no empty line after a final `\n`.
pub open spec fn lines_spec(s: Seq<char>) -> Seq<Seq<char>> {
    let pieces = split_on(s, '\n');
    let full = pieces.take(pieces.len() - 1).map_values(|p: Seq<char>| strip_cr(p));
    if pieces.last().len() > 0 { full.push(pieces.last()) } else { full }
}

fn strip_cr_string(line: String) -> (r: String)
    ensures
        r@ == strip_cr(line@),
{
    let cs = chars_of(line.as_str());
    if cs.len() > 0 && cs[cs.len() - 1] == '\r' {
        string_of(&cs, 0, cs.len() - 1)
    } else {
        assert(cs@.subrange(0, cs@.len() as int) =~= line@);
        string_of(&cs, 0, cs.len())
    }
}

/// The lines of `s` (see `lines_spec`).
pub fn lines_of(s: &str) -> (r: Vec<String>)
    ensures
        r@.len() == lines_spec(s@).len(),
        forall|i: int| 0 <= i < r@.len() ==> #[trigger] r@[i]@ == lines_spec(s@)[i],
{
    let pieces = split_chars(s, '\n');
    proof {
        lemma_split_on_nonempty(s@, '\n');
    }
    let ghost ps = split_on(s@, '\n');
    let ghost full = ps.take(ps.len() - 1).map_values(|p: Seq<char>| strip_cr(p));
    let mut out: Vec<String> = Vec::new();
    let n = pieces.len();
    let mut i: usize = 0;
    while i + 1 < n
        invariant
            n == pieces@.len(),
            n == ps.len(),
            n >= 1,
            i + 1 <= n,
            ps == split_on(s@, '\n'),
            full == ps.take(ps.len() - 1).map_values(|p: Seq<char>| strip_cr(p)),
            forall|k: int| 0 <= k < pieces@.len() ==> #[trigger] pieces@[k]@ == ps[k],
            out@.len() == i,
            forall|k: int| 0 <= k < i ==> #[trigger] out@[k]@ == full[k],
        decreases n - i,
    {
        let line = strip_cr_string(pieces[i].clone());
        out.push(line);
        i += 1;
    }
    let last = pieces[n - 1].clone();
    if !last.as_str().is_empty() {
        out.push(last);
    }
    out
}

/// `char::is_whitespace`: the characters with the Unicode `White_Space`
/// property.
pub open spec fn is_ws(c: char) -> bool {
    ('\u{9}' <= c && c <= '\u{d}') || c == ' ' || c == '\u{85}' || c == '\u{a0}' || c == '\u{1680}' || ('\u{2000}'
        <= c && c <= '\u{200a}') || c == '\u{2028}' || c == '\u{2029}' || c == '\u{202f}' || c == '\u{205f}' || c
        == '\u{3000}'
}

pub fn is_whitespace(c: char) -> (b: bool)
    ensures
        b == is_ws(c),
{
    ('\u{9}' <= c && c <= '\u{d}') || c == ' ' || c == '\u{85}' || c == '\u{a0}' || c == '\u{1680}' || ('\u{2000}'
        <= c && c <= '\u{200a}') || c == '\u{2028}' || c == '\u{2029}' || c == '\u{202f}' || c == '\u{205f}' || c
        == '\u{3000}'
}

/// Scan state for splitting on whitespace: the finished words and the word
/// being read.
pub open spec fn words_scan(s: Seq<char>) -> (Seq<Seq<char>>, Seq<char>)
    decreases s.len(),
{
    if s.len() == 0 {
        (Seq::empty(), Seq::empty())
    } else {
        let (done, cur) = words_scan(s.drop_last());
        let c = s.last();
        if is_ws(c) {
            if cur.len() > 0 { (done.push(cur), Seq::empty()) } else { (done, Seq::empty()) }
        } else {
            (done, cur.push(c))
        }
    }
}

/// The maximal runs of non-whitespace characters of `s`, as
/// `str::split_whitespace` gives them.
pub open spec fn words(s: Seq<char>) -> Seq<Seq<char>> {
    let (done, cur) = words_scan(s);
    if cur.len() > 0 { done.push(cur) } else { done }
}

/// Split `s` on whitespace (see `words`).
pub fn split_whitespace(s: &str) -> (r: Vec<String>)
    ensures
        r@.len() == words(s@).len(),
        forall|i: int| 0 <= i < r@.len() ==> #[trigger] r@[i]@ == words(s@)[i],
{
    let cs = chars_of(s);
    let mut done: Vec<String> = Vec::new();
    let mut cur = String::new();
    let mut i: usize = 0;
    while i < cs.len()
        invariant
            i <= cs@.len(),
            cs@ == s@,
            done@.len() == words_scan(cs@.take(i as int)).0.len(),
            forall|k: int| 0 <= k < done@.len() ==> #[trigger] done@[k]@ == words_scan(cs@.take(i as int)).0[k],
            cur@ == words_scan(cs@.take(i as int)).1,
        decreases cs@.len() - i,
    {
        proof {
            assert(cs@.take(i + 1).drop_last() =~= cs@.take(i as int));
        }
        let c = cs[i];
        if is_whitespace(c) {
            if !cur.as_str().is_empty() {
                let w = cur;
                done.push(w);
            }
            cur = String::new();
        } else {
            cur.push(c);
        }
        i += 1;
    }
    proof {
        assert(cs@.take(cs@.len() as int) =~= s@);
    }
    if !cur.as_str().is_empty() {
        done.push(cur);
    }
    done
}

/// Every word is a nonempty run of non-whitespace characters.
pub open spec fn is_word(w: Seq<char>) -> bool {
    w.len() > 0 && forall|i: int| 0 <= i < w.len() ==> !is_ws(#[trigger] w[i])
}

pub open spec fn all_ws(s: Seq<char>) -> bool {
    forall|i: int| 0 <= i < s.len() ==> is_ws(#[trigger] s[i])
}

proof fn lemma_words_scan_props(s: Seq<char>)
    ensures
        forall|i: int| 0 <= i < words_scan(s).0.len() ==> is_word(#[trigger] words_scan(s).0[i]),
        forall|i: int| 0 <= i < words_scan(s).1.len() ==> !is_ws(#[trigger] words_scan(s).1[i]),
    decreases s.len(),
{
    if s.len() > 0 {
        lemma_words_scan_props(s.drop_last());
        let (done, cur) = words_scan(s.drop_last());
        if is_ws(s.last()) {
            if cur.len() > 0 {
                assert forall|i: int| 0 <= i < done.push(cur).len() implies is_word(#[trigger] done.push(cur)[i]) by {
                    if i < done.len() {
                        assert(done.push(cur)[i] == done[i]);
                    }
                }
            }
        } else {
            assert forall|i: int| 0 <= i < cur.push(s.last()).len() implies !is_ws(#[trigger] cur.push(s.last())[i]) by {
                if i < cur.len() {
                    assert(cur.push(s.last())[i] == cur[i]);
                }
            }
        }
    }
}

/// Every word of `s` is a nonempty run of non-whitespace characters.
pub proof fn lemma_words_are_words(s: Seq<char>)
    ensures
        forall|i: int| 0 <= i < words(s).len() ==> is_word(#[trigger] words(s)[i]),
{
    lemma_words_scan_props(s);
    let (done, cur) = words_scan(s);
    if cur.len() > 0 {
        assert forall|i: int| 0 <= i < done.push(cur).len() implies is_word(#[trigger] done.push(cur)[i]) by {
            if i < done.len() {
                assert(done.push(cur)[i] == done[i]);
            }
        }
    }
}

/// Appending whitespace finishes the word being read.
pub proof fn lemma_scan_append_ws(a: Seq<char>, sep: Seq<char>)
    requires
        sep.len() > 0,
        all_ws(sep),
    ensures
        words_scan(a + sep) == (words(a), Seq::<char>::empty()),
    decreases sep.len(),
{
    let s = a + sep;
    assert(s.drop_last() =~= a + sep.drop_last());
    assert(s.last() == sep.last());
    if sep.len() == 1 {
        assert(a + sep.drop_last() =~= a);
    } else {
        lemma_scan_append_ws(a, sep.drop_last());
    }
}

/// Appending a word when no word is being read starts it.
proof fn lemma_scan_append_word(a: Seq<char>, w: Seq<char>)
    requires
        words_scan(a).1.len() == 0,
        forall|i: int| 0 <= i < w.len() ==> !is_ws(#[trigger] w[i]),
    ensures
        words_scan(a + w) == (words_scan(a).0, w),
    decreases w.len(),
{
    if w.len() == 0 {
        assert(a + w =~= a);
    } else {
        let s = a + w;
        assert(s.drop_last() =~= a + w.drop_last());
        assert(s.last() == w.last());
        lemma_scan_append_word(a, w.drop_last());
        assert(w.drop_last().push(w.last()) =~= w);
    }
}

/// The words of `a`, whitespace, then a word: the words of `a` and that word.
pub proof fn lemma_words_append(a: Seq<char>, sep: Seq<char>, w: Seq<char>)
    requires
        sep.len() > 0,
        all_ws(sep),
        is_word(w),
    ensures
        words(a + sep + w) == words(a).push(w),
{
    lemma_scan_append_ws(a, sep);
    lemma_scan_append_word(a + sep, w);
}

/// The words of a word alone.
pub proof fn lemma_words_single(w: Seq<char>)
    requires
        is_word(w),
    ensures
        words(w) == seq![w],
{
    assert(words_scan(Seq::<char>::empty()).1.len() == 0);
    lemma_scan_append_word(Seq::<char>::empty(), w);
    assert(Seq::<char>::empty() + w =~= w);
}

// ── ANSI escapes ────────────────────────────────────────────────────────────

/// The escape scanner's state after `ch`, from `state`: 0 in text, 1 just
/// after `ESC`, 2 in a CSI sequence (`ESC [` up to a final byte `@`..`~`),
/// 3 in a string sequence (OSC `ESC ]`, DCS `ESC P`, PM `ESC ^` or APC
/// `ESC _`, up to `BEL` or the string terminator `ESC \`).  An `ESC`
/// always starts a new sequence; any other byte after a lone `ESC` ends it.
pub open spec fn escape_next(state: u8, ch: char) -> u8 {
    if ch == '\x1b' {
        1
    } else if state == 0 {
        0
    } else if state == 1 {
        if ch == '[' {
            2
        } else if ch == ']' || ch == '_' || ch == 'P' || ch == '^' {
            3
        } else {
            0
        }
    } else if state == 2 {
        if 0x40 <= (ch as u32) && (ch as u32) <= 0x7e { 0 } else { 2 }
    } else {
        if ch == '\x07' { 0 } else { 3 }
    }
}

fn escape_step(state: u8, ch: char) -> (r: u8)
    ensures
        r == escape_next(state, ch),
{
    if ch == '\x1b' {
        1
    } else if state == 0 {
        0
    } else if state == 1 {
        if ch == '[' {
            2
        } else if ch == ']' || ch == '_' || ch == 'P' || ch == '^' {
            3
        } else {
            0
        }
    } else if state == 2 {
        let c = ch as u32;
        if 0x40 <= c && c <= 0x7e { 0 } else { 2 }
    } else {
        if ch == '\x07' { 0 } else { 3 }
    }
}

/// Scan state after reading `s`: the characters kept so far (those read in
/// text, outside every escape sequence), and the scanner's state.
pub open spec fn ansi_scan(s: Seq<char>) -> (Seq<char>, u8)
    decreases s.len(),
{
    if s.len() == 0 {
        (Seq::<char>::empty(), 0)
    } else {
        let (kept, state) = ansi_scan(s.drop_last());
        let ch = s.last();
        (if state == 0 && ch != '\x1b' { kept.push(ch) } else { kept }, escape_next(state, ch))
    }
}

/// `s` holds no escape character.
pub open spec fn no_esc(s: Seq<char>) -> bool {
    forall|i: int| 0 <= i < s.len() ==> s[i] != '\x1b'
}

/// Both parts of a text without escape characters are without them.
pub proof fn lemma_no_esc_split(x: Seq<char>, y: Seq<char>)
    requires
        no_esc(x + y),
    ensures
        no_esc(x),
        no_esc(y),
{
    assert forall|i: int| 0 <= i < x.len() implies x[i] != '\x1b' by {
        assert((x + y)[i] == x[i]);
    }
    assert forall|j: int| 0 <= j < y.len() implies y[j] != '\x1b' by {
        assert((x + y)[x.len() + j] == y[j]);
    }
}

/// Reading one more character.
pub proof fn lemma_scan_step(a: Seq<char>, c: char)
    ensures
        ansi_scan(a.push(c)) == (
            if ansi_scan(a).1 == 0 && c != '\x1b' { ansi_scan(a).0.push(c) } else { ansi_scan(a).0 },
            escape_next(ansi_scan(a).1, c),
        ),
{
    assert(a.push(c).drop_last() =~= a);
}

/// Text free of escapes, read in the text state, is all kept.
pub proof fn lemma_scan_plain(a: Seq<char>, b: Seq<char>)
    requires
        ansi_scan(a).1 == 0,
        no_esc(b),
    ensures
        ansi_scan(a + b) == (ansi_scan(a).0 + b, 0u8),
    decreases b.len(),
{
    if b.len() == 0 {
        assert(a + b =~= a);
        assert(ansi_scan(a).0 + b =~= ansi_scan(a).0);
    } else {
        let b0 = b.drop_last();
        assert(no_esc(b0));
        lemma_scan_plain(a, b0);
        assert(a + b =~= (a + b0).push(b.last()));
        lemma_scan_step(a + b0, b.last());
        assert((ansi_scan(a).0 + b0).push(b.last()) =~= ansi_scan(a).0 + b);
    }
}

/// A one-digit SGR sequence (`ESC [ d m`) read in the text state leaves
/// it there, keeping nothing.
pub proof fn lemma_scan_short_sgr(a: Seq<char>, d: char)
    requires
        ansi_scan(a).1 == 0,
        is_digit(d),
    ensures
        ansi_scan(a + seq!['\x1b', '[', d, 'm']) == (ansi_scan(a).0, 0u8),
{
    let a1 = a.push('\x1b');
    lemma_scan_step(a, '\x1b');
    let a2 = a1.push('[');
    lemma_scan_step(a1, '[');
    let a3 = a2.push(d);
    lemma_scan_step(a2, d);
    lemma_scan_step(a3, 'm');
    assert(a + seq!['\x1b', '[', d, 'm'] =~= a3.push('m'));
}

/// Inside a string sequence, text without `ESC` or `BEL` keeps it open
/// and is not kept.
pub proof fn lemma_scan_string(a: Seq<char>, t: Seq<char>)
    requires
        ansi_scan(a).1 == 3,
        no_esc(t),
        forall|i: int| 0 <= i < t.len() ==> t[i] != '\x07',
    ensures
        ansi_scan(a + t) == (ansi_scan(a).0, 3u8),
    decreases t.len(),
{
    if t.len() == 0 {
        assert(a + t =~= a);
    } else {
        let t0 = t.drop_last();
        assert(no_esc(t0));
        lemma_scan_string(a, t0);
        assert(a + t =~= (a + t0).push(t.last()));
        lemma_scan_step(a + t0, t.last());
    }
}

/// Digits and semicolons inside a CSI sequence keep it open.
pub proof fn lemma_scan_csi(a: Seq<char>, t: Seq<char>)
    requires
        ansi_scan(a).1 == 2,
        forall|i: int| 0 <= i < t.len() ==> is_digit(#[trigger] t[i]) || t[i] == ';',
    ensures
        ansi_scan(a + t) == (ansi_scan(a).0, 2u8),
    decreases t.len(),
{
    if t.len() == 0 {
        assert(a + t =~= a);
    } else {
        let t0 = t.drop_last();
        assert forall|i: int| 0 <= i < t0.len() implies is_digit(#[trigger] t0[i]) || t0[i] == ';' by {
            assert(t0[i] == t[i]);
        }
        lemma_scan_csi(a, t0);
        assert(a + t =~= (a + t0).push(t.last()));
        lemma_scan_step(a + t0, t.last());
    }
}

/// An SGR sequence `ESC [ params m` (digits and semicolons) read in the
/// text state leaves it there, keeping nothing.
pub proof fn lemma_scan_sgr(a: Seq<char>, params: Seq<char>)
    requires
        ansi_scan(a).1 == 0,
        forall|i: int| 0 <= i < params.len() ==> is_digit(#[trigger] params[i]) || params[i] == ';',
    ensures
        ansi_scan(a + (seq!['\x1b', '['] + params + seq!['m'])) == (ansi_scan(a).0, 0u8),
{
    let a1 = a.push('\x1b');
    lemma_scan_step(a, '\x1b');
    let a2 = a1.push('[');
    lemma_scan_step(a1, '[');
    lemma_scan_csi(a2, params);
    lemma_scan_step(a2 + params, 'm');
    assert(a + (seq!['\x1b', '['] + params + seq!['m']) =~= (a2 + params).push('m'));
}

/// Reading more never takes back what was kept.
pub proof fn lemma_scan_prefix(a: Seq<char>, b: Seq<char>)
    ensures
        ansi_scan(a + b).0.len() >= ansi_scan(a).0.len(),
        ansi_scan(a + b).0.take(ansi_scan(a).0.len() as int) == ansi_scan(a).0,
    decreases b.len(),
{
    if b.len() == 0 {
        assert(a + b =~= a);
        assert(ansi_scan(a).0.take(ansi_scan(a).0.len() as int) =~= ansi_scan(a).0);
    } else {
        let b0 = b.drop_last();
        lemma_scan_prefix(a, b0);
        assert(a + b =~= (a + b0).push(b.last()));
        lemma_scan_step(a + b0, b.last());
        let k = ansi_scan(a + b0).0;
        assert(k.push(b.last()).take(ansi_scan(a).0.len() as int) =~= k.take(ansi_scan(a).0.len() as int));
    }
}

/// Text without escapes, reached in the text state, shows in full among
/// what is kept, whatever follows it.
pub proof fn lemma_scan_shows(x: Seq<char>, text: Seq<char>, y: Seq<char>)
    requires
        ansi_scan(x).1 == 0,
        no_esc(text),
    ensures
        contains_seq(strip_ansi_spec(x + text + y), text),
{
    lemma_scan_plain(x, text);
    lemma_scan_prefix(x + text, y);
    let k = ansi_scan(x).0;
    let all = strip_ansi_spec(x + text + y);
    assert(all.take((k + text).len() as int) == k + text);
    assert(all.subrange(k.len() as int, (k.len() + text.len()) as int) =~= text) by {
        assert forall|i: int| 0 <= i < text.len() implies all.subrange(k.len() as int, (k.len() + text.len()) as int)[i] == text[i] by {
            assert(all[k.len() + i] == all.take((k + text).len() as int)[k.len() + i]);
            assert((k + text)[k.len() + i] == text[i]);
        }
    }
}

/// Repeating text without escapes gives text without escapes.
pub proof fn lemma_repeat_no_esc(s: Seq<char>, n: nat)
    requires
        no_esc(s),
    ensures
        no_esc(repeat_seq(s, n)),
    decreases n,
{
    if n > 0 {
        lemma_repeat_no_esc(s, (n - 1) as nat);
        let p = repeat_seq(s, (n - 1) as nat);
        assert forall|i: int| 0 <= i < repeat_seq(s, n).len() implies repeat_seq(s, n)[i] != '\x1b' by {
            if i < p.len() {
                assert(repeat_seq(s, n)[i] == p[i]);
            } else {
                assert(repeat_seq(s, n)[i] == s[i - p.len()]);
            }
        }
    }
}

/// `s` with every escape sequence removed (see `escape_next`).
pub open spec fn strip_ansi_spec(s: Seq<char>) -> Seq<char> {
    ansi_scan(s).0
}

/// The number of characters of `s` that are not part of an escape sequence.
pub open spec fn visible_len_spec(s: Seq<char>) -> nat {
    strip_ansi_spec(s).len()
}

/// Remove escape sequences from `s`.
pub fn strip_ansi(s: &str) -> (r: String)
    ensures
        r@ == strip_ansi_spec(s@),
{
    let cs = chars_of(s);
    let mut out = String::new();
    let mut state: u8 = 0;
    let mut i: usize = 0;
    while i < cs.len()
        invariant
            i <= cs@.len(),
            cs@ == s@,
            ansi_scan(cs@.take(i as int)) == (out@, state),
        decreases cs@.len() - i,
    {
        proof {
            assert(cs@.take(i + 1).drop_last() =~= cs@.take(i as int));
        }
        let ch = cs[i];
        if state == 0 && ch != '\x1b' {
            out.push(ch);
        }
        state = escape_step(state, ch);
        i += 1;
    }
    proof {
        assert(cs@.take(cs@.len() as int) =~= s@);
    }
    out
}

/// Estimate the visible length of a string, ignoring escape sequences.
pub fn visible_len(s: &str) -> (n: usize)
    ensures
        n == visible_len_spec(s@),
{
    let cs = chars_of(s);
    let mut len: usize = 0;
    let mut state: u8 = 0;
    let mut i: usize = 0;
    while i < cs.len()
        invariant
            i <= cs@.len(),
            cs@ == s@,
            ansi_scan(cs@.take(i as int)).0.len() == len,
            ansi_scan(cs@.take(i as int)).1 == state,
            len <= i,
        decreases cs@.len() - i,
    {
        proof {
            assert(cs@.take(i + 1).drop_last() =~= cs@.take(i as int));
        }
        let ch = cs[i];
        if state == 0 && ch != '\x1b' {
            len += 1;
        }
        state = escape_step(state, ch);
        i += 1;
    }
    proof {
        assert(cs@.take(cs@.len() as int) =~= s@);
    }
    len
}

// ── Search ──────────────────────────────────────────────────────────────────

/// `needle` occurs in `hay` as a contiguous run.
pub open spec fn contains_seq(hay: Seq<char>, needle: Seq<char>) -> bool {
    exists|i: int| 0 <= i && i + needle.len() <= hay.len() && #[trigger] hay.subrange(i, i + needle.len()) == needle
}

pub fn matches_at(hay: &Vec<char>, needle: &Vec<char>, at: usize) -> (b: bool)
    requires
        at + needle@.len() <= hay@.len(),
    ensures
        b == (hay@.subrange(at as int, at + needle@.len()) == needle@),
{
    let n = hay.len();
    let mut j: usize = 0;
    while j < needle.len()
        invariant
            j <= needle@.len(),
            at + needle@.len() <= hay@.len(),
            n == hay@.len(),
            forall|k: int| 0 <= k < j ==> hay@[at + k] == needle@[k],
        decreases needle@.len() - j,
    {
        if hay[at + j] != needle[j] {
            proof {
                assert(hay@.subrange(at as int, at + needle@.len())[j as int] != needle@[j as int]);
            }
            return false;
        }
        j += 1;
    }
    assert(hay@.subrange(at as int, at + needle@.len()) =~= needle@);
    true
}

/// Whether `needle` occurs in `hay`.
pub fn contains_chars(hay: &Vec<char>, needle: &Vec<char>) -> (b: bool)
    ensures
        b == contains_seq(hay@, needle@),
{
    if needle.len() == 0 {
        assert(hay@.subrange(0int, 0int + needle@.len()) =~= needle@);
        return true;
    }
    if needle.len() > hay.len() {
        return false;
    }
    let n = hay.len();
    let last = n - needle.len();
    let mut i: usize = 0;
    while i <= last
        invariant
            last + needle@.len() == hay@.len(),
            n == hay@.len(),
            last < n,
            needle@.len() > 0,
            i <= last + 1,
            forall|k: int| 0 <= k < i ==> #[trigger] hay@.subrange(k, k + needle@.len()) != needle@,
        decreases last + 1 - i,
    {
        if matches_at(hay, needle, i) {
            return true;
        }
        i += 1;
    }
    false
}

/// Position of the first occurrence of `pat` in `s` at or after `k`.
pub open spec fn find_seq(s: Seq<char>, pat: Seq<char>, k: nat) -> Option<nat>
    decreases s.len() + 1 - k,
{
    if k + pat.len() > s.len() {
        None
    } else if s.subrange(k as int, (k + pat.len()) as int) == pat {
        Some(k)
    } else {
        find_seq(s, pat, k + 1)
    }
}

pub proof fn lemma_find_seq(s: Seq<char>, pat: Seq<char>, k: nat)
    ensures
        find_seq(s, pat, k) matches Some(i) ==> k <= i && i + pat.len() <= s.len() && s.subrange(
            i as int,
            (i + pat.len()) as int,
        ) == pat,
    decreases s.len() + 1 - k,
{
    if k + pat.len() <= s.len() && s.subrange(k as int, (k + pat.len()) as int) != pat {
        lemma_find_seq(s, pat, k + 1);
    }
}

/// The first occurrence of `pat` in `t`, `pat`, `r` is the one after `t`
/// when `t` does not hold the first character of `pat`.
pub proof fn lemma_find_seq_after(t: Seq<char>, pat: Seq<char>, r: Seq<char>, k: nat)
    requires
        pat.len() > 0,
        k <= t.len(),
        forall|i: int| 0 <= i < t.len() ==> t[i] != pat[0],
    ensures
        find_seq(t + pat + r, pat, k) == Some(t.len()),
    decreases t.len() - k,
{
    let s = t + pat + r;
    if k < t.len() {
        if k + pat.len() <= s.len() {
            assert(s.subrange(k as int, (k + pat.len()) as int)[0] == t[k as int]);
        }
        lemma_find_seq_after(t, pat, r, k + 1);
    } else {
        assert(s.subrange(k as int, (k + pat.len()) as int) =~= pat);
    }
}

/// A pattern whose first character `s` lacks does not occur in it.
pub proof fn lemma_find_seq_absent(s: Seq<char>, pat: Seq<char>, k: nat)
    requires
        pat.len() > 0,
        forall|i: int| 0 <= i < s.len() ==> s[i] != pat[0],
    ensures
        find_seq(s, pat, k) is None,
    decreases s.len() + 1 - k,
{
    if k + pat.len() <= s.len() {
        assert(s.subrange(k as int, (k + pat.len()) as int)[0] == s[k as int]);
        lemma_find_seq_absent(s, pat, k + 1);
    }
}

/// Find the first occurrence of `pat` in `hay` at or after `from`.
pub fn find_pattern(hay: &Vec<char>, from: usize, pat: &Vec<char>) -> (r: Option<usize>)
    requires
        from <= hay@.len(),
    ensures
        match find_seq(hay@.skip(from as int), pat@, 0) {
            Some(k) => r == Some((from + k) as usize),
            None => r is None,
        },
{
    let ghost s = hay@.skip(from as int);
    let n = hay.len();
    if pat.len() > n - from {
        return None;
    }
    let last = n - pat.len();
    let mut i = from;
    while i <= last
        invariant
            from <= i,
            n == hay@.len(),
            last + pat@.len() == n,
            s == hay@.skip(from as int),
            i <= last + 1,
            i <= n,
            find_seq(s, pat@, 0) == find_seq(s, pat@, (i - from) as nat),
        decreases last + 1 - i,
    {
        let m = matches_at(hay, pat, i);
        assert(s.subrange(i - from, i - from + pat@.len()) =~= hay@.subrange(i as int, i + pat@.len()));
        if m {
            return Some(i);
        }
        if i == last {
            assert((i - from + 1) + pat@.len() > s.len());
            assert(find_seq(s, pat@, (i - from + 1) as nat) is None);
            assert(find_seq(s, pat@, (i - from) as nat) == find_seq(s, pat@, (i - from + 1) as nat));
            return None;
        }
        i += 1;
    }
    None
}

/// The Unicode lower-case form of a string, as `str::to_lowercase` computes it.
pub uninterp spec fn lowercase(s: Seq<char>) -> Seq<char>;

/// `str::to_lowercase`: its result depends on the argument alone and is
/// named `lowercase`; the Unicode case tables are not restated here.
#[verifier::external_body]
pub(crate) fn to_lowercase(s: &str) -> (r: String)
    ensures
        r@ == lowercase(s@),
{
    s.to_lowercase()
}

// ── Repetition ──────────────────────────────────────────────────────────────

/// `s` repeated `n` times.
pub open spec fn repeat_seq(s: Seq<char>, n: nat) -> Seq<char>
    decreases n,
{
    if n == 0 {
        Seq::<char>::empty()
    } else {
        repeat_seq(s, (n - 1) as nat) + s
    }
}

/// Append `s` to `out` `n` times.
pub fn push_repeat(out: &mut String, s: &str, n: usize)
    ensures
        final(out)@ == old(out)@ + repeat_seq(s@, n as nat),
{
    let mut i: usize = 0;
    while i < n
        invariant
            i <= n,
            out@ == old(out)@ + repeat_seq(s@, i as nat),
        decreases n - i,
    {
        out.append(s);
        i += 1;
        proof {
            assert(old(out)@ + repeat_seq(s@, i as nat) =~= old(out)@ + repeat_seq(s@, (i - 1) as nat) + s@);
        }
    }
}

} // verus!
