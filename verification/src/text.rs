//! Text handling shared by the index file and the commit object format:
//! the order in which strings are sorted, conversion between strings and
//! character vectors, and the splitting of a text into lines.

use vstd::prelude::*;
use vstd::string::*;
use vstd::utf8::*;

verus! {

/// Lexicographic order on byte strings, where the positions before `i` are
/// already known to agree.
pub open spec fn bytes_lt_from(a: Seq<u8>, b: Seq<u8>, i: int) -> bool
    decreases a.len() - i,
{
    if i >= b.len() {
        false
    } else if i >= a.len() {
        true
    } else if a[i] != b[i] {
        a[i] < b[i]
    } else {
        bytes_lt_from(a, b, i + 1)
    }
}

/// Strict lexicographic order on byte strings: a proper prefix sorts first.
pub open spec fn bytes_lt(a: Seq<u8>, b: Seq<u8>) -> bool {
    bytes_lt_from(a, b, 0)
}

/// The order of strings: byte by byte over their UTF-8 encoding.
pub open spec fn str_lt(a: Seq<char>, b: Seq<char>) -> bool {
    bytes_lt(encode_utf8(a), encode_utf8(b))
}

/// No byte string sorts before itself.
pub proof fn lemma_bytes_lt_irreflexive(a: Seq<u8>, i: int)
    ensures
        !bytes_lt_from(a, a, i),
    decreases a.len() - i,
{
    if i < a.len() {
        lemma_bytes_lt_irreflexive(a, i + 1);
    }
}

/// The order of byte strings is transitive.
pub proof fn lemma_bytes_lt_transitive(a: Seq<u8>, b: Seq<u8>, c: Seq<u8>, i: int)
    requires
        bytes_lt_from(a, b, i),
        bytes_lt_from(b, c, i),
    ensures
        bytes_lt_from(a, c, i),
    decreases a.len() - i,
{
    if i < a.len() && a[i] == b[i] && b[i] == c[i] {
        lemma_bytes_lt_transitive(a, b, c, i + 1);
    }
}

/// Two byte strings of which neither sorts before the other are equal.
pub proof fn lemma_bytes_lt_total(a: Seq<u8>, b: Seq<u8>, i: int)
    requires
        0 <= i <= a.len(),
        i <= b.len(),
        !bytes_lt_from(a, b, i),
        !bytes_lt_from(b, a, i),
    ensures
        a.len() == b.len(),
        forall|j: int| i <= j < a.len() ==> a[j] == b[j],
    decreases a.len() - i,
{
    if i < a.len() && i < b.len() {
        lemma_bytes_lt_total(a, b, i + 1);
    }
}

/// Two strings with the same UTF-8 encoding are the same string.
pub proof fn lemma_encode_utf8_injective(a: Seq<char>, b: Seq<char>)
    requires
        encode_utf8(a) == encode_utf8(b),
    ensures
        a == b,
{
    encode_utf8_decode_utf8(a);
    encode_utf8_decode_utf8(b);
}

/// No string sorts before itself.
pub proof fn lemma_str_lt_irreflexive(a: Seq<char>)
    ensures
        !str_lt(a, a),
{
    lemma_bytes_lt_irreflexive(encode_utf8(a), 0);
}

/// The order of strings is transitive.
pub proof fn lemma_str_lt_transitive(a: Seq<char>, b: Seq<char>, c: Seq<char>)
    requires
        str_lt(a, b),
        str_lt(b, c),
    ensures
        str_lt(a, c),
{
    lemma_bytes_lt_transitive(encode_utf8(a), encode_utf8(b), encode_utf8(c), 0);
}

/// A string that sorts before another is different from it and does not sort
/// behind it.
pub proof fn lemma_str_lt_asymmetric(a: Seq<char>, b: Seq<char>)
    requires
        str_lt(a, b),
    ensures
        !str_lt(b, a),
        a != b,
{
    if str_lt(b, a) {
        lemma_str_lt_transitive(a, b, a);
    }
    lemma_str_lt_irreflexive(a);
}

/// Of two different strings, one sorts before the other.
pub proof fn lemma_str_lt_total(a: Seq<char>, b: Seq<char>)
    ensures
        a == b || str_lt(a, b) || str_lt(b, a),
{
    if !str_lt(a, b) && !str_lt(b, a) {
        lemma_bytes_lt_total(encode_utf8(a), encode_utf8(b), 0);
        assert(encode_utf8(a) =~= encode_utf8(b));
        lemma_encode_utf8_injective(a, b);
    }
}

/// How two strings stand to each other in the order `str_lt`.
pub(crate) enum Order {
    Less,
    Equal,
    Greater,
}

/// Compares two strings byte by byte.
#[verifier::loop_isolation(false)]
pub(crate) fn str_order(a: &str, b: &str) -> (r: Order)
    ensures
        r == Order::Less <==> str_lt(a@, b@),
        r == Order::Equal <==> a@ == b@,
        r == Order::Greater <==> str_lt(b@, a@),
{
    let x = a.as_bytes();
    let y = b.as_bytes();
    proof {
        lemma_str_lt_total(a@, b@);
        if str_lt(a@, b@) {
            lemma_str_lt_asymmetric(a@, b@);
        }
        if str_lt(b@, a@) {
            lemma_str_lt_asymmetric(b@, a@);
        }
    }
    let mut i: usize = 0;
    while i < x.len() && i < y.len()
        invariant
            i <= x.len(),
            i <= y.len(),
            bytes_lt(x@, y@) == bytes_lt_from(x@, y@, i as int),
            bytes_lt(y@, x@) == bytes_lt_from(y@, x@, i as int),
        decreases x.len() - i,
    {
        if x[i] < y[i] {
            return Order::Less;
        }
        if x[i] > y[i] {
            return Order::Greater;
        }
        i += 1;
    }
    if i < y.len() {
        Order::Less
    } else if i < x.len() {
        Order::Greater
    } else {
        Order::Equal
    }
}

/// The characters of a string, in order.
pub(crate) fn to_chars(s: &str) -> (v: Vec<char>)
    ensures
        v@ == s@,
{
    let mut v: Vec<char> = Vec::new();
    for c in it: s.chars()
        invariant
            v@ == it.seq().take(it.index()),
            it.seq() == s@,
    {
        v.push(c);
    }
    v
}

/// The error of `core::str::from_utf8`. Nothing is read from it.
#[verifier::external_type_specification]
#[verifier::external_body]
pub struct ExUtf8Error(core::str::Utf8Error);

/// `core::str::from_utf8` takes a byte slice as a string exactly where the
/// bytes are valid UTF-8, and the string then has those bytes.
pub assume_specification[ core::str::from_utf8 ](v: &[u8]) -> (r: Result<
    &str,
    core::str::Utf8Error,
>)
    ensures
        r is Ok <==> valid_utf8(v@),
        r matches Ok(s) ==> s.spec_bytes() == v@,
;

/// `String::push` appends one character to the end of the string.
pub assume_specification[ String::push ](s: &mut String, c: char)
    ensures
        final(s)@ == old(s)@.push(c),
;

/// The string made of the characters `chars[from..to]`.
pub(crate) fn substring(chars: &Vec<char>, from: usize, to: usize) -> (s: String)
    requires
        from <= to <= chars.len(),
    ensures
        s@ == chars@.subrange(from as int, to as int),
{
    let mut s = String::new();
    let mut i: usize = from;
    while i < to
        invariant
            from <= i <= to <= chars.len(),
            s@ == chars@.subrange(from as int, i as int),
        decreases to - i,
    {
        s.push(chars[i]);
        i += 1;
    }
    s
}

/// Number of characters of `t` before the first `c`, or the length of `t`
/// where it holds none.
pub open spec fn position(t: Seq<char>, c: char) -> int
    decreases t.len(),
{
    if t.len() == 0 || t[0] == c {
        0
    } else {
        1 + position(t.drop_first(), c)
    }
}

/// Number of characters before the first line feed of `t`, or the length of
/// `t` where it holds none.
pub open spec fn line_end(t: Seq<char>) -> int {
    position(t, '\n')
}

/// A line without the carriage return that stood before its line feed.
pub open spec fn chomp(line: Seq<char>) -> Seq<char> {
    if line.len() > 0 && line.last() == '\r' {
        line.drop_last()
    } else {
        line
    }
}

/// The lines of a text. A line ends at a line feed, and a carriage return
/// directly before that line feed belongs to the line ending too. The last
/// line need not be terminated, and then is taken as it stands. The empty
/// text has no lines.
pub open spec fn lines(t: Seq<char>) -> Seq<Seq<char>>
    decreases t.len(),
{
    if t.len() == 0 {
        Seq::empty()
    } else {
        let k = line_end(t);
        if 0 <= k < t.len() {
            seq![chomp(t.take(k))] + lines(t.skip(k + 1))
        } else {
            seq![t]
        }
    }
}

/// The first `c` of `t` lies within `t`, and no `c` stands before it.
pub proof fn lemma_position_bounds(t: Seq<char>, c: char)
    ensures
        0 <= position(t, c) <= t.len(),
        forall|j: int| 0 <= j < position(t, c) ==> t[j] != c,
        position(t, c) < t.len() ==> t[position(t, c)] == c,
    decreases t.len(),
{
    if t.len() != 0 && t[0] != c {
        let r = t.drop_first();
        lemma_position_bounds(r, c);
        assert forall|j: int| 0 <= j < position(t, c) implies t[j] != c by {
            if j > 0 {
                assert(t[j] == r[j - 1]);
            }
        }
    }
}

/// The first `c` of `t` stands where the `k` characters before hold none,
/// or `k` is the length of `t` and `t` holds none.
pub proof fn lemma_position_is(t: Seq<char>, c: char, k: int)
    requires
        0 <= k <= t.len(),
        forall|j: int| 0 <= j < k ==> t[j] != c,
        k < t.len() ==> t[k] == c,
    ensures
        position(t, c) == k,
    decreases t.len(),
{
    if k > 0 {
        let r = t.drop_first();
        assert forall|j: int| 0 <= j < k - 1 implies r[j] != c by {
            assert(r[j] == t[j + 1]);
        }
        lemma_position_is(r, c, k - 1);
    }
}

/// A text that is empty or ends in a line feed.
pub open spec fn terminated(t: Seq<char>) -> bool {
    t.len() == 0 || t.last() == '\n'
}

/// A line that comes back as it is when it is written with a line feed
/// behind it and read again: it holds no line feed and does not end in a
/// carriage return.
pub open spec fn plain_line(l: Seq<char>) -> bool {
    &&& !l.contains('\n')
    &&& l.len() > 0 ==> l.last() != '\r'
}

/// A line written behind a terminated text is the last line of the result.
pub proof fn lemma_lines_push(a: Seq<char>, l: Seq<char>)
    requires
        terminated(a),
        plain_line(l),
    ensures
        lines(a + l + seq!['\n']) == lines(a).push(l),
    decreases a.len(),
{
    let nl = seq!['\n'];
    let whole = a + l + nl;
    if a.len() == 0 {
        assert(whole =~= l + nl);
        assert forall|j: int| 0 <= j < l.len() implies whole[j] != '\n' by {
            assert(l.contains(l[j]));
        }
        lemma_position_is(whole, '\n', l.len() as int);
        assert(whole.take(l.len() as int) =~= l);
        assert(whole.skip(l.len() as int + 1) =~= Seq::<char>::empty());
        assert(chomp(l) == l);
        assert(lines(whole.skip(l.len() as int + 1)) =~= Seq::<Seq<char>>::empty());
        assert(line_end(whole) == l.len());
        assert(lines(whole) =~= seq![l]);
        assert(lines(a).push(l) =~= seq![l]);
    } else {
        lemma_position_bounds(a, '\n');
        let k = line_end(a);
        if k == a.len() {
            assert(a[a.len() - 1] == '\n');
        }
        assert(k < a.len());
        assert forall|j: int| 0 <= j < k implies whole[j] != '\n' by {
            assert(whole[j] == a[j]);
        }
        assert(whole[k] == a[k]);
        lemma_position_is(whole, '\n', k);
        let rest = a.skip(k + 1);
        assert(whole.take(k) =~= a.take(k));
        assert(whole.skip(k + 1) =~= rest + l + nl);
        if rest.len() > 0 {
            assert(rest.last() == a.last());
        }
        lemma_lines_push(rest, l);
        assert(lines(whole) == seq![chomp(a.take(k))] + lines(rest + l + nl));
        assert(lines(a) == seq![chomp(a.take(k))] + lines(rest));
        assert(lines(whole) =~= lines(a).push(l));
    }
}

/// The characters `chars[from..to]`.
pub(crate) fn copy_range(chars: &Vec<char>, from: usize, to: usize) -> (out: Vec<char>)
    requires
        from <= to <= chars.len(),
    ensures
        out@ == chars@.subrange(from as int, to as int),
{
    let mut out: Vec<char> = Vec::new();
    let mut i: usize = from;
    while i < to
        invariant
            from <= i <= to <= chars.len(),
            out@ == chars@.subrange(from as int, i as int),
        decreases to - i,
    {
        out.push(chars[i]);
        i += 1;
    }
    out
}

/// True if `out` holds exactly the lines `ls`.
pub open spec fn holds_lines(out: Seq<Vec<char>>, ls: Seq<Seq<char>>) -> bool {
    &&& out.len() == ls.len()
    &&& forall|i: int| 0 <= i < out.len() ==> (#[trigger] out[i])@ == ls[i]
}

/// Splits a text into its lines.
pub(crate) fn split_lines(text: &Vec<char>) -> (out: Vec<Vec<char>>)
    ensures
        holds_lines(out@, lines(text@)),
{
    let n = text.len();
    let mut out: Vec<Vec<char>> = Vec::new();
    let mut pos: usize = 0;
    let ghost mut done: Seq<Seq<char>> = Seq::empty();
    proof {
        assert(text@.skip(0) =~= text@);
        assert(done + lines(text@) =~= lines(text@));
    }
    while pos < n
        invariant
            n == text.len(),
            pos <= n,
            holds_lines(out@, done),
            lines(text@) == done + lines(text@.skip(pos as int)),
        decreases n - pos,
    {
        let mut e: usize = pos;
        while e < n && text[e] != '\n'
            invariant
                n == text.len(),
                pos <= e <= n,
                forall|j: int| pos <= j < e ==> text@[j] != '\n',
            decreases n - e,
        {
            e += 1;
        }
        let ghost rest = text@.skip(pos as int);
        proof {
            assert forall|j: int| 0 <= j < e - pos implies rest[j] != '\n' by {
                assert(rest[j] == text@[pos + j]);
            }
            lemma_position_is(rest, '\n', e - pos);
        }
        let end: usize = if e < n && e > pos && text[e - 1] == '\r' {
            e - 1
        } else {
            e
        };
        let line = copy_range(text, pos, end);
        proof {
            let raw = rest.take(e - pos);
            assert(raw =~= text@.subrange(pos as int, e as int));
            if e < n {
                assert(chomp(raw) =~= line@);
                assert(rest.skip(e - pos + 1) =~= text@.skip(e + 1));
                assert(lines(rest) == seq![line@] + lines(text@.skip(e + 1)));
                assert(done + lines(rest) =~= done.push(line@) + lines(text@.skip(e + 1)));
            } else {
                assert(rest =~= line@);
                assert(lines(rest) == seq![line@]);
                assert(text@.skip(n as int).len() == 0);
                assert(done + lines(rest) =~= done.push(line@) + lines(text@.skip(n as int)));
            }
            done = done.push(line@);
        }
        out.push(line);
        pos = if e < n {
            e + 1
        } else {
            e
        };
    }
    proof {
        assert(text@.skip(pos as int).len() == 0);
        assert(done + lines(text@.skip(pos as int)) =~= done);
    }
    out
}

/// The characters that part the fields of a line: those with the Unicode
/// property `White_Space`. They are U+0009 to U+000D (tab, line feed,
/// vertical tab, form feed, carriage return), U+0020 (space), U+0085, U+00A0,
/// U+1680, U+2000 to U+200A, U+2028, U+2029, U+202F, U+205F and U+3000.
pub open spec fn is_whitespace(c: char) -> bool {
    ||| ('\u{9}' <= c && c <= '\u{d}')
    ||| c == ' '
    ||| c == '\u{85}'
    ||| c == '\u{a0}'
    ||| c == '\u{1680}'
    ||| ('\u{2000}' <= c && c <= '\u{200a}')
    ||| c == '\u{2028}'
    ||| c == '\u{2029}'
    ||| c == '\u{202f}'
    ||| c == '\u{205f}'
    ||| c == '\u{3000}'
}

/// True if `s` holds no whitespace.
pub open spec fn whitespace_free(s: Seq<char>) -> bool {
    forall|i: int| 0 <= i < s.len() ==> !is_whitespace(#[trigger] s[i])
}

/// Number of characters of `t` before its first whitespace, or the length of
/// `t` where it holds none.
pub open spec fn run_len(t: Seq<char>) -> int
    decreases t.len(),
{
    if t.len() == 0 || is_whitespace(t[0]) {
        0
    } else {
        1 + run_len(t.drop_first())
    }
}

/// The tokens of a line: its maximal runs of characters that are no
/// whitespace, first to last. Whitespace parts them and belongs to none, so
/// no token is empty.
pub open spec fn tokens(t: Seq<char>) -> Seq<Seq<char>>
    decreases t.len(),
{
    if t.len() == 0 {
        Seq::empty()
    } else if is_whitespace(t[0]) {
        tokens(t.drop_first())
    } else {
        let n = run_len(t);
        if 0 < n <= t.len() {
            seq![t.take(n)] + tokens(t.skip(n))
        } else {
            seq![t]
        }
    }
}

/// The first whitespace of `t` stands where the `n` characters before are no
/// whitespace, or `n` is the length of `t` and `t` holds none.
pub proof fn lemma_run_len_is(t: Seq<char>, n: int)
    requires
        0 <= n <= t.len(),
        forall|j: int| 0 <= j < n ==> !is_whitespace(#[trigger] t[j]),
        n < t.len() ==> is_whitespace(t[n]),
    ensures
        run_len(t) == n,
    decreases t.len(),
{
    if n > 0 {
        let r = t.drop_first();
        assert(!is_whitespace(t[0]));
        assert forall|j: int| 0 <= j < n - 1 implies !is_whitespace(#[trigger] r[j]) by {
            assert(r[j] == t[j + 1]);
        }
        lemma_run_len_is(r, n - 1);
    }
}

/// Whitespace at the start of a line adds no token.
pub proof fn lemma_tokens_skip(t: Seq<char>, k: int)
    requires
        0 <= k <= t.len(),
        forall|j: int| 0 <= j < k ==> is_whitespace(#[trigger] t[j]),
    ensures
        tokens(t) == tokens(t.skip(k)),
    decreases k,
{
    if k == 0 {
        assert(t.skip(0) =~= t);
    } else {
        let r = t.drop_first();
        assert(is_whitespace(t[0]));
        assert forall|j: int| 0 <= j < k - 1 implies is_whitespace(#[trigger] r[j]) by {
            assert(r[j] == t[j + 1]);
        }
        lemma_tokens_skip(r, k - 1);
        assert(r.skip(k - 1) =~= t.skip(k));
    }
}

/// A run of `n` characters that are no whitespace, at the start of a line and
/// with whitespace or the end of the line behind it, is the first token.
pub proof fn lemma_tokens_first(t: Seq<char>, n: int)
    requires
        0 < n <= t.len(),
        forall|j: int| 0 <= j < n ==> !is_whitespace(#[trigger] t[j]),
        n < t.len() ==> is_whitespace(t[n]),
    ensures
        tokens(t) == seq![t.take(n)] + tokens(t.skip(n)),
{
    lemma_run_len_is(t, n);
    assert(!is_whitespace(t[0]));
}

/// True if `c` is whitespace.
pub(crate) fn is_space(c: char) -> (r: bool)
    ensures
        r == is_whitespace(c),
{
    (c >= '\u{9}' && c <= '\u{d}') || c == ' ' || c == '\u{85}' || c == '\u{a0}' || c == '\u{1680}'
        || (c >= '\u{2000}' && c <= '\u{200a}') || c == '\u{2028}' || c == '\u{2029}' || c
        == '\u{202f}' || c == '\u{205f}' || c == '\u{3000}'
}

/// True if `out` holds exactly the tokens `ts`.
pub open spec fn holds_tokens(out: Seq<String>, ts: Seq<Seq<char>>) -> bool {
    &&& out.len() == ts.len()
    &&& forall|i: int| 0 <= i < out.len() ==> (#[trigger] out[i])@ == ts[i]
}

/// Splits a line into its tokens.
pub(crate) fn split_tokens(line: &Vec<char>) -> (out: Vec<String>)
    ensures
        holds_tokens(out@, tokens(line@)),
{
    let n = line.len();
    let mut out: Vec<String> = Vec::new();
    let mut pos: usize = 0;
    let ghost mut done: Seq<Seq<char>> = Seq::empty();
    proof {
        assert(line@.skip(0) =~= line@);
        assert(done + tokens(line@) =~= tokens(line@));
    }
    while pos < n
        invariant
            n == line.len(),
            pos <= n,
            holds_tokens(out@, done),
            tokens(line@) == done + tokens(line@.skip(pos as int)),
        decreases n - pos,
    {
        let ghost rest = line@.skip(pos as int);
        if is_space(line[pos]) {
            proof {
                assert(rest[0] == line@[pos as int]);
                assert(rest.drop_first() =~= line@.skip(pos + 1));
            }
            pos += 1;
        } else {
            let mut e: usize = pos + 1;
            while e < n && !is_space(line[e])
                invariant
                    n == line.len(),
                    pos < e <= n,
                    forall|j: int| pos <= j < e ==> !is_whitespace(#[trigger] line@[j]),
                decreases n - e,
            {
                e += 1;
            }
            let token = substring(line, pos, e);
            proof {
                assert forall|j: int| 0 <= j < e - pos implies !is_whitespace(#[trigger] rest[j]) by {
                    assert(rest[j] == line@[pos + j]);
                }
                if e < n {
                    assert(rest[e - pos] == line@[e as int]);
                }
                lemma_tokens_first(rest, e - pos);
                assert(rest.take(e - pos) =~= token@);
                assert(rest.skip(e - pos) =~= line@.skip(e as int));
                assert(done + tokens(rest) =~= done.push(token@) + tokens(line@.skip(e as int)));
                done = done.push(token@);
            }
            out.push(token);
            pos = e;
        }
    }
    proof {
        assert(line@.skip(pos as int).len() == 0);
        assert(done + tokens(line@.skip(pos as int)) =~= done);
    }
    out
}

} // verus!
