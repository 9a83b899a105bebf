//! Textual primitives of the on-disk format: whitespace, literals, escaped
//! strings and decimal numbers, each with a specification-level reading and
//! an executable counterpart proved against it.
//!
//! A backing file holds one JSON object `{"count": N, "data": [...]}`.  The
//! functions here read and write the pieces of that text; the record and
//! container layers build on them.

use vstd::prelude::*;
use vstd::string::StrSliceExecFns;
use vstd::string::StringExecFns;

verus! {

/// The whitespace characters the parser skips between tokens.
pub open spec fn is_ws(c: char) -> bool {
    c == ' ' || c == '\n' || c == '\r' || c == '\t'
}

/// Index of the first non-whitespace character at or after `i`.
pub open spec fn spec_skip_ws(s: Seq<char>, i: int) -> int
    decreases s.len() - i,
{
    if 0 <= i && i < s.len() && is_ws(s[i]) {
        spec_skip_ws(s, i + 1)
    } else {
        i
    }
}

/// Skipping whitespace never moves backwards nor past the end.
pub proof fn lemma_skip_ws_range(s: Seq<char>, i: int)
    requires
        0 <= i <= s.len(),
    ensures
        i <= spec_skip_ws(s, i) <= s.len(),
    decreases s.len() - i,
{
    if i < s.len() && is_ws(s[i]) {
        lemma_skip_ws_range(s, i + 1);
    }
}

/// If everything in `[i, j)` is whitespace and `j` is the end or not
/// whitespace, the skip stops exactly at `j`.
pub proof fn lemma_skip_ws_run(s: Seq<char>, i: int, j: int)
    requires
        0 <= i <= j <= s.len(),
        forall|k: int| i <= k < j ==> is_ws(#[trigger] s[k]),
        j == s.len() || !is_ws(s[j]),
    ensures
        spec_skip_ws(s, i) == j,
    decreases j - i,
{
    if i < j {
        lemma_skip_ws_run(s, i + 1, j);
    }
}

/// First non-whitespace position at or after `i`.
pub fn skip_ws(s: &str, n: usize, i: usize) -> (r: usize)
    requires
        n == s@.len(),
        i <= n,
    ensures
        r == spec_skip_ws(s@, i as int),
        i <= r <= n,
    decreases n - i,
{
    if i < n {
        let c = s.get_char(i);
        if c == ' ' || c == '\n' || c == '\r' || c == '\t' {
            skip_ws(s, n, i + 1)
        } else {
            i
        }
    } else {
        i
    }
}

/// The text `l` occurs verbatim at position `i` of `s`.
pub open spec fn lit_matches(s: Seq<char>, i: int, l: Seq<char>) -> bool {
    0 <= i && i + l.len() <= s.len() && s.subrange(i, i + l.len()) == l
}

/// Whether the literal `l` occurs verbatim at position `i`.
pub fn match_lit(s: &str, n: usize, i: usize, l: &str) -> (r: bool)
    requires
        n == s@.len(),
        i <= n,
    ensures
        r == lit_matches(s@, i as int, l@),
{
    let m = l.unicode_len();
    if m > n - i {
        return false;
    }
    let mut k: usize = 0;
    while k < m
        invariant
            n == s@.len(),
            m == l@.len(),
            i + m <= n,
            k <= m,
            forall|t: int| 0 <= t < k ==> s@[i + t] == #[trigger] l@[t],
        decreases m - k,
    {
        if s.get_char(i + k) != l.get_char(k) {
            proof {
                assert(!lit_matches(s@, i as int, l@)) by {
                    if lit_matches(s@, i as int, l@) {
                        assert(s@.subrange(i as int, i + l@.len())[k as int] == l@[k as int]);
                    }
                }
            }
            return false;
        }
        k += 1;
    }
    proof {
        assert(s@.subrange(i as int, i + l@.len()) =~= l@);
    }
    true
}

/// How one character is written inside a quoted string: the seven short
/// escapes, every other character verbatim.
pub open spec fn esc_char(c: char) -> Seq<char> {
    if c == '"' {
        seq!['\\', '"']
    } else if c == '\\' {
        seq!['\\', '\\']
    } else if c == '\n' {
        seq!['\\', 'n']
    } else if c == '\r' {
        seq!['\\', 'r']
    } else if c == '\t' {
        seq!['\\', 't']
    } else if c == '\u{8}' {
        seq!['\\', 'b']
    } else if c == '\u{c}' {
        seq!['\\', 'f']
    } else {
        seq![c]
    }
}

/// The body of a quoted string: every character escaped as needed.
pub open spec fn escape(s: Seq<char>) -> Seq<char>
    decreases s.len(),
{
    if s.len() == 0 {
        Seq::empty()
    } else {
        esc_char(s[0]) + escape(s.skip(1))
    }
}

/// Escaping a string one character longer appends that character's escape.
pub proof fn lemma_escape_snoc(s: Seq<char>, c: char)
    ensures
        escape(s.push(c)) == escape(s) + esc_char(c),
    decreases s.len(),
{
    if s.len() == 0 {
        assert(s.push(c)[0] == c);
        assert(s.push(c).skip(1) =~= Seq::<char>::empty());
        assert(escape(s.push(c)) == esc_char(c) + escape(Seq::<char>::empty()));
        assert(escape(s.push(c)) =~= escape(s) + esc_char(c));
    } else {
        assert(s.push(c)[0] == s[0]);
        assert(s.push(c).skip(1) =~= s.skip(1).push(c));
        lemma_escape_snoc(s.skip(1), c);
        assert(escape(s.push(c)) == esc_char(s[0]) + escape(s.skip(1).push(c)));
        assert(escape(s.push(c)) =~= escape(s) + esc_char(c));
    }
}

/// The character named by an escape code, if the code is recognised.
pub open spec fn unesc_char(c: char) -> Option<char> {
    if c == '"' {
        Some('"')
    } else if c == '\\' {
        Some('\\')
    } else if c == 'n' {
        Some('\n')
    } else if c == 'r' {
        Some('\r')
    } else if c == 't' {
        Some('\t')
    } else if c == 'b' {
        Some('\u{8}')
    } else if c == 'f' {
        Some('\u{c}')
    } else {
        None
    }
}

/// Reads the body of a quoted string starting at `i` (just after the opening
/// quote) up to and over the closing quote.  Returns the unescaped content
/// and the position after the closing quote.
pub open spec fn spec_parse_string_body(s: Seq<char>, i: int) -> Option<(Seq<char>, int)>
    decreases s.len() - i,
{
    if i < 0 || i >= s.len() {
        None
    } else if s[i] == '"' {
        Some((Seq::empty(), i + 1))
    } else if s[i] == '\\' {
        if i + 1 < s.len() {
            match unesc_char(s[i + 1]) {
                Some(c) => match spec_parse_string_body(s, i + 2) {
                    Some((t, j)) => Some((seq![c] + t, j)),
                    None => None,
                },
                None => None,
            }
        } else {
            None
        }
    } else {
        match spec_parse_string_body(s, i + 1) {
            Some((t, j)) => Some((seq![s[i]] + t, j)),
            None => None,
        }
    }
}

/// A parsed string body ends after `i` and within the text.
pub proof fn lemma_parse_string_body_range(s: Seq<char>, i: int)
    ensures
        spec_parse_string_body(s, i) matches Some(p) ==> i < p.1 <= s.len(),
    decreases s.len() - i,
{
    if 0 <= i && i < s.len() {
        if s[i] == '"' {
        } else if s[i] == '\\' {
            if i + 1 < s.len() {
                lemma_parse_string_body_range(s, i + 2);
            }
        } else {
            lemma_parse_string_body_range(s, i + 1);
        }
    }
}

/// Appends the escaped form of `t` to `out`.
pub fn write_escaped(t: &str, out: &mut String)
    ensures
        final(out)@ == old(out)@ + escape(t@),
{
    let n = t.unicode_len();
    let mut i: usize = 0;
    proof {
        assert(t@.subrange(0, 0) =~= Seq::<char>::empty());
        assert(out@ + escape(t@.subrange(0, 0)) =~= out@);
    }
    while i < n
        invariant
            n == t@.len(),
            i <= n,
            out@ == old(out)@ + escape(t@.subrange(0, i as int)),
        decreases n - i,
    {
        let c = t.get_char(i);
        if c == '"' {
            out.append("\\\"");
        } else if c == '\\' {
            out.append("\\\\");
        } else if c == '\n' {
            out.append("\\n");
        } else if c == '\r' {
            out.append("\\r");
        } else if c == '\t' {
            out.append("\\t");
        } else if c == '\u{8}' {
            out.append("\\b");
        } else if c == '\u{c}' {
            out.append("\\f");
        } else {
            let piece = t.substring_char(i, i + 1);
            proof {
                assert(piece@ =~= seq![t@[i as int]]);
            }
            out.append(piece);
        }
        proof {
            reveal_strlit("\\\"");
            reveal_strlit("\\\\");
            reveal_strlit("\\n");
            reveal_strlit("\\r");
            reveal_strlit("\\t");
            reveal_strlit("\\b");
            reveal_strlit("\\f");
            lemma_escape_snoc(t@.subrange(0, i as int), t@[i as int]);
            assert(t@.subrange(0, i + 1) =~= t@.subrange(0, i as int).push(t@[i as int]));
            assert(out@ =~= old(out)@ + escape(t@.subrange(0, i + 1)));
        }
        i += 1;
    }
    proof {
        assert(t@.subrange(0, n as int) =~= t@);
    }
}

/// Reads a quoted string body, appending the content to `out`; returns the
/// position after the closing quote.
pub fn read_string_body(s: &str, n: usize, i: usize, out: &mut String) -> (r: Option<usize>)
    requires
        n == s@.len(),
        i <= n,
    ensures
        match spec_parse_string_body(s@, i as int) {
            Some(p) => r == Some(p.1 as usize) && p.1 <= n && final(out)@ == old(out)@ + p.0,
            None => r is None,
        },
    decreases n - i,
{
    proof {
        lemma_parse_string_body_range(s@, i as int);
    }
    if i >= n {
        return None;
    }
    let c = s.get_char(i);
    if c == '"' {
        proof {
            assert(old(out)@ + Seq::<char>::empty() =~= old(out)@);
        }
        return Some(i + 1);
    }
    if c == '\\' {
        if i + 1 >= n {
            return None;
        }
        let e = s.get_char(i + 1);
        let u: char;
        if e == '"' {
            u = '"';
        } else if e == '\\' {
            u = '\\';
        } else if e == 'n' {
            u = '\n';
        } else if e == 'r' {
            u = '\r';
        } else if e == 't' {
            u = '\t';
        } else if e == 'b' {
            u = '\u{8}';
        } else if e == 'f' {
            u = '\u{c}';
        } else {
            return None;
        }
        assert(unesc_char(s@[i + 1]) == Some(u));
        let ghost mid = out@;
        if u == '"' {
            out.append("\"");
            proof { reveal_strlit("\""); }
        } else if u == '\\' {
            out.append("\\");
            proof { reveal_strlit("\\"); }
        } else if u == '\n' {
            out.append("\n");
            proof { reveal_strlit("\n"); }
        } else if u == '\r' {
            out.append("\r");
            proof { reveal_strlit("\r"); }
        } else if u == '\t' {
            out.append("\t");
            proof { reveal_strlit("\t"); }
        } else if u == '\u{8}' {
            out.append("\u{8}");
            proof { reveal_strlit("\u{8}"); }
        } else {
            out.append("\u{c}");
            proof { reveal_strlit("\u{c}"); }
        }
        assert(out@ =~= mid + seq![u]);
        let rest = read_string_body(s, n, i + 2, out);
        match rest {
            Some(j) => {
                proof {
                    let p = spec_parse_string_body(s@, i as int).unwrap();
                    let q = spec_parse_string_body(s@, i + 2).unwrap();
                    assert(out@ =~= old(out)@ + (seq![u] + q.0));
                }
                Some(j)
            },
            None => None,
        }
    } else {
        let piece = s.substring_char(i, i + 1);
        proof {
            assert(piece@ =~= seq![s@[i as int]]);
        }
        out.append(piece);
        let ghost mid = out@;
        let rest = read_string_body(s, n, i + 1, out);
        match rest {
            Some(j) => {
                proof {
                    let q = spec_parse_string_body(s@, i + 1).unwrap();
                    assert(out@ =~= old(out)@ + (seq![s@[i as int]] + q.0));
                }
                Some(j)
            },
            None => None,
        }
    }
}

/// Reading back an escaped string recovers it: if the text from `i` holds
/// `escape(f)` followed by a closing quote, the parse yields exactly `f`.
pub proof fn lemma_read_escaped(f: Seq<char>, s: Seq<char>, i: int)
    requires
        0 <= i,
        i + escape(f).len() + 1 <= s.len(),
        s.subrange(i, i + escape(f).len()) == escape(f),
        s[i + escape(f).len()] == '"',
    ensures
        spec_parse_string_body(s, i) == Some((f, i + escape(f).len() + 1)),
    decreases f.len(),
{
    if f.len() == 0 {
        assert(f =~= Seq::<char>::empty());
        assert(s[i] == '"');
    } else {
        let c = f[0];
        let rest = f.skip(1);
        let e = esc_char(c);
        let el = e.len() as int;
        let rl = escape(rest).len() as int;
        assert(escape(f) == e + escape(rest));
        assert forall|k: int| 0 <= k < el + rl implies s[i + k] == #[trigger] (e + escape(rest))[k] by {
            assert(s.subrange(i, i + escape(f).len())[k] == s[i + k]);
        }
        assert(s.subrange(i + el, i + el + rl) =~= escape(rest)) by {
            assert forall|k: int| 0 <= k < rl implies s.subrange(i + el, i + el + rl)[k]
                == escape(rest)[k] by {
                assert(s[i + el + k] == (e + escape(rest))[el + k]);
            }
        }
        lemma_read_escaped(rest, s, i + el);
        assert(seq![c] + rest =~= f);
        assert((e + escape(rest))[0] == e[0]);
        assert(s[i] == e[0]);
        if c == '"' || c == '\\' || c == '\n' || c == '\r' || c == '\t' || c == '\u{8}' || c
            == '\u{c}' {
            assert(e[0] == '\\' && e[1] == esc_char(c)[1]);
            assert((e + escape(rest))[1] == e[1]);
            assert(s[i + 1] == e[1]);
            assert(unesc_char(s[i + 1]) == Some(c));
            assert(spec_parse_string_body(s, i) == Some((seq![c] + rest, i + el + rl + 1)));
        } else {
            assert(s[i] == c);
            assert(spec_parse_string_body(s, i) == Some((seq![c] + rest, i + el + rl + 1)));
        }
    }
}

/// Chained token step: skip whitespace, then expect the literal `l`.
/// `None` threads failure through a parse chain.
pub open spec fn tok(o: Option<int>, s: Seq<char>, l: Seq<char>) -> Option<int> {
    match o {
        Some(i) => {
            let j = spec_skip_ws(s, i);
            if lit_matches(s, j, l) {
                Some(j + l.len())
            } else {
                None
            }
        },
        None => None,
    }
}

/// Chained token step: skip whitespace, then read one quoted string.
pub open spec fn tok_string(o: Option<int>, s: Seq<char>) -> Option<(Seq<char>, int)> {
    match o {
        Some(i) => {
            let j = spec_skip_ws(s, i);
            if 0 <= j < s.len() && s[j] == '"' {
                spec_parse_string_body(s, j + 1)
            } else {
                None
            }
        },
        None => None,
    }
}

/// A matched token ends after its start and within the text.
pub proof fn lemma_tok_range(s: Seq<char>, i: int, l: Seq<char>)
    requires
        0 <= i <= s.len(),
        l.len() >= 1,
    ensures
        tok(Some(i), s, l) matches Some(j) ==> i < j <= s.len(),
{
    lemma_skip_ws_range(s, i);
}

/// A read string token ends after its start and within the text.
pub proof fn lemma_tok_string_range(s: Seq<char>, i: int)
    requires
        0 <= i <= s.len(),
    ensures
        tok_string(Some(i), s) matches Some(p) ==> i < p.1 <= s.len(),
{
    lemma_skip_ws_range(s, i);
    let j = spec_skip_ws(s, i);
    if 0 <= j < s.len() && s[j] == '"' {
        lemma_parse_string_body_range(s, j + 1);
    }
}

/// A token match at a known place: `w` whitespace characters, then `l`.
pub proof fn lemma_tok_at(s: Seq<char>, p: int, w: int, l: Seq<char>)
    requires
        0 <= p,
        w >= 0,
        p + w <= s.len(),
        forall|k: int| p <= k < p + w ==> is_ws(#[trigger] s[k]),
        lit_matches(s, p + w, l),
        l.len() >= 1,
        !is_ws(l[0]),
    ensures
        tok(Some(p), s, l) == Some(p + w + l.len()),
{
    assert(s.subrange(p + w, p + w + l.len())[0] == s[p + w]);
    assert(s[p + w] == l[0]);
    lemma_skip_ws_run(s, p, p + w);
}

/// A token miss at a known place: after the whitespace stands a character
/// other than the literal's first.
pub proof fn lemma_tok_miss(s: Seq<char>, p: int, w: int, l: Seq<char>)
    requires
        0 <= p,
        w >= 0,
        p + w < s.len(),
        forall|k: int| p <= k < p + w ==> is_ws(#[trigger] s[k]),
        !is_ws(s[p + w]),
        s[p + w] != l[0],
        l.len() >= 1,
    ensures
        tok(Some(p), s, l) == None::<int>,
{
    lemma_skip_ws_run(s, p, p + w);
    if lit_matches(s, p + w, l) {
        assert(s.subrange(p + w, p + w + l.len())[0] == s[p + w]);
    }
}

/// A string token at a known place: `w` whitespace characters, a quote,
/// the escaped text of `f`, and a closing quote.
pub proof fn lemma_tok_string_at(s: Seq<char>, p: int, w: int, f: Seq<char>)
    requires
        0 <= p,
        w >= 0,
        p + w + 1 + escape(f).len() + 1 <= s.len(),
        forall|k: int| p <= k < p + w ==> is_ws(#[trigger] s[k]),
        s[p + w] == '"',
        s.subrange(p + w + 1, p + w + 1 + escape(f).len()) == escape(f),
        s[p + w + 1 + escape(f).len()] == '"',
    ensures
        tok_string(Some(p), s) == Some((f, p + w + 2 + escape(f).len())),
{
    lemma_skip_ws_run(s, p, p + w);
    lemma_read_escaped(f, s, p + w + 1);
}

/// Skip whitespace, then take the literal `l`; the position after it.
pub fn take_tok(s: &str, n: usize, i: usize, l: &str) -> (r: Option<usize>)
    requires
        n == s@.len(),
        i <= n,
    ensures
        match tok(Some(i as int), s@, l@) {
            Some(j) => r == Some(j as usize) && i <= j <= n,
            None => r is None,
        },
{
    proof {
        lemma_skip_ws_range(s@, i as int);
    }
    let j = skip_ws(s, n, i);
    if match_lit(s, n, j, l) {
        Some(j + l.unicode_len())
    } else {
        None
    }
}

/// Skip whitespace, then read one quoted string; its content and the
/// position after the closing quote.
pub fn take_string(s: &str, n: usize, i: usize) -> (r: Option<(String, usize)>)
    requires
        n == s@.len(),
        i <= n,
    ensures
        match tok_string(Some(i as int), s@) {
            Some(p) => r matches Some(q) && q.0@ == p.0 && q.1 == p.1 && i <= p.1 <= n,
            None => r is None,
        },
{
    proof {
        lemma_tok_string_range(s@, i as int);
    }
    let j = skip_ws(s, n, i);
    if j < n && s.get_char(j) == '"' {
        let mut out = String::new();
        match read_string_body(s, n, j + 1, &mut out) {
            Some(k) => {
                proof {
                    let p = spec_parse_string_body(s@, j + 1).unwrap();
                    assert(out@ =~= p.0);
                }
                Some((out, k))
            },
            None => None,
        }
    } else {
        None
    }
}

/// The ten decimal digit characters.
pub open spec fn is_digit(c: char) -> bool {
    c == '0' || c == '1' || c == '2' || c == '3' || c == '4' || c == '5' || c == '6' || c == '7'
        || c == '8' || c == '9'
}

/// The value of a digit character.
pub open spec fn digit_val(c: char) -> nat {
    if c == '0' {
        0
    } else if c == '1' {
        1
    } else if c == '2' {
        2
    } else if c == '3' {
        3
    } else if c == '4' {
        4
    } else if c == '5' {
        5
    } else if c == '6' {
        6
    } else if c == '7' {
        7
    } else if c == '8' {
        8
    } else {
        9
    }
}

/// The digit character of a value below ten.
pub open spec fn digit_char(d: int) -> char {
    if d == 0 {
        '0'
    } else if d == 1 {
        '1'
    } else if d == 2 {
        '2'
    } else if d == 3 {
        '3'
    } else if d == 4 {
        '4'
    } else if d == 5 {
        '5'
    } else if d == 6 {
        '6'
    } else if d == 7 {
        '7'
    } else if d == 8 {
        '8'
    } else {
        '9'
    }
}

/// The decimal text of a number, most significant digit first.
pub open spec fn dec_str(nv: nat) -> Seq<char>
    decreases nv,
{
    if nv < 10 {
        seq![digit_char(nv as int)]
    } else {
        dec_str(nv / 10).push(digit_char((nv % 10) as int))
    }
}

/// Ten to the `k`.
pub open spec fn pow10(k: nat) -> nat
    decreases k,
{
    if k == 0 {
        1
    } else {
        10 * pow10((k - 1) as nat)
    }
}

/// Reads a run of digits starting at `i`, folding them onto `acc`; stops at
/// the first non-digit.  Yields `None` if the value would not fit a `usize`.
pub open spec fn spec_parse_nat(s: Seq<char>, i: int, acc: nat) -> Option<(nat, int)>
    decreases s.len() - i,
{
    if 0 <= i && i < s.len() && is_digit(s[i]) {
        if acc * 10 + digit_val(s[i]) <= usize::MAX {
            spec_parse_nat(s, i + 1, acc * 10 + digit_val(s[i]))
        } else {
            None
        }
    } else {
        Some((acc, i))
    }
}

/// A digit run ends at or after where it began, within the text, and its
/// value fits a `usize` when the seed did.
pub proof fn lemma_parse_nat_range(s: Seq<char>, i: int, acc: nat)
    requires
        0 <= i <= s.len(),
        acc <= usize::MAX,
    ensures
        spec_parse_nat(s, i, acc) matches Some(p) ==> i <= p.1 <= s.len() && p.0 <= usize::MAX,
    decreases s.len() - i,
{
    if i < s.len() && is_digit(s[i]) && acc * 10 + digit_val(s[i]) <= usize::MAX {
        lemma_parse_nat_range(s, i + 1, acc * 10 + digit_val(s[i]));
    }
}

/// Decimal text is nonempty and all digits.
pub proof fn lemma_dec_str_digits(nv: nat)
    ensures
        dec_str(nv).len() >= 1,
        forall|k: int| 0 <= k < dec_str(nv).len() ==> is_digit(#[trigger] dec_str(nv)[k]),
    decreases nv,
{
    if nv < 10 {
        lemma_digit_char(nv as int);
    } else {
        lemma_dec_str_digits(nv / 10);
        lemma_digit_char((nv % 10) as int);
        let hd = dec_str(nv / 10);
        assert forall|k: int| 0 <= k < dec_str(nv).len() implies is_digit(
            #[trigger] dec_str(nv)[k],
        ) by {
            if k < hd.len() {
                assert(dec_str(nv)[k] == hd[k]);
            } else {
                assert(dec_str(nv)[k] == digit_char((nv % 10) as int));
            }
        }
    }
}

/// The digit character of `d` reads back as `d`.
pub proof fn lemma_digit_char(d: int)
    requires
        0 <= d < 10,
    ensures
        is_digit(digit_char(d)),
        digit_val(digit_char(d)) == d,
{
}

/// Reading the decimal text of `nv` folds it onto `acc` exactly.
pub proof fn lemma_read_dec(nv: nat, s: Seq<char>, i: int, acc: nat)
    requires
        0 <= i,
        i + dec_str(nv).len() <= s.len(),
        s.subrange(i, i + dec_str(nv).len()) == dec_str(nv),
        acc * pow10(dec_str(nv).len() as nat) + nv <= usize::MAX,
    ensures
        spec_parse_nat(s, i, acc) == spec_parse_nat(
            s,
            i + dec_str(nv).len(),
            (acc * pow10(dec_str(nv).len() as nat) + nv) as nat,
        ),
    decreases nv,
{
    if nv < 10 {
        assert(s.subrange(i, i + 1)[0] == s[i]);
        assert(s[i] == digit_char(nv as int));
        lemma_digit_char(nv as int);
        assert(pow10(0) == 1);
        assert(pow10(1) == 10);
        assert(acc * 10 + nv <= usize::MAX);
    } else {
        let hd = dec_str(nv / 10);
        let lp = hd.len() as int;
        let d = digit_char((nv % 10) as int);
        assert(dec_str(nv) == hd.push(d));
        assert forall|k: int| 0 <= k < lp + 1 implies s[i + k] == #[trigger] hd.push(d)[k] by {
            assert(s.subrange(i, i + lp + 1)[k] == s[i + k]);
        }
        assert(s.subrange(i, i + lp) =~= hd) by {
            assert forall|k: int| 0 <= k < lp implies s.subrange(i, i + lp)[k] == hd[k] by {
                assert(s[i + k] == hd.push(d)[k]);
            }
        }
        assert(pow10((lp + 1) as nat) == 10 * pow10(lp as nat));
        let whole = acc * pow10((lp + 1) as nat) + nv;
        let part = acc * pow10(lp as nat) + nv / 10;
        assert(part * 10 + nv % 10 == whole) by (nonlinear_arith)
            requires
                pow10((lp + 1) as nat) == 10 * pow10(lp as nat),
                whole == acc * pow10((lp + 1) as nat) + nv,
                part == acc * pow10(lp as nat) + nv / 10,
                nv >= 10,
        ;
        assert(part <= usize::MAX);
        lemma_read_dec(nv / 10, s, i, acc);
        assert(hd.push(d)[lp] == d);
        assert(s[i + lp] == d);
        lemma_digit_char((nv % 10) as int);
        assert(spec_parse_nat(s, i + lp, part as nat) == spec_parse_nat(s, i + lp + 1, (part * 10
            + nv % 10) as nat));
    }
}

/// The decimal text of a digit value.
pub fn digit_str(d: usize) -> (r: &'static str)
    requires
        d < 10,
    ensures
        r@ == seq![digit_char(d as int)],
{
    if d == 0 {
        proof {
            reveal_strlit("0");
            assert("0"@ =~= seq![digit_char(d as int)]);
        }
        "0"
    } else if d == 1 {
        proof {
            reveal_strlit("1");
            assert("1"@ =~= seq![digit_char(d as int)]);
        }
        "1"
    } else if d == 2 {
        proof {
            reveal_strlit("2");
            assert("2"@ =~= seq![digit_char(d as int)]);
        }
        "2"
    } else if d == 3 {
        proof {
            reveal_strlit("3");
            assert("3"@ =~= seq![digit_char(d as int)]);
        }
        "3"
    } else if d == 4 {
        proof {
            reveal_strlit("4");
            assert("4"@ =~= seq![digit_char(d as int)]);
        }
        "4"
    } else if d == 5 {
        proof {
            reveal_strlit("5");
            assert("5"@ =~= seq![digit_char(d as int)]);
        }
        "5"
    } else if d == 6 {
        proof {
            reveal_strlit("6");
            assert("6"@ =~= seq![digit_char(d as int)]);
        }
        "6"
    } else if d == 7 {
        proof {
            reveal_strlit("7");
            assert("7"@ =~= seq![digit_char(d as int)]);
        }
        "7"
    } else if d == 8 {
        proof {
            reveal_strlit("8");
            assert("8"@ =~= seq![digit_char(d as int)]);
        }
        "8"
    } else {
        proof {
            reveal_strlit("9");
            assert("9"@ =~= seq![digit_char(d as int)]);
        }
        "9"
    }
}

/// Appends the decimal text of `nv` to `out`.
pub fn write_nat(nv: usize, out: &mut String)
    ensures
        final(out)@ == old(out)@ + dec_str(nv as nat),
    decreases nv,
{
    if nv < 10 {
        out.append(digit_str(nv));
    } else {
        write_nat(nv / 10, out);
        out.append(digit_str(nv % 10));
        proof {
            assert(dec_str(nv as nat) == dec_str(nv as nat / 10).push(digit_char(
                (nv as nat % 10) as int,
            )));
            assert(out@ =~= old(out)@ + dec_str(nv as nat));
        }
    }
}

/// Reads a run of digits starting at `i`, folding them onto `acc`.
pub fn read_nat(s: &str, n: usize, i: usize, acc: usize) -> (r: Option<(usize, usize)>)
    requires
        n == s@.len(),
        i <= n,
    ensures
        match spec_parse_nat(s@, i as int, acc as nat) {
            Some(p) => r == Some((p.0 as usize, p.1 as usize)) && i <= p.1 <= n && p.0
                <= usize::MAX,
            None => r is None,
        },
    decreases n - i,
{
    proof {
        lemma_parse_nat_range(s@, i as int, acc as nat);
    }
    if i >= n {
        return Some((acc, i));
    }
    let c = s.get_char(i);
    let d: usize;
    if c == '0' {
        d = 0;
    } else if c == '1' {
        d = 1;
    } else if c == '2' {
        d = 2;
    } else if c == '3' {
        d = 3;
    } else if c == '4' {
        d = 4;
    } else if c == '5' {
        d = 5;
    } else if c == '6' {
        d = 6;
    } else if c == '7' {
        d = 7;
    } else if c == '8' {
        d = 8;
    } else if c == '9' {
        d = 9;
    } else {
        return Some((acc, i));
    }
    match acc.checked_mul(10) {
        Some(m) => match m.checked_add(d) {
            Some(a2) => read_nat(s, n, i + 1, a2),
            None => None,
        },
        None => None,
    }
}

} // verus!
