//! The record types the store can hold, and how each reads and writes
//! itself as one JSON object of the backing file.
//!
//! A record type describes itself three times over: a mathematical view, a
//! specification-level encoding and parse, and executable counterparts
//! proved against them.  The proof obligations at the end of the trait tie
//! the two sides together; the container layer uses them to show that a
//! saved collection reloads to the same state.

use vstd::prelude::*;
use vstd::string::StrSliceExecFns;
use vstd::string::StringExecFns;
use crate::json::escape;
use crate::json::is_ws;
use crate::json::tok;
use crate::json::tok_string;
use crate::json::lemma_tok_range;
use crate::json::lemma_tok_string_range;
use crate::json::lemma_tok_at;
use crate::json::lemma_tok_miss;
use crate::json::lemma_tok_string_at;
use crate::json::take_tok;
use crate::json::take_string;
use crate::json::write_escaped;

verus! {

/// A record type of the store: it has a mathematical view, writes itself
/// as one JSON object, and reads itself back.
pub trait Record: View + Sized {
    /// The JSON text of one record, as `enc` writes it.
    spec fn spec_enc(v: Self::V) -> Seq<char>;

    /// Reads one record beginning at `i`; the record and the position
    /// after it.
    spec fn spec_parse(s: Seq<char>, i: int) -> Option<(Self::V, int)>;

    /// Appends the JSON text of this record to `out`.
    fn enc(&self, out: &mut String)
        ensures
            final(out)@ == old(out)@ + Self::spec_enc(self@),
    ;

    /// Reads one record beginning at `i`.
    fn parse(s: &str, n: usize, i: usize) -> (r: Option<(Self, usize)>)
        requires
            n == s@.len(),
            i <= n,
        ensures
            match Self::spec_parse(s@, i as int) {
                Some(p) => r matches Some(q) && q.0@ == p.0 && q.1 == p.1,
                None => r is None,
            },
    ;

    /// A value equal to this one.  Stands in for `Clone`, whose derived
    /// form says nothing to the verifier.
    fn duplicate(&self) -> (r: Self)
        ensures
            r == *self,
    ;

    /// A parsed record ends after its start and within the text.
    proof fn lemma_parse_range(s: Seq<char>, i: int)
        requires
            0 <= i <= s.len(),
        ensures
            Self::spec_parse(s, i) matches Some(p) ==> i < p.1 <= s.len(),
    ;

    /// An encoded record is nonempty and opens with its brace.
    proof fn lemma_enc_form(v: Self::V)
        ensures
            Self::spec_enc(v).len() >= 1,
            Self::spec_enc(v)[0] == '{',
    ;

    /// Reading back an encoded record recovers it: if the text from `i`
    /// holds `spec_enc(v)`, the parse yields exactly `v` and stops at its
    /// end.
    proof fn lemma_parse_enc(v: Self::V, s: Seq<char>, i: int)
        requires
            0 <= i,
            i + Self::spec_enc(v).len() <= s.len(),
            s.subrange(i, i + Self::spec_enc(v).len()) == Self::spec_enc(v),
        ensures
            Self::spec_parse(s, i) == Some((v, i + Self::spec_enc(v).len())),
    ;
}

/// A named list of entries.
#[derive(Clone)]
pub struct List {
    /// The record's identifying key.
    pub id: String,
    /// The list's display name.
    pub name: String,
}

/// The mathematical view of a `List`.
pub ghost struct ListV {
    pub id: Seq<char>,
    pub name: Seq<char>,
}

impl View for List {
    type V = ListV;

    open spec fn view(&self) -> ListV {
        ListV { id: self.id@, name: self.name@ }
    }
}

impl Record for List {
    open spec fn spec_enc(v: ListV) -> Seq<char> {
        "{\n      \"_id\": \""@ + escape(v.id) + "\",\n      \"name\": \""@ + escape(v.name)
            + "\"\n    }"@
    }

    open spec fn spec_parse(s: Seq<char>, i: int) -> Option<(ListV, int)> {
        let a = tok(Some(i), s, "{"@);
        let b = tok(a, s, "\"_id\""@);
        let c = tok(b, s, ":"@);
        match tok_string(c, s) {
            None => None,
            Some((idv, d)) => {
                let e = tok(Some(d), s, ","@);
                let f = tok(e, s, "\"name\""@);
                let g = tok(f, s, ":"@);
                match tok_string(g, s) {
                    None => None,
                    Some((namev, h)) => match tok(Some(h), s, "}"@) {
                        None => None,
                        Some(z) => Some((ListV { id: idv, name: namev }, z)),
                    },
                }
            },
        }
    }

    fn enc(&self, out: &mut String) {
        out.append("{\n      \"_id\": \"");
        write_escaped(self.id.as_str(), out);
        out.append("\",\n      \"name\": \"");
        write_escaped(self.name.as_str(), out);
        out.append("\"\n    }");
        proof {
            assert(out@ =~= old(out)@ + Self::spec_enc(self@));
        }
    }

    fn parse(s: &str, n: usize, i: usize) -> (r: Option<(Self, usize)>) {
        let a = match take_tok(s, n, i, "{") {
            Some(x) => x,
            None => {
                return None;
            },
        };
        let b = match take_tok(s, n, a, "\"_id\"") {
            Some(x) => x,
            None => {
                return None;
            },
        };
        let c = match take_tok(s, n, b, ":") {
            Some(x) => x,
            None => {
                return None;
            },
        };
        let (idv, d) = match take_string(s, n, c) {
            Some(x) => x,
            None => {
                return None;
            },
        };
        let e = match take_tok(s, n, d, ",") {
            Some(x) => x,
            None => {
                return None;
            },
        };
        let f = match take_tok(s, n, e, "\"name\"") {
            Some(x) => x,
            None => {
                return None;
            },
        };
        let g = match take_tok(s, n, f, ":") {
            Some(x) => x,
            None => {
                return None;
            },
        };
        let (namev, h) = match take_string(s, n, g) {
            Some(x) => x,
            None => {
                return None;
            },
        };
        let z = match take_tok(s, n, h, "}") {
            Some(x) => x,
            None => {
                return None;
            },
        };
        Some((List { id: idv, name: namev }, z))
    }

    fn duplicate(&self) -> (r: Self) {
        List { id: self.id.clone(), name: self.name.clone() }
    }

    proof fn lemma_parse_range(s: Seq<char>, i: int) {
        reveal_strlit("{");
        reveal_strlit("\"_id\"");
        reveal_strlit(":");
        reveal_strlit(",");
        reveal_strlit("\"name\"");
        reveal_strlit("}");
        lemma_tok_range(s, i, "{"@);
        if let Some(a) = tok(Some(i), s, "{"@) {
            lemma_tok_range(s, a, "\"_id\""@);
            if let Some(b) = tok(Some(a), s, "\"_id\""@) {
                lemma_tok_range(s, b, ":"@);
                if let Some(c) = tok(Some(b), s, ":"@) {
                    lemma_tok_string_range(s, c);
                    if let Some((idv, d)) = tok_string(Some(c), s) {
                        lemma_tok_range(s, d, ","@);
                        if let Some(e) = tok(Some(d), s, ","@) {
                            lemma_tok_range(s, e, "\"name\""@);
                            if let Some(f) = tok(Some(e), s, "\"name\""@) {
                                lemma_tok_range(s, f, ":"@);
                                if let Some(g) = tok(Some(f), s, ":"@) {
                                    lemma_tok_string_range(s, g);
                                    if let Some((namev, h)) = tok_string(Some(g), s) {
                                        lemma_tok_range(s, h, "}"@);
                                    }
                                }
                            }
                        }
                    }
                }
            }
        }
    }

    proof fn lemma_enc_form(v: ListV) {
        reveal_strlit("{\n      \"_id\": \"");
        let e1 = "{\n      \"_id\": \""@;
        assert(Self::spec_enc(v)[0] == e1[0]);
    }

    proof fn lemma_parse_enc(v: ListV, s: Seq<char>, i: int) {
        reveal_strlit("{\n      \"_id\": \"");
        reveal_strlit("\",\n      \"name\": \"");
        reveal_strlit("\"\n    }");
        reveal_strlit("{");
        reveal_strlit("\"_id\"");
        reveal_strlit(":");
        reveal_strlit(",");
        reveal_strlit("\"name\"");
        reveal_strlit("}");
        let e1 = "{\n      \"_id\": \""@;
        let e2 = "\",\n      \"name\": \""@;
        let e3 = "\"\n    }"@;
        let x1 = escape(v.id);
        let x2 = escape(v.name);
        let el1 = x1.len() as int;
        let el2 = x2.len() as int;
        let whole = Self::spec_enc(v);
        assert(e1.len() == 16);
        assert(e2.len() == 18);
        assert(e3.len() == 7);
        assert(whole.len() == 41 + el1 + el2);
        assert forall|k: int| 0 <= k < 41 + el1 + el2 implies s[i + k] == #[trigger] whole[k] by {
            assert(s.subrange(i, i + whole.len())[k] == s[i + k]);
        }
        assert forall|k: int| 0 <= k < 16 implies s[i + k] == #[trigger] e1[k] by {
            assert(whole[k] == e1[k]);
        }
        assert forall|k: int| 0 <= k < el1 implies s[i + 16 + k] == #[trigger] x1[k] by {
            assert(whole[16 + k] == x1[k]);
        }
        assert forall|k: int| 0 <= k < 18 implies s[i + 16 + el1 + k] == #[trigger] e2[k] by {
            assert(whole[16 + el1 + k] == e2[k]);
        }
        assert forall|k: int| 0 <= k < el2 implies s[i + 34 + el1 + k] == #[trigger] x2[k] by {
            assert(whole[34 + el1 + k] == x2[k]);
        }
        assert forall|k: int| 0 <= k < 7 implies s[i + 34 + el1 + el2 + k] == #[trigger] e3[k] by {
            assert(whole[34 + el1 + el2 + k] == e3[k]);
        }
        // "{" at the start
        assert(s.subrange(i, i + 1) =~= "{"@) by {
            assert(s[i] == e1[0]);
        }
        lemma_tok_at(s, i, 0, "{"@);
        // "\"_id\"" after a newline and six spaces
        assert forall|k: int| i + 1 <= k < i + 8 implies is_ws(#[trigger] s[k]) by {
            assert(s[k] == e1[k - i]);
        }
        assert(s.subrange(i + 8, i + 13) =~= "\"_id\""@) by {
            assert forall|t: int| 0 <= t < 5 implies s.subrange(i + 8, i + 13)[t] == "\"_id\""@[t]
                by {
                assert(s[i + 8 + t] == e1[8 + t]);
            }
        }
        lemma_tok_at(s, i + 1, 7, "\"_id\""@);
        // ":" directly after the key
        assert(s.subrange(i + 13, i + 14) =~= ":"@) by {
            assert(s[i + 13] == e1[13]);
        }
        lemma_tok_at(s, i + 13, 0, ":"@);
        // the id string after one space
        assert(s[i + 14] == e1[14]);
        assert(s[i + 15] == e1[15]);
        assert(s.subrange(i + 16, i + 16 + el1) =~= x1) by {
            assert forall|t: int| 0 <= t < el1 implies s.subrange(i + 16, i + 16 + el1)[t] == x1[t]
                by {
                assert(s[i + 16 + t] == x1[t]);
            }
        }
        assert(s[i + 16 + el1] == e2[0]);
        lemma_tok_string_at(s, i + 14, 1, v.id);
        let d = i + 17 + el1;
        // "," directly after the closing quote
        assert(s.subrange(d, d + 1) =~= ","@) by {
            assert(s[d] == e2[1]);
        }
        lemma_tok_at(s, d, 0, ","@);
        // "\"name\"" after a newline and six spaces
        assert forall|k: int| d + 1 <= k < d + 8 implies is_ws(#[trigger] s[k]) by {
            assert(s[k] == e2[k - i - 16 - el1]);
        }
        assert(s.subrange(d + 8, d + 14) =~= "\"name\""@) by {
            assert forall|t: int| 0 <= t < 6 implies s.subrange(d + 8, d + 14)[t] == "\"name\""@[t]
                by {
                assert(s[d + 8 + t] == e2[9 + t]);
            }
        }
        lemma_tok_at(s, d + 1, 7, "\"name\""@);
        // ":" directly after the key
        assert(s.subrange(d + 14, d + 15) =~= ":"@) by {
            assert(s[d + 14] == e2[15]);
        }
        lemma_tok_at(s, d + 14, 0, ":"@);
        // the name string after one space
        assert(s[d + 15] == e2[16]);
        assert(s[d + 16] == e2[17]);
        assert(s.subrange(i + 34 + el1, i + 34 + el1 + el2) =~= x2) by {
            assert forall|t: int| 0 <= t < el2 implies s.subrange(
                i + 34 + el1,
                i + 34 + el1 + el2,
            )[t] == x2[t] by {
                assert(s[i + 34 + el1 + t] == x2[t]);
            }
        }
        assert(s[i + 34 + el1 + el2] == e3[0]);
        lemma_tok_string_at(s, d + 15, 1, v.name);
        let h = d + 18 + el2;
        // "}" after a newline and four spaces
        assert forall|k: int| h <= k < h + 5 implies is_ws(#[trigger] s[k]) by {
            assert(s[k] == e3[k - i - 34 - el1 - el2]);
        }
        assert(s.subrange(h + 5, h + 6) =~= "}"@) by {
            assert(s[h + 5] == e3[6]);
        }
        lemma_tok_at(s, h, 5, "}"@);
        assert(Self::spec_parse(s, i) == Some((ListV { id: v.id, name: v.name }, h + 6)));
        assert(ListV { id: v.id, name: v.name } == v);
    }
}

/// One entry of a list, carrying the key of the list it belongs to.
#[derive(Clone)]
pub struct Entry {
    /// The record's identifying key.
    pub id: String,
    /// The key of the list this entry belongs to.
    pub list_id: String,
    /// The entry's display name.
    pub name: String,
    /// Whether the entry is checked off.
    pub done: bool,
}

/// The mathematical view of an `Entry`.
pub ghost struct EntryV {
    pub id: Seq<char>,
    pub list_id: Seq<char>,
    pub name: Seq<char>,
    pub done: bool,
}

impl View for Entry {
    type V = EntryV;

    open spec fn view(&self) -> EntryV {
        EntryV { id: self.id@, list_id: self.list_id@, name: self.name@, done: self.done }
    }
}

impl Record for Entry {
    open spec fn spec_enc(v: EntryV) -> Seq<char> {
        "{\n      \"_id\": \""@ + escape(v.id) + "\",\n      \"listId\": \""@ + escape(v.list_id)
            + "\",\n      \"name\": \""@ + escape(v.name) + "\",\n      \"done\": "@ + (if v.done {
            "true"@
        } else {
            "false"@
        }) + "\n    }"@
    }

    open spec fn spec_parse(s: Seq<char>, i: int) -> Option<(EntryV, int)> {
        let a = tok(Some(i), s, "{"@);
        let b = tok(a, s, "\"_id\""@);
        let c = tok(b, s, ":"@);
        match tok_string(c, s) {
            None => None,
            Some((idv, d)) => {
                let e = tok(Some(d), s, ","@);
                let f = tok(e, s, "\"listId\""@);
                let g = tok(f, s, ":"@);
                match tok_string(g, s) {
                    None => None,
                    Some((lidv, h)) => {
                        let e2 = tok(Some(h), s, ","@);
                        let f2 = tok(e2, s, "\"name\""@);
                        let g2 = tok(f2, s, ":"@);
                        match tok_string(g2, s) {
                            None => None,
                            Some((namev, h2)) => {
                                let c2 = tok(Some(h2), s, ","@);
                                let k1 = tok(c2, s, "\"done\""@);
                                match tok(k1, s, ":"@) {
                                    None => None,
                                    Some(p0) => match tok(Some(p0), s, "true"@) {
                                        Some(z1) => match tok(Some(z1), s, "}"@) {
                                            None => None,
                                            Some(z) => Some(
                                                (
                                                    EntryV {
                                                        id: idv,
                                                        list_id: lidv,
                                                        name: namev,
                                                        done: true,
                                                    },
                                                    z,
                                                ),
                                            ),
                                        },
                                        None => match tok(Some(p0), s, "false"@) {
                                            None => None,
                                            Some(z2) => match tok(Some(z2), s, "}"@) {
                                                None => None,
                                                Some(z) => Some(
                                                    (
                                                        EntryV {
                                                            id: idv,
                                                            list_id: lidv,
                                                            name: namev,
                                                            done: false,
                                                        },
                                                        z,
                                                    ),
                                                ),
                                            },
                                        },
                                    },
                                }
                            },
                        }
                    },
                }
            },
        }
    }

    fn enc(&self, out: &mut String) {
        out.append("{\n      \"_id\": \"");
        write_escaped(self.id.as_str(), out);
        out.append("\",\n      \"listId\": \"");
        write_escaped(self.list_id.as_str(), out);
        out.append("\",\n      \"name\": \"");
        write_escaped(self.name.as_str(), out);
        out.append("\",\n      \"done\": ");
        if self.done {
            out.append("true");
        } else {
            out.append("false");
        }
        out.append("\n    }");
        proof {
            assert(out@ =~= old(out)@ + Self::spec_enc(self@));
        }
    }

    #[verifier::rlimit(100)]
    #[verifier::spinoff_prover]
    fn parse(s: &str, n: usize, i: usize) -> (r: Option<(Self, usize)>) {
        let a = match take_tok(s, n, i, "{") {
            Some(x) => x,
            None => {
                return None;
            },
        };
        let b = match take_tok(s, n, a, "\"_id\"") {
            Some(x) => x,
            None => {
                return None;
            },
        };
        let c = match take_tok(s, n, b, ":") {
            Some(x) => x,
            None => {
                return None;
            },
        };
        let (idv, d) = match take_string(s, n, c) {
            Some(x) => x,
            None => {
                return None;
            },
        };
        let e = match take_tok(s, n, d, ",") {
            Some(x) => x,
            None => {
                return None;
            },
        };
        let f = match take_tok(s, n, e, "\"listId\"") {
            Some(x) => x,
            None => {
                return None;
            },
        };
        let g = match take_tok(s, n, f, ":") {
            Some(x) => x,
            None => {
                return None;
            },
        };
        let (lidv, h) = match take_string(s, n, g) {
            Some(x) => x,
            None => {
                return None;
            },
        };
        let e2 = match take_tok(s, n, h, ",") {
            Some(x) => x,
            None => {
                return None;
            },
        };
        let f2 = match take_tok(s, n, e2, "\"name\"") {
            Some(x) => x,
            None => {
                return None;
            },
        };
        let g2 = match take_tok(s, n, f2, ":") {
            Some(x) => x,
            None => {
                return None;
            },
        };
        let (namev, h2) = match take_string(s, n, g2) {
            Some(x) => x,
            None => {
                return None;
            },
        };
        let c2 = match take_tok(s, n, h2, ",") {
            Some(x) => x,
            None => {
                return None;
            },
        };
        let k1 = match take_tok(s, n, c2, "\"done\"") {
            Some(x) => x,
            None => {
                return None;
            },
        };
        let p0 = match take_tok(s, n, k1, ":") {
            Some(x) => x,
            None => {
                return None;
            },
        };
        match take_tok(s, n, p0, "true") {
            Some(z1) => {
                match take_tok(s, n, z1, "}") {
                    Some(z) => Some(
                        (Entry { id: idv, list_id: lidv, name: namev, done: true }, z),
                    ),
                    None => None,
                }
            },
            None => {
                match take_tok(s, n, p0, "false") {
                    Some(z2) => {
                        match take_tok(s, n, z2, "}") {
                            Some(z) => Some(
                                (Entry { id: idv, list_id: lidv, name: namev, done: false }, z),
                            ),
                            None => None,
                        }
                    },
                    None => None,
                }
            },
        }
    }

    fn duplicate(&self) -> (r: Self) {
        Entry {
            id: self.id.clone(),
            list_id: self.list_id.clone(),
            name: self.name.clone(),
            done: self.done,
        }
    }

    proof fn lemma_parse_range(s: Seq<char>, i: int) {
        reveal_strlit("{");
        reveal_strlit("\"_id\"");
        reveal_strlit(":");
        reveal_strlit(",");
        reveal_strlit("\"listId\"");
        reveal_strlit("\"name\"");
        reveal_strlit("\"done\"");
        reveal_strlit("true");
        reveal_strlit("false");
        reveal_strlit("}");
        lemma_tok_range(s, i, "{"@);
        if let Some(a) = tok(Some(i), s, "{"@) {
            lemma_tok_range(s, a, "\"_id\""@);
            if let Some(b) = tok(Some(a), s, "\"_id\""@) {
                lemma_tok_range(s, b, ":"@);
                if let Some(c) = tok(Some(b), s, ":"@) {
                    lemma_tok_string_range(s, c);
                    if let Some((idv, d)) = tok_string(Some(c), s) {
                        lemma_tok_range(s, d, ","@);
                        if let Some(e) = tok(Some(d), s, ","@) {
                            lemma_tok_range(s, e, "\"listId\""@);
                            if let Some(f) = tok(Some(e), s, "\"listId\""@) {
                                lemma_tok_range(s, f, ":"@);
                                if let Some(g) = tok(Some(f), s, ":"@) {
                                    lemma_tok_string_range(s, g);
                                    if let Some((lidv, h)) = tok_string(Some(g), s) {
                                        Self::lemma_parse_range_tail(s, h);
                                    }
                                }
                            }
                        }
                    }
                }
            }
        }
    }

    proof fn lemma_enc_form(v: EntryV) {
        reveal_strlit("{\n      \"_id\": \"");
        let e1 = "{\n      \"_id\": \""@;
        assert(Self::spec_enc(v)[0] == e1[0]);
    }

    #[verifier::rlimit(100)]
    #[verifier::spinoff_prover]
    proof fn lemma_parse_enc(v: EntryV, s: Seq<char>, i: int) {
        reveal_strlit("{\n      \"_id\": \"");
        reveal_strlit("\",\n      \"listId\": \"");
        reveal_strlit("\",\n      \"name\": \"");
        reveal_strlit("\",\n      \"done\": ");
        reveal_strlit("\n    }");
        reveal_strlit("{");
        reveal_strlit("\"_id\"");
        reveal_strlit(":");
        reveal_strlit(",");
        reveal_strlit("\"listId\"");
        reveal_strlit("\"name\"");
        reveal_strlit("\"done\"");
        reveal_strlit("true");
        reveal_strlit("false");
        reveal_strlit("}");
        let e1 = "{\n      \"_id\": \""@;
        let e2 = "\",\n      \"listId\": \""@;
        let e3 = "\",\n      \"name\": \""@;
        let e4 = "\",\n      \"done\": "@;
        let e5 = "\n    }"@;
        let bt = if v.done {
            "true"@
        } else {
            "false"@
        };
        let x1 = escape(v.id);
        let x2 = escape(v.list_id);
        let x3 = escape(v.name);
        let el1 = x1.len() as int;
        let el2 = x2.len() as int;
        let el3 = x3.len() as int;
        let bl = bt.len() as int;
        let whole = Self::spec_enc(v);
        assert(e1.len() == 16);
        assert(e2.len() == 20);
        assert(e3.len() == 18);
        assert(e4.len() == 17);
        assert(e5.len() == 6);
        assert(whole.len() == 77 + el1 + el2 + el3 + bl);
        assert forall|k: int| 0 <= k < 77 + el1 + el2 + el3 + bl implies s[i + k] == #[trigger]
            whole[k] by {
            assert(s.subrange(i, i + whole.len())[k] == s[i + k]);
        }
        assert forall|k: int| 0 <= k < 16 implies s[i + k] == #[trigger] e1[k] by {
            assert(whole[k] == e1[k]);
        }
        assert forall|k: int| 0 <= k < el1 implies s[i + 16 + k] == #[trigger] x1[k] by {
            assert(whole[16 + k] == x1[k]);
        }
        assert forall|k: int| 0 <= k < 20 implies s[i + 16 + el1 + k] == #[trigger] e2[k] by {
            assert(whole[16 + el1 + k] == e2[k]);
        }
        assert forall|k: int| 0 <= k < el2 implies s[i + 36 + el1 + k] == #[trigger] x2[k] by {
            assert(whole[36 + el1 + k] == x2[k]);
        }
        assert forall|k: int| 0 <= k < 18 implies s[i + 36 + el1 + el2 + k] == #[trigger] e3[k] by {
            assert(whole[36 + el1 + el2 + k] == e3[k]);
        }
        assert forall|k: int| 0 <= k < el3 implies s[i + 54 + el1 + el2 + k] == #[trigger] x3[k] by {
            assert(whole[54 + el1 + el2 + k] == x3[k]);
        }
        assert forall|k: int| 0 <= k < 17 implies s[i + 54 + el1 + el2 + el3 + k] == #[trigger]
            e4[k] by {
            assert(whole[54 + el1 + el2 + el3 + k] == e4[k]);
        }
        assert forall|k: int| 0 <= k < bl implies s[i + 71 + el1 + el2 + el3 + k] == #[trigger]
            bt[k] by {
            assert(whole[71 + el1 + el2 + el3 + k] == bt[k]);
        }
        assert forall|k: int| 0 <= k < 6 implies s[i + 71 + el1 + el2 + el3 + bl + k] == #[trigger]
            e5[k] by {
            assert(whole[71 + el1 + el2 + el3 + bl + k] == e5[k]);
        }
        // "{" at the start
        assert(s.subrange(i, i + 1) =~= "{"@) by {
            assert(s[i] == e1[0]);
        }
        lemma_tok_at(s, i, 0, "{"@);
        // "\"_id\"" after a newline and six spaces
        assert forall|k: int| i + 1 <= k < i + 8 implies is_ws(#[trigger] s[k]) by {
            assert(s[k] == e1[k - i]);
        }
        assert(s.subrange(i + 8, i + 13) =~= "\"_id\""@) by {
            assert forall|t: int| 0 <= t < 5 implies s.subrange(i + 8, i + 13)[t] == "\"_id\""@[t]
                by {
                assert(s[i + 8 + t] == e1[8 + t]);
            }
        }
        lemma_tok_at(s, i + 1, 7, "\"_id\""@);
        // ":" directly after the key
        assert(s.subrange(i + 13, i + 14) =~= ":"@) by {
            assert(s[i + 13] == e1[13]);
        }
        lemma_tok_at(s, i + 13, 0, ":"@);
        // the id string after one space
        assert(s[i + 14] == e1[14]);
        assert(s[i + 15] == e1[15]);
        assert(s.subrange(i + 16, i + 16 + el1) =~= x1) by {
            assert forall|t: int| 0 <= t < el1 implies s.subrange(i + 16, i + 16 + el1)[t] == x1[t]
                by {
                assert(s[i + 16 + t] == x1[t]);
            }
        }
        assert(s[i + 16 + el1] == e2[0]);
        lemma_tok_string_at(s, i + 14, 1, v.id);
        let d = i + 17 + el1;
        // "," directly after the closing quote
        assert(s.subrange(d, d + 1) =~= ","@) by {
            assert(s[d] == e2[1]);
        }
        lemma_tok_at(s, d, 0, ","@);
        // "\"listId\"" after a newline and six spaces
        assert forall|k: int| d + 1 <= k < d + 8 implies is_ws(#[trigger] s[k]) by {
            assert(s[k] == e2[k - i - 16 - el1]);
        }
        assert(s.subrange(d + 8, d + 16) =~= "\"listId\""@) by {
            assert forall|t: int| 0 <= t < 8 implies s.subrange(d + 8, d + 16)[t]
                == "\"listId\""@[t] by {
                assert(s[d + 8 + t] == e2[9 + t]);
            }
        }
        lemma_tok_at(s, d + 1, 7, "\"listId\""@);
        // ":" directly after the key
        assert(s.subrange(d + 16, d + 17) =~= ":"@) by {
            assert(s[d + 16] == e2[17]);
        }
        lemma_tok_at(s, d + 16, 0, ":"@);
        // the list key string after one space
        assert(s[d + 17] == e2[18]);
        assert(s[d + 18] == e2[19]);
        assert(s.subrange(i + 36 + el1, i + 36 + el1 + el2) =~= x2) by {
            assert forall|t: int| 0 <= t < el2 implies s.subrange(
                i + 36 + el1,
                i + 36 + el1 + el2,
            )[t] == x2[t] by {
                assert(s[i + 36 + el1 + t] == x2[t]);
            }
        }
        assert(s[i + 36 + el1 + el2] == e3[0]);
        lemma_tok_string_at(s, d + 17, 1, v.list_id);
        let h = i + 37 + el1 + el2;
        // "," directly after the closing quote
        assert(s.subrange(h, h + 1) =~= ","@) by {
            assert(s[h] == e3[1]);
        }
        lemma_tok_at(s, h, 0, ","@);
        // "\"name\"" after a newline and six spaces
        assert forall|k: int| h + 1 <= k < h + 8 implies is_ws(#[trigger] s[k]) by {
            assert(s[k] == e3[k - i - 36 - el1 - el2]);
        }
        assert(s.subrange(h + 8, h + 14) =~= "\"name\""@) by {
            assert forall|t: int| 0 <= t < 6 implies s.subrange(h + 8, h + 14)[t] == "\"name\""@[t]
                by {
                assert(s[h + 8 + t] == e3[9 + t]);
            }
        }
        lemma_tok_at(s, h + 1, 7, "\"name\""@);
        // ":" directly after the key
        assert(s.subrange(h + 14, h + 15) =~= ":"@) by {
            assert(s[h + 14] == e3[15]);
        }
        lemma_tok_at(s, h + 14, 0, ":"@);
        // the name string after one space
        assert(s[h + 15] == e3[16]);
        assert(s[h + 16] == e3[17]);
        assert(s.subrange(i + 54 + el1 + el2, i + 54 + el1 + el2 + el3) =~= x3) by {
            assert forall|t: int| 0 <= t < el3 implies s.subrange(
                i + 54 + el1 + el2,
                i + 54 + el1 + el2 + el3,
            )[t] == x3[t] by {
                assert(s[i + 54 + el1 + el2 + t] == x3[t]);
            }
        }
        assert(s[i + 54 + el1 + el2 + el3] == e4[0]);
        lemma_tok_string_at(s, h + 15, 1, v.name);
        let h2 = i + 55 + el1 + el2 + el3;
        // "," directly after the closing quote
        assert(s.subrange(h2, h2 + 1) =~= ","@) by {
            assert(s[h2] == e4[1]);
        }
        lemma_tok_at(s, h2, 0, ","@);
        // "\"done\"" after a newline and six spaces
        assert forall|k: int| h2 + 1 <= k < h2 + 8 implies is_ws(#[trigger] s[k]) by {
            assert(s[k] == e4[k - i - 54 - el1 - el2 - el3]);
        }
        assert(s.subrange(h2 + 8, h2 + 14) =~= "\"done\""@) by {
            assert forall|t: int| 0 <= t < 6 implies s.subrange(h2 + 8, h2 + 14)[t]
                == "\"done\""@[t] by {
                assert(s[h2 + 8 + t] == e4[9 + t]);
            }
        }
        lemma_tok_at(s, h2 + 1, 7, "\"done\""@);
        // ":" directly after the key
        assert(s.subrange(h2 + 14, h2 + 15) =~= ":"@) by {
            assert(s[h2 + 14] == e4[15]);
        }
        lemma_tok_at(s, h2 + 14, 0, ":"@);
        // the boolean after one space
        let p0 = h2 + 15;
        assert(s[p0] == e4[16]);
        assert(s.subrange(p0 + 1, p0 + 1 + bl) =~= bt) by {
            assert forall|t: int| 0 <= t < bl implies s.subrange(p0 + 1, p0 + 1 + bl)[t] == bt[t]
                by {
                assert(s[i + 71 + el1 + el2 + el3 + t] == bt[t]);
            }
        }
        if v.done {
            lemma_tok_at(s, p0, 1, "true"@);
        } else {
            assert(s[p0 + 1] == bt[0]);
            lemma_tok_miss(s, p0, 1, "true"@);
            lemma_tok_at(s, p0, 1, "false"@);
        }
        let h3 = p0 + 1 + bl;
        // "}" after a newline and four spaces
        assert forall|k: int| h3 <= k < h3 + 5 implies is_ws(#[trigger] s[k]) by {
            assert(s[k] == e5[k - i - 71 - el1 - el2 - el3 - bl]);
        }
        assert(s.subrange(h3 + 5, h3 + 6) =~= "}"@) by {
            assert(s[h3 + 5] == e5[5]);
        }
        lemma_tok_at(s, h3, 5, "}"@);
        assert(Self::spec_parse(s, i) == Some(
            (EntryV { id: v.id, list_id: v.list_id, name: v.name, done: v.done }, h3 + 6),
        ));
        assert(EntryV { id: v.id, list_id: v.list_id, name: v.name, done: v.done } == v);
    }
}

impl Entry {
    /// The tail of `lemma_parse_range`: positions from the name block on.
    proof fn lemma_parse_range_tail(s: Seq<char>, h: int)
        requires
            0 <= h <= s.len(),
        ensures
            ({
                let e2 = tok(Some(h), s, ","@);
                let f2 = tok(e2, s, "\"name\""@);
                let g2 = tok(f2, s, ":"@);
                match tok_string(g2, s) {
                    None => true,
                    Some((namev, h2)) => {
                        let c2 = tok(Some(h2), s, ","@);
                        let k1 = tok(c2, s, "\"done\""@);
                        match tok(k1, s, ":"@) {
                            None => true,
                            Some(p0) => ({
                                &&& (tok(Some(p0), s, "true"@) matches Some(z1) ==> h < z1
                                    <= s.len() && (tok(Some(z1), s, "}"@) matches Some(z) ==> h < z
                                    <= s.len()))
                                &&& (tok(Some(p0), s, "false"@) matches Some(z2) ==> h < z2
                                    <= s.len() && (tok(Some(z2), s, "}"@) matches Some(z) ==> h < z
                                    <= s.len()))
                            }),
                        }
                    },
                }
            }),
    {
        reveal_strlit(",");
        reveal_strlit("\"name\"");
        reveal_strlit("\"done\"");
        reveal_strlit(":");
        reveal_strlit("true");
        reveal_strlit("false");
        reveal_strlit("}");
        lemma_tok_range(s, h, ","@);
        if let Some(e2) = tok(Some(h), s, ","@) {
            lemma_tok_range(s, e2, "\"name\""@);
            if let Some(f2) = tok(Some(e2), s, "\"name\""@) {
                lemma_tok_range(s, f2, ":"@);
                if let Some(g2) = tok(Some(f2), s, ":"@) {
                    lemma_tok_string_range(s, g2);
                    if let Some((namev, h2)) = tok_string(Some(g2), s) {
                        lemma_tok_range(s, h2, ","@);
                        if let Some(c2) = tok(Some(h2), s, ","@) {
                            lemma_tok_range(s, c2, "\"done\""@);
                            if let Some(k1) = tok(Some(c2), s, "\"done\""@) {
                                lemma_tok_range(s, k1, ":"@);
                                if let Some(p0) = tok(Some(k1), s, ":"@) {
                                    lemma_tok_range(s, p0, "true"@);
                                    lemma_tok_range(s, p0, "false"@);
                                    if let Some(z1) = tok(Some(p0), s, "true"@) {
                                        lemma_tok_range(s, z1, "}"@);
                                    }
                                    if let Some(z2) = tok(Some(p0), s, "false"@) {
                                        lemma_tok_range(s, z2, "}"@);
                                    }
                                }
                            }
                        }
                    }
                }
            }
        }
    }
}

} // verus!
