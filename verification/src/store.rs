//! The persistent collection: an in-memory sequence of records mirrored to
//! one JSON file, with the container codec that writes and reads that file.
//!
//! The on-disk shape is one object `{"count": N, "data": [records]}`.  The
//! `count` field is recomputed from the live sequence before every save and
//! never trusted on load.  Saving and reloading a container is proved to
//! reproduce it exactly (`lemma_container_round_trip`).

use vstd::prelude::*;
use vstd::string::StrSliceExecFns;
use vstd::string::StringExecFns;
use crate::json::dec_str;
use crate::json::is_digit;
use crate::json::is_ws;
use crate::json::lemma_read_dec;
use crate::json::lemma_skip_ws_run;
use crate::json::lemma_tok_at;
use crate::json::lemma_tok_miss;
use crate::json::lemma_tok_range;
use crate::json::pow10;
use crate::json::read_nat;
use crate::json::skip_ws;
use crate::json::spec_parse_nat;
use crate::json::spec_skip_ws;
use crate::json::take_tok;
use crate::json::tok;
use crate::json::write_nat;
use crate::errors::StoreError;
use crate::query::holds_fn;
use crate::query::not_holds_fn;
use crate::query::Matcher;
use crate::query::Mutator;
use crate::records::Record;

verus! {

/// The views of a sequence of records.
pub open spec fn views_of<T: View>(v: Seq<T>) -> Seq<T::V> {
    v.map_values(|t: T| t@)
}

/// The text of every record after the first, each preceded by a comma and
/// the element indent.
pub open spec fn spec_enc_tail<T: Record>(rs: Seq<T::V>) -> Seq<char>
    decreases rs.len(),
{
    if rs.len() == 0 {
        Seq::empty()
    } else {
        ",\n    "@ + T::spec_enc(rs[0]) + spec_enc_tail::<T>(rs.skip(1))
    }
}

/// The text of the data array after its opening bracket.
pub open spec fn spec_enc_data_inner<T: Record>(rs: Seq<T::V>) -> Seq<char> {
    if rs.len() == 0 {
        "]"@
    } else {
        "\n    "@ + T::spec_enc(rs[0]) + spec_enc_tail::<T>(rs.skip(1)) + "\n  ]"@
    }
}

/// The full text of a backing file holding `count` and the records `rs`.
pub open spec fn spec_enc_container<T: Record>(count: nat, rs: Seq<T::V>) -> Seq<char> {
    "{\n  \"count\": "@ + dec_str(count) + ",\n  \"data\": "@ + ("["@ + spec_enc_data_inner::<T>(
        rs,
    )) + "\n}"@
}

/// Encoding one more record appends one more separated element.
pub proof fn lemma_enc_tail_snoc<T: Record>(rs: Seq<T::V>, v: T::V)
    ensures
        spec_enc_tail::<T>(rs.push(v)) == spec_enc_tail::<T>(rs) + ",\n    "@ + T::spec_enc(v),
    decreases rs.len(),
{
    if rs.len() == 0 {
        assert(rs.push(v)[0] == v);
        assert(rs.push(v).skip(1) =~= Seq::<T::V>::empty());
        assert(spec_enc_tail::<T>(rs.push(v)) == ",\n    "@ + T::spec_enc(v) + spec_enc_tail::<
            T,
        >(Seq::empty()));
        assert(spec_enc_tail::<T>(rs.push(v)) =~= spec_enc_tail::<T>(rs) + ",\n    "@
            + T::spec_enc(v));
    } else {
        assert(rs.push(v)[0] == rs[0]);
        assert(rs.push(v).skip(1) =~= rs.skip(1).push(v));
        lemma_enc_tail_snoc::<T>(rs.skip(1), v);
        assert(spec_enc_tail::<T>(rs.push(v)) == ",\n    "@ + T::spec_enc(rs[0]) + spec_enc_tail::<
            T,
        >(rs.skip(1).push(v)));
        assert(spec_enc_tail::<T>(rs.push(v)) =~= spec_enc_tail::<T>(rs) + ",\n    "@
            + T::spec_enc(v));
    }
}

/// Reads the elements of the data array: either a closing bracket, or
/// (after a separating comma, except for the first element) one record,
/// then the rest.
pub open spec fn spec_parse_records<T: Record>(s: Seq<char>, i: int, first: bool) -> Option<
    (Seq<T::V>, int),
>
    decreases s.len() - i,
{
    match tok(Some(i), s, "]"@) {
        Some(j) => Some((Seq::empty(), j)),
        None => {
            let st = if first {
                Some(i)
            } else {
                tok(Some(i), s, ","@)
            };
            match st {
                None => None,
                Some(p) => {
                    let p2 = spec_skip_ws(s, p);
                    match T::spec_parse(s, p2) {
                        None => None,
                        Some((v, j)) => if i < j <= s.len() {
                            match spec_parse_records::<T>(s, j, false) {
                                None => None,
                                Some((vs, z)) => Some((seq![v] + vs, z)),
                            }
                        } else {
                            None
                        },
                    }
                },
            }
        },
    }
}

/// A parsed data array ends after its start and within the text.
pub proof fn lemma_parse_records_range<T: Record>(s: Seq<char>, i: int, first: bool)
    requires
        0 <= i <= s.len(),
    ensures
        spec_parse_records::<T>(s, i, first) matches Some(p) ==> i < p.1 <= s.len(),
    decreases s.len() - i,
{
    reveal_strlit("]");
    reveal_strlit(",");
    lemma_tok_range(s, i, "]"@);
    if tok(Some(i), s, "]"@) is None {
        lemma_tok_range(s, i, ","@);
        let st = if first {
            Some(i)
        } else {
            tok(Some(i), s, ","@)
        };
        if let Some(p) = st {
            let p2 = spec_skip_ws(s, p);
            if let Some((v, j)) = T::spec_parse(s, p2) {
                if i < j <= s.len() {
                    lemma_parse_records_range::<T>(s, j, false);
                }
            }
        }
    }
}

/// Reads the whole text of a backing file: the count, the data array, and
/// nothing but trailing whitespace after the closing brace.
pub open spec fn spec_parse_container<T: Record>(s: Seq<char>) -> Option<(nat, Seq<T::V>)> {
    let a = tok(Some(0), s, "{"@);
    let b = tok(a, s, "\"count\""@);
    match tok(b, s, ":"@) {
        None => None,
        Some(c) => {
            let q = spec_skip_ws(s, c);
            if q < s.len() && is_digit(s[q]) {
                match spec_parse_nat(s, q, 0) {
                    None => None,
                    Some((cnt, r1)) => {
                        let t1 = tok(Some(r1), s, ","@);
                        let t2 = tok(t1, s, "\"data\""@);
                        let t3 = tok(t2, s, ":"@);
                        match tok(t3, s, "["@) {
                            None => None,
                            Some(u) => match spec_parse_records::<T>(s, u, true) {
                                None => None,
                                Some((vs, w)) => match tok(Some(w), s, "}"@) {
                                    None => None,
                                    Some(z) => if spec_skip_ws(s, z) == s.len() {
                                        Some((cnt, vs))
                                    } else {
                                        None
                                    },
                                },
                            },
                        }
                    },
                }
            } else {
                None
            }
        },
    }
}

/// Appends the full backing-file text for `count` and `data` to `out`.
pub fn write_container<T: Record>(count: usize, data: &Vec<T>, out: &mut String)
    ensures
        final(out)@ == old(out)@ + spec_enc_container::<T>(count as nat, views_of(data@)),
{
    let ghost rs = views_of(data@);
    out.append("{\n  \"count\": ");
    write_nat(count, out);
    out.append(",\n  \"data\": ");
    out.append("[");
    if data.len() == 0 {
        out.append("]");
    } else {
        out.append("\n    ");
        data[0].enc(out);
        proof {
            assert(data@[0]@ == rs[0]);
            assert(rs.subrange(1, 1) =~= Seq::<T::V>::empty());
            assert(out@ =~= old(out)@ + "{\n  \"count\": "@ + dec_str(count as nat)
                + ",\n  \"data\": "@ + "["@ + "\n    "@ + T::spec_enc(rs[0]) + spec_enc_tail::<T>(
                rs.subrange(1, 1),
            ));
        }
        let mut idx: usize = 1;
        while idx < data.len()
            invariant
                1 <= idx <= data@.len(),
                rs == views_of(data@),
                rs.len() == data@.len(),
                out@ == old(out)@ + "{\n  \"count\": "@ + dec_str(count as nat)
                    + ",\n  \"data\": "@ + "["@ + "\n    "@ + T::spec_enc(rs[0])
                    + spec_enc_tail::<T>(rs.subrange(1, idx as int)),
            decreases data@.len() - idx,
        {
            out.append(",\n    ");
            data[idx].enc(out);
            proof {
                assert(data@[idx as int]@ == rs[idx as int]);
                lemma_enc_tail_snoc::<T>(rs.subrange(1, idx as int), rs[idx as int]);
                assert(rs.subrange(1, idx + 1) =~= rs.subrange(1, idx as int).push(
                    rs[idx as int],
                ));
                assert(out@ =~= old(out)@ + "{\n  \"count\": "@ + dec_str(count as nat)
                    + ",\n  \"data\": "@ + "["@ + "\n    "@ + T::spec_enc(rs[0])
                    + spec_enc_tail::<T>(rs.subrange(1, idx + 1)));
            }
            idx += 1;
        }
        out.append("\n  ]");
        proof {
            assert(rs.subrange(1, rs.len() as int) =~= rs.skip(1));
        }
    }
    out.append("\n}");
    proof {
        assert(out@ =~= old(out)@ + spec_enc_container::<T>(count as nat, views_of(data@)));
    }
}

/// Reads the elements of the data array, pushing each onto `out`.
pub fn read_records<T: Record>(s: &str, n: usize, i: usize, first: bool, out: &mut Vec<T>) -> (r:
    Option<usize>)
    requires
        n == s@.len(),
        i <= n,
    ensures
        match spec_parse_records::<T>(s@, i as int, first) {
            Some(p) => r == Some(p.1 as usize) && i < p.1 <= n && views_of(final(out)@)
                == views_of(old(out)@) + p.0,
            None => r is None,
        },
    decreases n - i,
{
    proof {
        lemma_parse_records_range::<T>(s@, i as int, first);
    }
    match take_tok(s, n, i, "]") {
        Some(j) => {
            proof {
                assert(views_of(out@) + Seq::<T::V>::empty() =~= views_of(out@));
            }
            return Some(j);
        },
        None => {},
    }
    let p = if first {
        i
    } else {
        match take_tok(s, n, i, ",") {
            Some(x) => x,
            None => {
                return None;
            },
        }
    };
    let p2 = skip_ws(s, n, p);
    match T::parse(s, n, p2) {
        None => None,
        Some((rec, j)) => {
            proof {
                T::lemma_parse_range(s@, p2 as int);
            }
            let ghost old_views = views_of(out@);
            out.push(rec);
            proof {
                assert(views_of(out@) =~= old_views.push(rec@));
            }
            match read_records::<T>(s, n, j, false, out) {
                Some(z) => {
                    proof {
                        let sp = spec_parse_records::<T>(s@, j as int, false).unwrap();
                        assert(views_of(out@) =~= views_of(old(out)@) + (seq![rec@] + sp.0));
                    }
                    Some(z)
                },
                None => None,
            }
        },
    }
}

/// Whether `c` is a decimal digit.
fn is_digit_ch(c: char) -> (r: bool)
    ensures
        r == is_digit(c),
{
    c == '0' || c == '1' || c == '2' || c == '3' || c == '4' || c == '5' || c == '6' || c == '7'
        || c == '8' || c == '9'
}

/// Reads a whole backing-file text; the count as stored and the records.
pub fn read_container<T: Record>(s: &str) -> (r: Option<(usize, Vec<T>)>)
    ensures
        match spec_parse_container::<T>(s@) {
            Some(c) => r matches Some(q) && q.0 == c.0 && views_of(q.1@) == c.1,
            None => r is None,
        },
{
    let n = s.unicode_len();
    let a = match take_tok(s, n, 0, "{") {
        Some(x) => x,
        None => {
            return None;
        },
    };
    let b = match take_tok(s, n, a, "\"count\"") {
        Some(x) => x,
        None => {
            return None;
        },
    };
    let c = match take_tok(s, n, b, ":") {
        Some(x) => x,
        None => {
            return None;
        },
    };
    let q = skip_ws(s, n, c);
    if q >= n {
        return None;
    }
    if !is_digit_ch(s.get_char(q)) {
        return None;
    }
    let (cnt, r1) = match read_nat(s, n, q, 0) {
        Some(x) => x,
        None => {
            return None;
        },
    };
    let t1 = match take_tok(s, n, r1, ",") {
        Some(x) => x,
        None => {
            return None;
        },
    };
    let t2 = match take_tok(s, n, t1, "\"data\"") {
        Some(x) => x,
        None => {
            return None;
        },
    };
    let t3 = match take_tok(s, n, t2, ":") {
        Some(x) => x,
        None => {
            return None;
        },
    };
    let u = match take_tok(s, n, t3, "[") {
        Some(x) => x,
        None => {
            return None;
        },
    };
    let mut data: Vec<T> = Vec::new();
    proof {
        assert(views_of(data@) =~= Seq::<T::V>::empty());
    }
    let w = match read_records::<T>(s, n, u, true, &mut data) {
        Some(x) => x,
        None => {
            return None;
        },
    };
    let z = match take_tok(s, n, w, "}") {
        Some(x) => x,
        None => {
            return None;
        },
    };
    let z2 = skip_ws(s, n, z);
    if z2 == n {
        proof {
            let sp = spec_parse_records::<T>(s@, u as int, true).unwrap();
            assert(views_of(data@) =~= Seq::<T::V>::empty() + sp.0);
            assert(views_of(data@) =~= sp.0);
        }
        Some((cnt, data))
    } else {
        None
    }
}

/// Reading back an encoded element tail recovers it: the text from `i`
/// holds the separated elements of `rs` followed by the array close.
pub proof fn lemma_records_tail_rt<T: Record>(rs: Seq<T::V>, s: Seq<char>, i: int)
    requires
        0 <= i,
        i + spec_enc_tail::<T>(rs).len() + 4 <= s.len(),
        s.subrange(i, i + spec_enc_tail::<T>(rs).len()) == spec_enc_tail::<T>(rs),
        s.subrange(
            i + spec_enc_tail::<T>(rs).len(),
            i + spec_enc_tail::<T>(rs).len() + 4,
        ) == "\n  ]"@,
    ensures
        spec_parse_records::<T>(s, i, false) == Some((rs, i + spec_enc_tail::<T>(rs).len() + 4)),
    decreases rs.len(),
{
    reveal_strlit("]");
    reveal_strlit(",");
    reveal_strlit("\n  ]");
    reveal_strlit(",\n    ");
    let tl = spec_enc_tail::<T>(rs).len() as int;
    assert forall|k: int| 0 <= k < tl implies s[i + k] == #[trigger] spec_enc_tail::<T>(rs)[k] by {
        assert(s.subrange(i, i + tl)[k] == s[i + k]);
    }
    assert forall|k: int| 0 <= k < 4 implies s[i + tl + k] == #[trigger] "\n  ]"@[k] by {
        assert(s.subrange(i + tl, i + tl + 4)[k] == s[i + tl + k]);
    }
    if rs.len() == 0 {
        assert(tl == 0);
        assert forall|k: int| i <= k < i + 3 implies is_ws(#[trigger] s[k]) by {
            assert(s[k] == "\n  ]"@[k - i]);
        }
        assert(s[i + 3] == "\n  ]"@[3]);
        assert(s.subrange(i + 3, i + 4) =~= "]"@);
        lemma_tok_at(s, i, 3, "]"@);
        assert(rs =~= Seq::<T::V>::empty());
    } else {
        let v0 = rs[0];
        let enc0 = T::spec_enc(v0);
        let l0 = enc0.len() as int;
        let rest = rs.skip(1);
        let tl2 = spec_enc_tail::<T>(rest).len() as int;
        assert(spec_enc_tail::<T>(rs) == ",\n    "@ + enc0 + spec_enc_tail::<T>(rest));
        assert(tl == 6 + l0 + tl2);
        assert forall|k: int| 0 <= k < 6 implies s[i + k] == #[trigger] ",\n    "@[k] by {
            assert(spec_enc_tail::<T>(rs)[k] == ",\n    "@[k]);
        }
        assert forall|k: int| 0 <= k < l0 implies s[i + 6 + k] == #[trigger] enc0[k] by {
            assert(spec_enc_tail::<T>(rs)[6 + k] == enc0[k]);
        }
        assert forall|k: int| 0 <= k < tl2 implies s[i + 6 + l0 + k] == #[trigger] spec_enc_tail::<
            T,
        >(rest)[k] by {
            assert(spec_enc_tail::<T>(rs)[6 + l0 + k] == spec_enc_tail::<T>(rest)[k]);
        }
        T::lemma_enc_form(v0);
        assert(s[i] == ",\n    "@[0]);
        // the element list goes on: no close bracket here
        lemma_tok_miss(s, i, 0, "]"@);
        // the separating comma
        assert(s.subrange(i, i + 1) =~= ","@);
        lemma_tok_at(s, i, 0, ","@);
        // the element indent, then the record itself
        assert forall|k: int| i + 1 <= k < i + 6 implies is_ws(#[trigger] s[k]) by {
            assert(s[k] == ",\n    "@[k - i]);
        }
        assert(s[i + 6] == enc0[0]);
        lemma_skip_ws_run(s, i + 1, i + 6);
        assert(s.subrange(i + 6, i + 6 + l0) =~= enc0);
        T::lemma_parse_enc(v0, s, i + 6);
        // the rest of the elements
        assert(s.subrange(i + 6 + l0, i + 6 + l0 + tl2) =~= spec_enc_tail::<T>(rest)) by {
            assert forall|t: int| 0 <= t < tl2 implies s.subrange(
                i + 6 + l0,
                i + 6 + l0 + tl2,
            )[t] == spec_enc_tail::<T>(rest)[t] by {
                assert(s[i + 6 + l0 + t] == spec_enc_tail::<T>(rest)[t]);
            }
        }
        assert(s.subrange(i + 6 + l0 + tl2, i + 6 + l0 + tl2 + 4) =~= "\n  ]"@) by {
            assert forall|t: int| 0 <= t < 4 implies s.subrange(
                i + 6 + l0 + tl2,
                i + 6 + l0 + tl2 + 4,
            )[t] == "\n  ]"@[t] by {
                assert(s[i + tl + t] == "\n  ]"@[t]);
            }
        }
        lemma_records_tail_rt::<T>(rest, s, i + 6 + l0);
        assert(seq![v0] + rest =~= rs);
    }
}

/// Reading back an encoded data array recovers it: the text from `i` holds
/// what follows the opening bracket for the records `rs`.
pub proof fn lemma_records_head_rt<T: Record>(rs: Seq<T::V>, s: Seq<char>, i: int)
    requires
        0 <= i,
        i + spec_enc_data_inner::<T>(rs).len() <= s.len(),
        s.subrange(i, i + spec_enc_data_inner::<T>(rs).len()) == spec_enc_data_inner::<T>(rs),
    ensures
        spec_parse_records::<T>(s, i, true) == Some(
            (rs, i + spec_enc_data_inner::<T>(rs).len()),
        ),
{
    reveal_strlit("]");
    reveal_strlit(",");
    reveal_strlit("\n  ]");
    reveal_strlit("\n    ");
    let il = spec_enc_data_inner::<T>(rs).len() as int;
    assert forall|k: int| 0 <= k < il implies s[i + k] == #[trigger] spec_enc_data_inner::<T>(
        rs,
    )[k] by {
        assert(s.subrange(i, i + il)[k] == s[i + k]);
    }
    if rs.len() == 0 {
        assert(s[i] == spec_enc_data_inner::<T>(rs)[0]);
        assert(s.subrange(i, i + 1) =~= "]"@);
        lemma_tok_at(s, i, 0, "]"@);
        assert(rs =~= Seq::<T::V>::empty());
    } else {
        let v0 = rs[0];
        let enc0 = T::spec_enc(v0);
        let l0 = enc0.len() as int;
        let rest = rs.skip(1);
        let tl2 = spec_enc_tail::<T>(rest).len() as int;
        assert(spec_enc_data_inner::<T>(rs) == "\n    "@ + enc0 + spec_enc_tail::<T>(rest)
            + "\n  ]"@);
        assert(il == 9 + l0 + tl2);
        assert forall|k: int| 0 <= k < 5 implies s[i + k] == #[trigger] "\n    "@[k] by {
            assert(spec_enc_data_inner::<T>(rs)[k] == "\n    "@[k]);
        }
        assert forall|k: int| 0 <= k < l0 implies s[i + 5 + k] == #[trigger] enc0[k] by {
            assert(spec_enc_data_inner::<T>(rs)[5 + k] == enc0[k]);
        }
        assert forall|k: int| 0 <= k < tl2 implies s[i + 5 + l0 + k] == #[trigger] spec_enc_tail::<
            T,
        >(rest)[k] by {
            assert(spec_enc_data_inner::<T>(rs)[5 + l0 + k] == spec_enc_tail::<T>(rest)[k]);
        }
        assert forall|k: int| 0 <= k < 4 implies s[i + 5 + l0 + tl2 + k] == #[trigger] "\n  ]"@[k]
            by {
            assert(spec_enc_data_inner::<T>(rs)[5 + l0 + tl2 + k] == "\n  ]"@[k]);
        }
        T::lemma_enc_form(v0);
        assert forall|k: int| i <= k < i + 5 implies is_ws(#[trigger] s[k]) by {
            assert(s[k] == "\n    "@[k - i]);
        }
        assert(s[i + 5] == enc0[0]);
        // the element list opens with a record: no close bracket here
        lemma_tok_miss(s, i, 5, "]"@);
        lemma_skip_ws_run(s, i, i + 5);
        assert(s.subrange(i + 5, i + 5 + l0) =~= enc0);
        T::lemma_parse_enc(v0, s, i + 5);
        assert(s.subrange(i + 5 + l0, i + 5 + l0 + tl2) =~= spec_enc_tail::<T>(rest)) by {
            assert forall|t: int| 0 <= t < tl2 implies s.subrange(
                i + 5 + l0,
                i + 5 + l0 + tl2,
            )[t] == spec_enc_tail::<T>(rest)[t] by {
                assert(s[i + 5 + l0 + t] == spec_enc_tail::<T>(rest)[t]);
            }
        }
        assert(s.subrange(i + 5 + l0 + tl2, i + 5 + l0 + tl2 + 4) =~= "\n  ]"@) by {
            assert forall|t: int| 0 <= t < 4 implies s.subrange(
                i + 5 + l0 + tl2,
                i + 5 + l0 + tl2 + 4,
            )[t] == "\n  ]"@[t] by {
                assert(s[i + 5 + l0 + tl2 + t] == "\n  ]"@[t]);
            }
        }
        lemma_records_tail_rt::<T>(rest, s, i + 5 + l0);
        assert(seq![v0] + rest =~= rs);
    }
}

/// Saving and reloading reproduces a container exactly: reading back the
/// encoded text of `count` and `rs` yields `count` and `rs`, order
/// included.
#[verifier::rlimit(100)]
#[verifier::spinoff_prover]
pub proof fn lemma_container_round_trip<T: Record>(count: nat, rs: Seq<T::V>)
    requires
        count <= usize::MAX,
    ensures
        spec_parse_container::<T>(spec_enc_container::<T>(count, rs)) == Some((count, rs)),
{
    reveal_strlit("{\n  \"count\": ");
    reveal_strlit(",\n  \"data\": ");
    reveal_strlit("\n}");
    reveal_strlit("{");
    reveal_strlit("\"count\"");
    reveal_strlit(":");
    reveal_strlit(",");
    reveal_strlit("\"data\"");
    reveal_strlit("[");
    reveal_strlit("}");
    let s = spec_enc_container::<T>(count, rs);
    let h1 = "{\n  \"count\": "@;
    let dc = dec_str(count);
    let dl = dc.len() as int;
    let h2 = ",\n  \"data\": "@;
    let inner = spec_enc_data_inner::<T>(rs);
    let il = inner.len() as int;
    let h3 = "\n}"@;
    assert(h1.len() == 13);
    assert(h2.len() == 12);
    assert(h3.len() == 2);
    crate::json::lemma_dec_str_digits(count);
    assert(s.len() == 28 + dl + il);
    assert forall|k: int| 0 <= k < 13 implies s[k] == #[trigger] h1[k] by {}
    assert forall|k: int| 0 <= k < dl implies s[13 + k] == #[trigger] dc[k] by {}
    assert forall|k: int| 0 <= k < 12 implies s[13 + dl + k] == #[trigger] h2[k] by {}
    assert(s[25 + dl] == '[');
    assert forall|k: int| 0 <= k < il implies s[26 + dl + k] == #[trigger] inner[k] by {}
    assert forall|k: int| 0 <= k < 2 implies s[26 + dl + il + k] == #[trigger] h3[k] by {}
    // the object brace
    assert(s.subrange(0, 1) =~= "{"@);
    lemma_tok_at(s, 0, 0, "{"@);
    // the count key after a newline and two spaces
    assert forall|k: int| 1 <= k < 4 implies is_ws(#[trigger] s[k]) by {
        assert(s[k] == h1[k]);
    }
    assert(s.subrange(4, 11) =~= "\"count\""@) by {
        assert forall|t: int| 0 <= t < 7 implies s.subrange(4, 11)[t] == "\"count\""@[t] by {
            assert(s[4 + t] == h1[4 + t]);
        }
    }
    lemma_tok_at(s, 1, 3, "\"count\""@);
    // the colon, then the count itself after one space
    assert(s.subrange(11, 12) =~= ":"@);
    lemma_tok_at(s, 11, 0, ":"@);
    assert(s[12] == h1[12]);
    assert(is_digit(dc[0]) && !is_ws(s[13]));
    lemma_skip_ws_run(s, 12, 13);
    assert(s.subrange(13, 13 + dl) =~= dc);
    assert(0 * pow10(dc.len()) + count <= usize::MAX);
    lemma_read_dec(count, s, 13, 0);
    assert(!is_digit(s[13 + dl]));
    assert(spec_parse_nat(s, 13, 0) == Some((count, 13 + dl)));
    // the comma, then the data key after a newline and two spaces
    assert(s.subrange(13 + dl, 14 + dl) =~= ","@);
    lemma_tok_at(s, 13 + dl, 0, ","@);
    assert forall|k: int| 14 + dl <= k < 17 + dl implies is_ws(#[trigger] s[k]) by {
        assert(s[k] == h2[k - 13 - dl]);
    }
    assert(s.subrange(17 + dl, 23 + dl) =~= "\"data\""@) by {
        assert forall|t: int| 0 <= t < 6 implies s.subrange(17 + dl, 23 + dl)[t] == "\"data\""@[t]
            by {
            assert(s[17 + dl + t] == h2[4 + t]);
        }
    }
    lemma_tok_at(s, 14 + dl, 3, "\"data\""@);
    // the colon, then the array after one space
    assert(s.subrange(23 + dl, 24 + dl) =~= ":"@) by {
        assert(s[23 + dl] == h2[10]);
    }
    lemma_tok_at(s, 23 + dl, 0, ":"@);
    assert(s[24 + dl] == h2[11]);
    assert(s.subrange(25 + dl, 26 + dl) =~= "["@);
    lemma_tok_at(s, 24 + dl, 1, "["@);
    // the elements
    assert(s.subrange(26 + dl, 26 + dl + il) =~= inner) by {
        assert forall|t: int| 0 <= t < il implies s.subrange(26 + dl, 26 + dl + il)[t] == inner[t]
            by {
            assert(s[26 + dl + t] == inner[t]);
        }
    }
    lemma_records_head_rt::<T>(rs, s, 26 + dl);
    // the closing brace after a newline, then the end
    let w = 26 + dl + il;
    assert(s[w] == h3[0]);
    assert(s.subrange(w + 1, w + 2) =~= "}"@) by {
        assert(s[w + 1] == h3[1]);
    }
    lemma_tok_at(s, w, 1, "}"@);
    assert(spec_skip_ws(s, w + 2) == s.len());
}

/// Removing an element commutes with taking views.
pub proof fn lemma_views_remove<T: View>(v: Seq<T>, i: int)
    requires
        0 <= i < v.len(),
    ensures
        views_of(v.remove(i)) == views_of(v).remove(i),
{
    assert(views_of(v.remove(i)) =~= views_of(v).remove(i)) by {
        assert forall|k: int| 0 <= k < v.len() - 1 implies views_of(v.remove(i))[k] == views_of(
            v,
        ).remove(i)[k] by {
            if k < i {
                assert(v.remove(i)[k] == v[k]);
            } else {
                assert(v.remove(i)[k] == v[k + 1]);
            }
        }
    }
}

/// Index of the first element at or after `i` satisfying `p`.
pub open spec fn spec_find_from<V>(s: Seq<V>, i: int, p: spec_fn(V) -> bool) -> Option<int>
    decreases s.len() - i,
{
    if 0 <= i && i < s.len() {
        if p(s[i]) {
            Some(i)
        } else {
            spec_find_from(s, i + 1, p)
        }
    } else {
        None
    }
}

/// Index of the first element satisfying `p`.
pub open spec fn spec_find<V>(s: Seq<V>, p: spec_fn(V) -> bool) -> Option<int> {
    spec_find_from(s, 0, p)
}

/// What a found index means: it is the first match; `None` means no match.
pub proof fn lemma_find_from_props<V>(s: Seq<V>, i: int, p: spec_fn(V) -> bool)
    requires
        0 <= i <= s.len(),
    ensures
        match spec_find_from(s, i, p) {
            Some(idx) => i <= idx < s.len() && p(s[idx]) && (forall|j: int|
                i <= j < idx ==> !#[trigger] p(s[j])),
            None => forall|j: int| i <= j < s.len() ==> !#[trigger] p(s[j]),
        },
    decreases s.len() - i,
{
    if 0 <= i && i < s.len() && !p(s[i]) {
        lemma_find_from_props(s, i + 1, p);
    }
}

/// A predicate that no element satisfies finds nothing and filters to the
/// empty sequence.
pub proof fn lemma_unmatched_find<V>(s: Seq<V>, p: spec_fn(V) -> bool)
    requires
        forall|k: int| 0 <= k < s.len() ==> !#[trigger] p(s[k]),
    ensures
        spec_find(s, p) is None,
        s.filter(p) == Seq::<V>::empty(),
    decreases s.len(),
{
    reveal(Seq::filter);
    lemma_find_from_props(s, 0, p);
    if s.len() > 0 {
        assert forall|k: int| 0 <= k < s.drop_last().len() implies !#[trigger] p(
            s.drop_last()[k],
        ) by {
            assert(s.drop_last()[k] == s[k]);
        }
        lemma_unmatched_find(s.drop_last(), p);
        assert(!p(s.last()));
    }
}

/// A predicate that every element satisfies filters to the whole sequence.
pub proof fn lemma_all_matched_filter<V>(s: Seq<V>, p: spec_fn(V) -> bool)
    requires
        forall|k: int| 0 <= k < s.len() ==> #[trigger] p(s[k]),
    ensures
        s.filter(p) == s,
    decreases s.len(),
{
    reveal(Seq::filter);
    if s.len() > 0 {
        assert forall|k: int| 0 <= k < s.drop_last().len() implies #[trigger] p(
            s.drop_last()[k],
        ) by {
            assert(s.drop_last()[k] == s[k]);
        }
        lemma_all_matched_filter(s.drop_last(), p);
        assert(p(s.last()));
        assert(s.drop_last().push(s.last()) =~= s);
    }
}

/// The matches and the non-matches of a sequence account for all of it:
/// what `delete_many` removes and what survives add up to the old length.
pub proof fn lemma_filter_split<V>(s: Seq<V>, p: spec_fn(V) -> bool, q: spec_fn(V) -> bool)
    requires
        forall|v: V| #[trigger] q(v) <==> !p(v),
    ensures
        s.filter(p).len() + s.filter(q).len() == s.len(),
    decreases s.len(),
{
    reveal(Seq::filter);
    if s.len() > 0 {
        lemma_filter_split(s.drop_last(), p, q);
        assert(q(s.last()) <==> !p(s.last()));
    }
}

/// Pushing the records of `recs` one by one onto `base`, in order.
pub open spec fn pushed_all<V>(base: Seq<V>, recs: Seq<V>) -> Seq<V>
    decreases recs.len(),
{
    if recs.len() == 0 {
        base
    } else {
        pushed_all(base.push(recs[0]), recs.skip(1))
    }
}

/// A run of appends lands every record at the end, in call order: starting
/// from any state, appending the records of `recs` one by one yields the
/// old records followed by exactly `recs`; starting from an empty
/// collection it yields exactly `recs`, and the count equals their number.
pub proof fn lemma_appends_in_order<V>(base: Seq<V>, recs: Seq<V>)
    ensures
        pushed_all(base, recs) == base + recs,
        pushed_all(Seq::<V>::empty(), recs) == recs,
        pushed_all(Seq::<V>::empty(), recs).len() == recs.len(),
    decreases recs.len(),
{
    if recs.len() == 0 {
        assert(base + recs =~= base);
        assert(Seq::<V>::empty() + recs =~= recs);
    } else {
        lemma_appends_in_order(base.push(recs[0]), recs.skip(1));
        lemma_appends_in_order(Seq::<V>::empty().push(recs[0]), recs.skip(1));
        assert(base.push(recs[0]) + recs.skip(1) =~= base + recs);
        assert(Seq::<V>::empty().push(recs[0]) + recs.skip(1) =~= recs);
    }
}

/// After a successful mutation, a freshly constructed collection reading
/// the body the mutation handed back holds exactly the mutated state: the
/// same records in the same order, with the count recomputed.
pub proof fn lemma_save_reload<T: Record>(c: Collection<T>, r: SaveRequest)
    requires
        saves_state(r, c),
        c.records().len() <= usize::MAX,
    ensures
        spec_parse_container::<T>(r.content@) == Some((c.records().len(), c.records())),
{
    lemma_container_round_trip::<T>(c.records().len(), c.records());
}

/// What a mutation hands back for the caller to persist: the collection's
/// backing-file path and the full new file body.  The mutation is durable
/// once the content stands in the file; until then the file is stale.
pub struct SaveRequest {
    /// The backing file's path.
    pub filename: String,
    /// The full new file body.
    pub content: String,
}

/// The stored envelope: the record sequence and the redundant count that
/// the file carries beside it.  The count is recomputed before every save
/// and never trusted on load.
pub struct DataContainer<T> {
    /// The count as last written or loaded; for human inspection only.
    pub count: usize,
    /// The records, in insertion order.
    pub data: Vec<T>,
}

/// One collection: an in-memory container of records mirrored to one JSON
/// file named `<name>.json` under `directory`.
pub struct Collection<T> {
    /// The collection's name; also the backing file's stem.
    pub name: String,
    /// The directory the backing file lives in.
    pub directory: String,
    /// The live records and their count field.
    pub data_container: DataContainer<T>,
}

/// The request `r` persists exactly the state of `c`.
pub open spec fn saves_state<T: Record>(r: SaveRequest, c: Collection<T>) -> bool {
    r.filename@ == c.spec_filename() && r.content@ == spec_enc_container::<T>(
        c.records().len(),
        c.records(),
    )
}

impl<T: Record> Collection<T> {
    /// The collection's name.
    pub open spec fn spec_name(&self) -> Seq<char> {
        self.name@
    }

    /// The directory of the backing file.
    pub open spec fn spec_directory(&self) -> Seq<char> {
        self.directory@
    }

    /// The views of the live records, in order.
    pub open spec fn records(&self) -> Seq<T::V> {
        views_of(self.data_container.data@)
    }

    /// The count field as currently held (not necessarily the length
    /// until the next save).
    pub open spec fn spec_count_field(&self) -> nat {
        self.data_container.count as nat
    }

    /// The backing file's path: `<directory>/<name>.json`.
    pub open spec fn spec_filename(&self) -> Seq<char> {
        self.directory@ + "/"@ + self.name@ + ".json"@
    }

    /// Constructs a collection from the content of its backing file;
    /// `None` stands for an absent file.  Fails with `NotFound` on an
    /// absent file and `Parse` on content that is not a valid container;
    /// there is no auto-create.
    pub fn new(name: String, directory: &str, file: Option<&str>) -> (r: Result<Self, StoreError>)
        ensures
            match r {
                Ok(c) => file matches Some(f) && spec_parse_container::<T>(f@) matches Some(p)
                    && c.spec_name() == name@ && c.spec_directory() == directory@ && c.records()
                    == p.1 && c.spec_count_field() == p.0,
                Err(e) => match file {
                    None => e == StoreError::NotFound,
                    Some(f) => e == StoreError::Parse && spec_parse_container::<T>(f@) is None,
                },
            },
    {
        match file {
            None => Err(StoreError::NotFound),
            Some(f) => match read_container::<T>(f) {
                Some(parsed) => Ok(
                    Collection {
                        name,
                        directory: directory.to_owned(),
                        data_container: DataContainer { count: parsed.0, data: parsed.1 },
                    },
                ),
                None => Err(StoreError::Parse),
            },
        }
    }

    /// The backing file's path.
    pub fn get_filename(&self) -> (r: String)
        ensures
            r@ == self.spec_filename(),
    {
        let mut r = String::new();
        r.append(self.directory.as_str());
        r.append("/");
        r.append(self.name.as_str());
        r.append(".json");
        proof {
            assert(r@ =~= self.spec_filename());
        }
        r
    }

    /// Recomputes the count from the live sequence and produces the
    /// request that persists the current state.
    pub fn save(&mut self) -> (r: SaveRequest)
        ensures
            final(self).spec_name() == old(self).spec_name(),
            final(self).spec_directory() == old(self).spec_directory(),
            final(self).records() == old(self).records(),
            final(self).spec_count_field() == final(self).records().len(),
            saves_state(r, *final(self)),
    {
        self.data_container.count = self.data_container.data.len();
        let filename = self.get_filename();
        let mut content = String::new();
        write_container::<T>(self.data_container.count, &self.data_container.data, &mut content);
        proof {
            assert(content@ =~= spec_enc_container::<T>(self.records().len(), self.records()));
        }
        SaveRequest { filename, content }
    }

    /// The first record satisfying the predicate, in sequence order;
    /// `None` when nothing matches.  No side effect.
    pub fn find_one<P: Matcher<T>>(&self, p: &P) -> (r: Option<&T>)
        ensures
            match r {
                Some(t) => spec_find(self.records(), holds_fn(*p)) matches Some(idx) && t@
                    == self.records()[idx],
                None => spec_find(self.records(), holds_fn(*p)) is None,
            },
    {
        let ghost s = self.records();
        let ghost pf = holds_fn(*p);
        let n = self.data_container.data.len();
        let mut i: usize = 0;
        while i < n
            invariant
                n == self.data_container.data.len(),
                s == self.records(),
                pf == holds_fn(*p),
                s.len() == n,
                i <= n,
                spec_find_from(s, 0, pf) == spec_find_from(s, i as int, pf),
            decreases n - i,
        {
            proof {
                assert(s[i as int] == self.data_container.data@[i as int]@);
            }
            if p.test(&self.data_container.data[i]) {
                return Some(&self.data_container.data[i]);
            }
            i += 1;
        }
        None
    }

    /// Index of the first record satisfying the predicate.
    fn position_of<P: Matcher<T>>(&self, p: &P) -> (r: Option<usize>)
        ensures
            match spec_find(self.records(), holds_fn(*p)) {
                Some(idx) => r == Some(idx as usize),
                None => r is None,
            },
    {
        let ghost s = self.records();
        let ghost pf = holds_fn(*p);
        let n = self.data_container.data.len();
        let mut i: usize = 0;
        while i < n
            invariant
                n == self.data_container.data.len(),
                s == self.records(),
                pf == holds_fn(*p),
                s.len() == n,
                i <= n,
                spec_find_from(s, 0, pf) == spec_find_from(s, i as int, pf),
            decreases n - i,
        {
            proof {
                assert(s[i as int] == self.data_container.data@[i as int]@);
            }
            if p.test(&self.data_container.data[i]) {
                return Some(i);
            }
            i += 1;
        }
        None
    }

    /// Every record satisfying the predicate, preserving sequence order.
    /// No side effect.
    pub fn find<'a, P: Matcher<T>>(&'a self, p: &P) -> (r: Vec<&'a T>)
        ensures
            views_of(r@) == self.records().filter(holds_fn(*p)),
    {
        let ghost s = self.records();
        let ghost pf = holds_fn(*p);
        let mut out: Vec<&'a T> = Vec::new();
        proof {
            reveal(Seq::filter);
            assert(views_of(out@) =~= s.subrange(0, 0).filter(pf));
        }
        let n = self.data_container.data.len();
        let mut i: usize = 0;
        while i < n
            invariant
                n == self.data_container.data.len(),
                s == self.records(),
                pf == holds_fn(*p),
                s.len() == n,
                i <= n,
                views_of(out@) == s.subrange(0, i as int).filter(pf),
            decreases n - i,
        {
            let ghost prev = views_of(out@);
            proof {
                assert(s[i as int] == self.data_container.data@[i as int]@);
            }
            let t = &self.data_container.data[i];
            if p.test(t) {
                out.push(t);
                proof {
                    assert(views_of(out@) =~= prev.push(s[i as int]));
                }
            }
            proof {
                reveal(Seq::filter);
                assert(s.subrange(0, i + 1).drop_last() =~= s.subrange(0, i as int));
                assert(s.subrange(0, i + 1).last() == s[i as int]);
            }
            i += 1;
        }
        proof {
            assert(s.subrange(0, n as int) =~= s);
        }
        out
    }

    /// Appends a record at the end of the sequence and produces the save
    /// that persists the new state.
    pub fn append(&mut self, data: T) -> (r: SaveRequest)
        ensures
            final(self).spec_name() == old(self).spec_name(),
            final(self).spec_directory() == old(self).spec_directory(),
            final(self).records() == old(self).records().push(data@),
            final(self).spec_count_field() == final(self).records().len(),
            saves_state(r, *final(self)),
    {
        self.data_container.data.push(data);
        proof {
            assert(self.records() =~= old(self).records().push(data@));
        }
        self.save()
    }

    /// Removes and returns the first record satisfying the predicate,
    /// with the save that persists the removal; `None`, with the state
    /// untouched and nothing to write, when nothing matches.
    pub fn delete_one<P: Matcher<T>>(&mut self, p: &P) -> (r: Option<(T, SaveRequest)>)
        ensures
            final(self).spec_name() == old(self).spec_name(),
            final(self).spec_directory() == old(self).spec_directory(),
            match spec_find(old(self).records(), holds_fn(*p)) {
                Some(idx) => r matches Some(q) && q.0@ == old(self).records()[idx] && final(self).records() == old(self).records().remove(idx) && final(self).spec_count_field()
                    == final(self).records().len() && saves_state(q.1, *final(self)),
                None => r is None && *final(self) == *old(self),
            },
    {
        let ghost s = self.records();
        let ghost pf = holds_fn(*p);
        match self.position_of(p) {
            None => None,
            Some(idx) => {
                proof {
                    lemma_find_from_props(s, 0, pf);
                }
                let removed = self.data_container.data.remove(idx);
                proof {
                    lemma_views_remove(old(self).data_container.data@, idx as int);
                }
                let req = self.save();
                Some((removed, req))
            },
        }
    }

    /// Removes every record satisfying the predicate in one stable pass;
    /// returns how many went, and the save that persists the removal when
    /// any did.  With no match the state is untouched and there is
    /// nothing to write.
    pub fn delete_many<P: Matcher<T>>(&mut self, p: &P) -> (r: (usize, Option<SaveRequest>))
        ensures
            final(self).spec_name() == old(self).spec_name(),
            final(self).spec_directory() == old(self).spec_directory(),
            final(self).records() == old(self).records().filter(not_holds_fn(*p)),
            r.0 == old(self).records().filter(holds_fn(*p)).len(),
            match r.1 {
                Some(req) => r.0 > 0 && final(self).spec_count_field() == final(self).records().len() && saves_state(req, *final(self)),
                None => r.0 == 0 && *final(self) == *old(self),
            },
    {
        let ghost s = self.records();
        let ghost pf = holds_fn(*p);
        let ghost nf = not_holds_fn(*p);
        match self.position_of(p) {
            None => {
                proof {
                    lemma_find_from_props(s, 0, pf);
                    lemma_unmatched_find(s, pf);
                    assert forall|k: int| 0 <= k < s.len() implies #[trigger] nf(s[k]) by {
                        assert(!pf(s[k]));
                    }
                    lemma_all_matched_filter(s, nf);
                }
                return (0, None);
            },
            Some(_first) => {},
        }
        let ghost idx = spec_find(s, pf).unwrap();
        proof {
            lemma_find_from_props(s, 0, pf);
        }
        let n = self.data_container.data.len();
        let mut kept: Vec<T> = Vec::new();
        let mut removed: usize = 0;
        proof {
            reveal(Seq::filter);
            assert(views_of(kept@) =~= s.subrange(0, 0).filter(nf));
            assert(s.subrange(0, 0).filter(pf).len() == 0);
        }
        let mut i: usize = 0;
        while i < n
            invariant
                *self == *old(self),
                n == self.data_container.data.len(),
                s == self.records(),
                pf == holds_fn(*p),
                nf == not_holds_fn(*p),
                s.len() == n,
                i <= n,
                removed <= i,
                views_of(kept@) == s.subrange(0, i as int).filter(nf),
                removed == s.subrange(0, i as int).filter(pf).len(),
            decreases n - i,
        {
            let ghost prevk = views_of(kept@);
            proof {
                assert(s[i as int] == self.data_container.data@[i as int]@);
            }
            let t = &self.data_container.data[i];
            if p.test(t) {
                removed = removed + 1;
            } else {
                let c = t.duplicate();
                kept.push(c);
                proof {
                    assert(views_of(kept@) =~= prevk.push(s[i as int]));
                }
            }
            proof {
                reveal(Seq::filter);
                assert(s.subrange(0, i + 1).drop_last() =~= s.subrange(0, i as int));
                assert(s.subrange(0, i + 1).last() == s[i as int]);
            }
            i += 1;
        }
        proof {
            assert(s.subrange(0, n as int) =~= s);
            s.filter_lemma(pf);
            assert(s.filter(pf).contains(s[idx]));
        }
        self.data_container.data = kept;
        let req = self.save();
        (removed, Some(req))
    }

    /// Applies a partial update to the first record satisfying the
    /// predicate; returns the post-update copy and the save that persists
    /// it.  `None`, with the state untouched and nothing to write, when
    /// nothing matches.
    pub fn patch_one<P: Matcher<T>, M: Mutator<T>>(&mut self, p: &P, m: &M) -> (r: Option<
        (T, SaveRequest),
    >)
        ensures
            final(self).spec_name() == old(self).spec_name(),
            final(self).spec_directory() == old(self).spec_directory(),
            match spec_find(old(self).records(), holds_fn(*p)) {
                Some(idx) => r matches Some(q) && final(self).records() == old(self).records().update(idx, m.updated(old(self).records()[idx])) && q.0@ == m.updated(
                    old(self).records()[idx],
                ) && final(self).spec_count_field() == final(self).records().len() && saves_state(
                    q.1,
                    *final(self),
                ),
                None => r is None && *final(self) == *old(self),
            },
    {
        let ghost s = self.records();
        let ghost pf = holds_fn(*p);
        match self.position_of(p) {
            None => None,
            Some(idx) => {
                proof {
                    lemma_find_from_props(s, 0, pf);
                }
                let mut t = self.data_container.data.remove(idx);
                m.apply(&mut t);
                let copy = t.duplicate();
                self.data_container.data.insert(idx, t);
                proof {
                    assert(self.data_container.data@ =~= old(self).data_container.data@.update(
                        idx as int,
                        self.data_container.data@[idx as int],
                    ));
                    assert(self.records() =~= old(self).records().update(
                        idx as int,
                        m.updated(s[idx as int]),
                    ));
                }
                let req = self.save();
                Some((copy, req))
            },
        }
    }

    /// Removes the first record satisfying the predicate, if any, then
    /// appends `data` unconditionally: replace-if-present, else append.
    /// Returns the appended record and the save that persists the new
    /// state.
    pub fn put_one<P: Matcher<T>>(&mut self, p: &P, data: T) -> (r: (T, SaveRequest))
        ensures
            final(self).spec_name() == old(self).spec_name(),
            final(self).spec_directory() == old(self).spec_directory(),
            final(self).records() == (match spec_find(old(self).records(), holds_fn(*p)) {
                Some(idx) => old(self).records().remove(idx),
                None => old(self).records(),
            }).push(data@),
            r.0 == data,
            final(self).spec_count_field() == final(self).records().len(),
            saves_state(r.1, *final(self)),
    {
        let ghost s = self.records();
        let ghost pf = holds_fn(*p);
        match self.position_of(p) {
            Some(idx) => {
                proof {
                    lemma_find_from_props(s, 0, pf);
                }
                let _dropped = self.data_container.data.remove(idx);
                proof {
                    lemma_views_remove(old(self).data_container.data@, idx as int);
                }
            },
            None => {},
        }
        let c = data.duplicate();
        self.data_container.data.push(c);
        proof {
            assert(self.records() =~= (match spec_find(s, pf) {
                Some(idx) => s.remove(idx),
                None => s,
            }).push(data@));
        }
        let req = self.save();
        (data, req)
    }

    /// The full record sequence, in order.  No side effect.
    pub fn get_all(&self) -> (r: &[T])
        ensures
            views_of(r@) == self.records(),
    {
        self.data_container.data.as_slice()
    }

    /// The number of live records.  No side effect.
    pub fn count(&self) -> (r: usize)
        ensures
            r == self.records().len(),
    {
        self.data_container.data.len()
    }
}

} // verus!

