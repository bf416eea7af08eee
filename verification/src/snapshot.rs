//! The snapshot codec: the store's entries rendered as one JSON document
//! mapping key strings to decimal prices, and a strict parser reading such
//! a document back.
//!
//! The document is `{"key":price,...}` with no whitespace; quotes and
//! backslashes inside a key are escaped with a backslash. The parser accepts
//! the documents this codec writes; anything else is a `CorruptSnapshot`.

use vstd::prelude::*;

use crate::price::{
    lemma_price_roundtrip, lemma_price_text_chars, parse_price_span, parse_price_spec, price_text,
    push_price,
};
use crate::text::{chars_to_string, str_chars};

verus! {

/// A snapshot document that does not parse.
#[derive(Clone, Copy, PartialEq, Eq, Structural, Debug)]
pub struct CorruptSnapshot;

/// One key character, escaped for the document.
pub open spec fn esc_char(c: char) -> Seq<char> {
    if c == '"' || c == '\\' {
        seq!['\\', c]
    } else {
        seq![c]
    }
}

/// A key with its quotes and backslashes escaped.
pub open spec fn escape(s: Seq<char>) -> Seq<char>
    decreases s.len(),
{
    if s.len() == 0 {
        Seq::empty()
    } else {
        escape(s.drop_last()) + esc_char(s.last())
    }
}

/// The document text of one key/value pair.
pub open spec fn pair_text(p: (Seq<char>, i64)) -> Seq<char> {
    seq!['"'] + escape(p.0) + seq!['"', ':'] + price_text(p.1)
}

/// The document text of a pair list, comma separated.
pub open spec fn pairs_text(es: Seq<(Seq<char>, i64)>) -> Seq<char>
    decreases es.len(),
{
    if es.len() == 0 {
        Seq::empty()
    } else if es.len() == 1 {
        pair_text(es[0])
    } else {
        pair_text(es[0]) + seq![','] + pairs_text(es.drop_first())
    }
}

/// The whole snapshot document for a pair list.
pub open spec fn json_of(es: Seq<(Seq<char>, i64)>) -> Seq<char> {
    seq!['{'] + pairs_text(es) + seq!['}']
}

/// The closing quote of a string body starting at `i`, skipping escape
/// pairs; `-1` where the string never closes or an escape is malformed.
pub open spec fn str_end(s: Seq<char>, i: int) -> int
    decreases s.len() - i,
{
    if i < 0 || i >= s.len() {
        -1
    } else if s[i] == '"' {
        i
    } else if s[i] == '\\' {
        if i + 1 < s.len() && (s[i + 1] == '"' || s[i + 1] == '\\') {
            str_end(s, i + 2)
        } else {
            -1
        }
    } else {
        str_end(s, i + 1)
    }
}

/// The unescaped characters of the body `s[i..j)`, appended to `acc`.
pub open spec fn unescape_from(s: Seq<char>, i: int, j: int, acc: Seq<char>) -> Seq<char>
    decreases j - i,
{
    if i >= j {
        acc
    } else if s[i] == '\\' && i + 1 < j {
        unescape_from(s, i + 2, j, acc.push(s[i + 1]))
    } else {
        unescape_from(s, i + 1, j, acc.push(s[i]))
    }
}

/// The first `,` or `}` at or after `i`; `-1` where there is none.
pub open spec fn val_end(s: Seq<char>, i: int) -> int
    decreases s.len() - i,
{
    if i < 0 || i >= s.len() {
        -1
    } else if s[i] == ',' || s[i] == '}' {
        i
    } else {
        val_end(s, i + 1)
    }
}

/// A found closing quote lies at or after the scan's start.
proof fn lemma_str_end_ge(s: Seq<char>, i: int)
    ensures
        str_end(s, i) == -1 || (i <= str_end(s, i) < s.len() && s[str_end(s, i)] == '"'),
    decreases s.len() - i,
{
    if 0 <= i < s.len() && s[i] != '"' {
        if s[i] == '\\' {
            if i + 1 < s.len() && (s[i + 1] == '"' || s[i + 1] == '\\') {
                lemma_str_end_ge(s, i + 2);
            }
        } else {
            lemma_str_end_ge(s, i + 1);
        }
    }
}

/// A found delimiter lies at or after the scan's start.
proof fn lemma_val_end_ge(s: Seq<char>, i: int)
    ensures
        val_end(s, i) == -1 || (i <= val_end(s, i) < s.len()),
    decreases s.len() - i,
{
    if 0 <= i < s.len() && s[i] != ',' && s[i] != '}' {
        lemma_val_end_ge(s, i + 1);
    }
}

/// The pairs read from position `i` on: a pair, then either the closing
/// brace ending the document, or a comma and further pairs.
pub open spec fn parse_pairs_from(
    s: Seq<char>,
    i: int,
    acc: Seq<(Seq<char>, i64)>,
) -> Option<Seq<(Seq<char>, i64)>>
    decreases s.len() - i,
    via parse_pairs_from_decreases
{
    if i < 0 || i >= s.len() || s[i] != '"' {
        None
    } else {
        let e = str_end(s, i + 1);
        if e < 0 {
            None
        } else if s[e + 1] != ':' {
            None
        } else {
            let ve = val_end(s, e + 2);
            if ve < 0 {
                None
            } else {
                let key = unescape_from(s, i + 1, e, Seq::empty());
                match parse_price_spec(s.subrange(e + 2, ve)) {
                    None => None,
                    Some(v) => if s[ve] == '}' {
                        if ve == s.len() - 1 {
                            Some(acc.push((key, v)))
                        } else {
                            None
                        }
                    } else {
                        parse_pairs_from(s, ve + 1, acc.push((key, v)))
                    },
                }
            }
        }
    }
}

#[via_fn]
proof fn parse_pairs_from_decreases(s: Seq<char>, i: int, acc: Seq<(Seq<char>, i64)>) {
    lemma_str_end_ge(s, i + 1);
    lemma_val_end_ge(s, str_end(s, i + 1) + 2);
}

/// The document parsed, strictly: a brace-wrapped comma-separated pair list.
pub open spec fn json_parse(s: Seq<char>) -> Option<Seq<(Seq<char>, i64)>> {
    if s.len() < 2 || s[0] != '{' {
        None
    } else if s.len() == 2 && s[1] == '}' {
        Some(Seq::empty())
    } else {
        parse_pairs_from(s, 1, Seq::empty())
    }
}

/// The views of an entry list.
pub open spec fn pair_views(ps: Seq<(String, i64)>) -> Seq<(Seq<char>, i64)> {
    ps.map_values(|p: (String, i64)| (p.0@, p.1))
}

/// A subrange taken directly is the same subrange taken inside a wider one.
proof fn lemma_subrange_within(s: Seq<char>, a: int, b: int, c: int, d: int)
    requires
        0 <= a <= c <= d <= b <= s.len(),
    ensures
        s.subrange(c, d) == s.subrange(a, b).subrange(c - a, d - a),
{
    assert(s.subrange(c, d) =~= s.subrange(a, b).subrange(c - a, d - a));
}

/// The escape of a string, peeled at its first character.
proof fn lemma_escape_first(k: Seq<char>)
    requires
        k.len() > 0,
    ensures
        escape(k) == esc_char(k[0]) + escape(k.drop_first()),
    decreases k.len(),
{
    if k.len() == 1 {
        assert(k.drop_last() =~= Seq::<char>::empty());
        assert(k.drop_first() =~= Seq::<char>::empty());
        assert(escape(k) =~= esc_char(k[0]) + escape(k.drop_first()));
    } else {
        let dl = k.drop_last();
        lemma_escape_first(dl);
        assert(dl[0] == k[0]);
        assert(dl.drop_first() =~= k.drop_first().drop_last());
        assert(k.drop_first().last() == k.last());
        assert(escape(k.drop_first()) == escape(k.drop_first().drop_last()) + esc_char(k.last()));
        assert(escape(k) == (esc_char(k[0]) + escape(k.drop_first().drop_last())) + esc_char(
            k.last(),
        ));
        assert((esc_char(k[0]) + escape(k.drop_first().drop_last())) + esc_char(k.last())
            =~= esc_char(k[0]) + (escape(k.drop_first().drop_last()) + esc_char(k.last())));
    }
}

/// Scanning an escaped key body finds its closing quote and unescapes it
/// back to the key.
proof fn lemma_escape_scan(s: Seq<char>, i: int, k: Seq<char>, acc: Seq<char>)
    requires
        0 <= i,
        i + escape(k).len() < s.len(),
        s.subrange(i, i + escape(k).len()) == escape(k),
        s[i + escape(k).len()] == '"',
    ensures
        str_end(s, i) == i + escape(k).len(),
        unescape_from(s, i, i + escape(k).len(), acc) == acc + k,
    decreases k.len(),
{
    let ek = escape(k);
    let el = ek.len() as int;
    if k.len() == 0 {
        assert(s[i] == '"');
        assert(acc + k =~= acc);
    } else {
        lemma_escape_first(k);
        let c = k[0];
        let kd = k.drop_first();
        let step = esc_char(c).len() as int;
        assert(el == step + escape(kd).len());
        lemma_subrange_within(s, i, i + el, i + step, i + el);
        assert(ek.subrange(step, el) =~= escape(kd));
        assert(s.subrange(i + step, i + el) == escape(kd));
        if c == '"' || c == '\\' {
            assert(ek[0] == '\\' && ek[1] == c);
            assert(s.subrange(i, i + el)[0] == s[i]);
            assert(s.subrange(i, i + el)[1] == s[i + 1]);
            assert(s[i] == '\\' && s[i + 1] == c);
            assert(s[i + 2 + escape(kd).len()] == '"');
            lemma_escape_scan(s, i + 2, kd, acc.push(c));
            assert(str_end(s, i) == str_end(s, i + 2));
            assert(unescape_from(s, i, i + el, acc) == unescape_from(
                s,
                i + 2,
                i + el,
                acc.push(c),
            ));
            assert(acc.push(c) + kd =~= acc + k);
        } else {
            assert(ek[0] == c);
            assert(s.subrange(i, i + el)[0] == s[i]);
            assert(s[i] == c);
            assert(s[i + 1 + escape(kd).len()] == '"');
            lemma_escape_scan(s, i + 1, kd, acc.push(c));
            assert(str_end(s, i) == str_end(s, i + 1));
            assert(unescape_from(s, i, i + el, acc) == unescape_from(
                s,
                i + 1,
                i + el,
                acc.push(c),
            ));
            assert(acc.push(c) + kd =~= acc + k);
        }
    }
}

/// A delimiter-free stretch is skipped whole by the value scan.
proof fn lemma_val_end_skip(s: Seq<char>, i: int, len: int)
    requires
        0 <= i,
        0 <= len,
        i + len < s.len(),
        forall|j: int| i <= j < i + len ==> s[j] != ',' && s[j] != '}',
        s[i + len] == ',' || s[i + len] == '}',
    ensures
        val_end(s, i) == i + len,
    decreases len,
{
    if len > 0 {
        lemma_val_end_skip(s, i + 1, len - 1);
    }
}

/// The pair list text, extended by one pair.
proof fn lemma_pairs_text_snoc(es: Seq<(Seq<char>, i64)>, i: int)
    requires
        0 <= i < es.len(),
    ensures
        pairs_text(es.take(i + 1)) == if i == 0 {
            pair_text(es[0])
        } else {
            pairs_text(es.take(i)) + seq![','] + pairs_text(seq![es[i]])
        },
    decreases i,
{
    if i == 0 {
        assert(es.take(1).len() == 1);
        assert(es.take(1)[0] == es[0]);
    } else {
        let d = es.drop_first();
        lemma_pairs_text_snoc(d, i - 1);
        assert(es.take(i + 1).drop_first() =~= d.take(i));
        assert(es.take(i).drop_first() =~= d.take(i - 1));
        assert(es.take(i + 1)[0] == es[0]);
        assert(es.take(i)[0] == es[0]);
        assert(es.take(i + 1).len() == i + 1);
        assert(es.take(i).len() == i);
        assert(pairs_text(es.take(i + 1)) == pair_text(es[0]) + seq![','] + pairs_text(d.take(i)));
        assert(d.take(i - 1 + 1) =~= d.take(i));
        assert(d[i - 1] == es[i]);
        if i == 1 {
            assert(pairs_text(d.take(1)) == pair_text(d[0]));
            assert(pairs_text(seq![es[1]]) == pair_text(es[1])) by {
                assert(seq![es[1]].len() == 1);
                assert(seq![es[1]][0] == es[1]);
            }
            assert(d.take(1)[0] == es[1]);
            assert(pair_text(es[0]) + seq![','] + pairs_text(d.take(1)) =~= pairs_text(es.take(1))
                + seq![','] + pairs_text(seq![es[1]]));
            assert(pairs_text(es.take(1)) == pair_text(es[0]));
        } else {
            assert(pairs_text(d.take(i)) == pairs_text(d.take(i - 1)) + seq![','] + pairs_text(
                seq![d[i - 1]],
            ));
            assert(pairs_text(es.take(i)) == pair_text(es[0]) + seq![','] + pairs_text(
                d.take(i - 1),
            ));
            assert(pair_text(es[0]) + seq![','] + (pairs_text(d.take(i - 1)) + seq![',']
                + pairs_text(seq![d[i - 1]])) =~= (pair_text(es[0]) + seq![','] + pairs_text(
                d.take(i - 1),
            )) + seq![','] + pairs_text(seq![es[i]]));
        }
    }
}

/// Parsing the rendered pair list from any accumulator appends exactly the
/// rendered pairs.
proof fn lemma_pairs_roundtrip(
    s: Seq<char>,
    i: int,
    es: Seq<(Seq<char>, i64)>,
    acc: Seq<(Seq<char>, i64)>,
)
    requires
        1 <= i,
        es.len() >= 1,
        i + pairs_text(es).len() + 1 == s.len(),
        s.subrange(i, s.len() as int) == pairs_text(es) + seq!['}'],
    ensures
        parse_pairs_from(s, i, acc) == Some(acc + es),
    decreases es.len(),
{
    let p = es[0];
    let k = p.0;
    let v = p.1;
    let pt = pair_text(p);
    let ek = escape(k);
    let el = ek.len() as int;
    let vt = price_text(v);
    let vl = vt.len() as int;
    let pl = pt.len() as int;
    assert(pl == 1 + el + 2 + vl);
    let rest = s.subrange(i, s.len() as int);
    if es.len() == 1 {
        assert(pairs_text(es) == pair_text(es[0]));
    } else {
        assert(pairs_text(es) == pair_text(es[0]) + seq![','] + pairs_text(es.drop_first()));
    }
    assert(pairs_text(es).len() >= pl);
    let block = s.subrange(i, i + pl);
    lemma_subrange_within(s, i, s.len() as int, i, i + pl);
    assert(rest.subrange(0, pl) =~= pt);
    assert(block == pt);
    // the opening quote
    assert(block[0] == s[i]);
    assert(pt[0] == '"');
    // the escaped key and its closing quote
    lemma_subrange_within(s, i, i + pl, i + 1, i + 1 + el);
    assert(pt.subrange(1, 1 + el) =~= ek);
    assert(s.subrange(i + 1, i + 1 + el) == ek);
    assert(block[1 + el] == s[i + 1 + el]);
    assert(pt[1 + el] == '"');
    lemma_escape_scan(s, i + 1, k, Seq::<char>::empty());
    let e = i + 1 + el;
    assert(str_end(s, i + 1) == e);
    assert(unescape_from(s, i + 1, e, Seq::<char>::empty()) =~= k);
    // the colon
    assert(block[2 + el] == s[i + 2 + el]);
    assert(pt[2 + el] == ':');
    assert(s[e + 1] == ':');
    // the value text and the delimiter after it
    lemma_price_text_chars(v);
    assert forall|j: int| e + 2 <= j < e + 2 + vl implies s[j] != ',' && s[j] != '}' by {
        assert(block[j - i] == s[j]);
        assert(pt[j - i] == vt[j - (e + 2)]);
        assert(crate::text::is_digit(vt[j - (e + 2)]) || vt[j - (e + 2)] == '-' || vt[j - (e + 2)]
            == '.');
    }
    let after = i + pl;
    assert(after == e + 2 + vl);
    assert(rest[pl] == s[after]);
    if es.len() == 1 {
        assert(after == s.len() - 1);
        assert((pairs_text(es) + seq!['}'])[pl] == '}');
        assert(s[after] == '}');
    } else {
        assert((pairs_text(es) + seq!['}'])[pl] == ',');
        assert(s[after] == ',');
    }
    lemma_val_end_skip(s, e + 2, vl);
    let ve = e + 2 + vl;
    assert(val_end(s, e + 2) == ve);
    lemma_subrange_within(s, i, i + pl, e + 2, ve);
    assert(pt.subrange(2 + el + 1, pl) =~= vt);
    assert(s.subrange(e + 2, ve) == vt);
    lemma_price_roundtrip(v);
    assert(parse_price_spec(s.subrange(e + 2, ve)) == Some(v));
    if es.len() == 1 {
        assert(parse_pairs_from(s, i, acc) == Some(acc.push((k, v))));
        assert(acc.push((k, v)) =~= acc + es);
    } else {
        let d = es.drop_first();
        assert forall|j: int| 0 <= j < s.len() - (ve + 1) implies s.subrange(
            ve + 1,
            s.len() as int,
        )[j] == (pairs_text(d) + seq!['}'])[j] by {
            assert(s.subrange(ve + 1, s.len() as int)[j] == s[ve + 1 + j]);
            assert(rest[(ve + 1 - i) + j] == s[ve + 1 + j]);
            assert((pairs_text(es) + seq!['}'])[(ve + 1 - i) + j] == (pairs_text(d) + seq![
                '}',
            ])[j]) by {
                assert(pairs_text(es)[(ve + 1 - i) + j] == pairs_text(d)[j] || (ve + 1 - i) + j
                    == pairs_text(es).len());
            }
        }
        assert(s.subrange(ve + 1, s.len() as int) =~= pairs_text(d) + seq!['}']);
        lemma_pairs_roundtrip(s, ve + 1, d, acc.push((k, v)));
        assert(parse_pairs_from(s, i, acc) == Some(acc.push((k, v)) + d));
        assert(acc.push((k, v)) + d =~= acc + es);
    }
}

/// Parsing a rendered snapshot document yields exactly the pairs it was
/// rendered from.
pub proof fn lemma_json_roundtrip(es: Seq<(Seq<char>, i64)>)
    ensures
        json_parse(json_of(es)) == Some(es),
{
    let s = json_of(es);
    if es.len() == 0 {
        assert(pairs_text(es) =~= Seq::<char>::empty());
        assert(s =~= seq!['{', '}']);
        assert(json_parse(s) == Some(Seq::<(Seq<char>, i64)>::empty()));
        assert(Seq::<(Seq<char>, i64)>::empty() =~= es);
    } else {
        let pt = pair_text(es[0]);
        assert(pt.len() >= 4);
        assert(pairs_text(es).len() >= pt.len()) by {
            if es.len() > 1 {
                assert(pairs_text(es) == pt + seq![','] + pairs_text(es.drop_first()));
            }
        }
        assert(s.len() >= 6);
        assert(s[0] == '{');
        assert(s.subrange(1, s.len() as int) =~= pairs_text(es) + seq!['}']);
        lemma_pairs_roundtrip(s, 1, es, Seq::<(Seq<char>, i64)>::empty());
        assert(Seq::<(Seq<char>, i64)>::empty() + es =~= es);
    }
}

/// Appends the document text of one pair.
fn push_pair(out: &mut Vec<char>, key: &String, v: i64)
    ensures
        final(out)@ == old(out)@ + pair_text((key@, v)),
{
    out.push('"');
    let kc = str_chars(key.as_str());
    let n = kc.len();
    let ghost mid = out@;
    let mut i: usize = 0;
    while i < n
        invariant
            n == kc@.len(),
            kc@ == key@,
            i <= n,
            out@ == mid + escape(key@.take(i as int)),
        decreases n - i,
    {
        let c = kc[i];
        proof {
            assert(key@.take(i + 1).drop_last() =~= key@.take(i as int));
            assert(key@.take(i + 1).last() == key@[i as int]);
        }
        if c == '"' || c == '\\' {
            out.push('\\');
            out.push(c);
        } else {
            out.push(c);
        }
        proof {
            assert(out@ =~= mid + escape(key@.take(i + 1)));
        }
        i = i + 1;
    }
    proof {
        assert(key@.take(n as int) =~= key@);
    }
    out.push('"');
    out.push(':');
    push_price(out, v);
    proof {
        assert(out@ =~= old(out)@ + pair_text((key@, v)));
    }
}

/// Renders an entry list as the snapshot document.
pub fn render_snapshot(entries: &Vec<(String, i64)>) -> (r: String)
    ensures
        r@ == json_of(pair_views(entries@)),
{
    let ghost es = pair_views(entries@);
    let mut out: Vec<char> = Vec::new();
    out.push('{');
    let n = entries.len();
    let mut i: usize = 0;
    while i < n
        invariant
            n == entries@.len(),
            es == pair_views(entries@),
            i <= n,
            out@ == seq!['{'] + pairs_text(es.take(i as int)),
        decreases n - i,
    {
        if i > 0 {
            out.push(',');
        }
        push_pair(&mut out, &entries[i].0, entries[i].1);
        proof {
            lemma_pairs_text_snoc(es, i as int);
            assert(es[i as int] == (entries@[i as int].0@, entries@[i as int].1));
            assert(pairs_text(seq![es[i as int]]) == pair_text(es[i as int])) by {
                assert(seq![es[i as int]].len() == 1);
                assert(seq![es[i as int]][0] == es[i as int]);
            }
            if i == 0 {
                assert(es.take(0int) =~= Seq::<(Seq<char>, i64)>::empty());
                assert(pairs_text(es.take(0int)) =~= Seq::<char>::empty());
            }
            assert(out@ =~= seq!['{'] + pairs_text(es.take(i + 1)));
        }
        i = i + 1;
    }
    out.push('}');
    proof {
        assert(es.take(n as int) =~= es);
        assert(out@ =~= json_of(es));
    }
    chars_to_string(&out)
}

/// Parses a snapshot document into its entry list, strictly.
pub fn parse_snapshot(s: &str) -> (r: Result<Vec<(String, i64)>, CorruptSnapshot>)
    ensures
        match r {
            Ok(ps) => json_parse(s@) == Some(pair_views(ps@)),
            Err(_) => json_parse(s@) is None,
        },
{
    let v = str_chars(s);
    let n = v.len();
    if n < 2 || v[0] != '{' {
        return Err(CorruptSnapshot);
    }
    if n == 2 {
        if v[1] == '}' {
            let out: Vec<(String, i64)> = Vec::new();
            proof {
                assert(pair_views(out@) =~= Seq::<(Seq<char>, i64)>::empty());
            }
            return Ok(out);
        } else {
            proof {
                if s@[1] == '"' {
                    assert(str_end(s@, 2) == -1);
                }
            }
            return Err(CorruptSnapshot);
        }
    }
    let mut acc: Vec<(String, i64)> = Vec::new();
    proof {
        assert(pair_views(acc@) =~= Seq::<(Seq<char>, i64)>::empty());
    }
    let mut cur: usize = 1;
    loop
        invariant
            v@ == s@,
            n == v@.len(),
            n > 2,
            1 <= cur <= n,
            json_parse(s@) == parse_pairs_from(s@, cur as int, pair_views(acc@)),
        decreases n - cur,
    {
        if cur >= n || v[cur] != '"' {
            return Err(CorruptSnapshot);
        }
        // find the closing quote of the key
        let mut j: usize = cur + 1;
        loop
            invariant
                v@ == s@,
                n == v@.len(),
                1 <= cur < n,
                s@[cur as int] == '"',
                json_parse(s@) == parse_pairs_from(s@, cur as int, pair_views(acc@)),
                cur + 1 <= j <= n,
                str_end(s@, cur + 1) == str_end(s@, j as int),
            ensures
                j < n,
                s@[j as int] == '"',
                str_end(s@, cur + 1) == j,
            decreases n - j,
        {
            if j >= n {
                return Err(CorruptSnapshot);
            }
            if v[j] == '"' {
                break ;
            }
            if v[j] == '\\' {
                if j + 1 < n && (v[j + 1] == '"' || v[j + 1] == '\\') {
                    j = j + 2;
                } else {
                    return Err(CorruptSnapshot);
                }
            } else {
                j = j + 1;
            }
        }
        let e = j;
        // unescape the key body
        let mut key: Vec<char> = Vec::new();
        let mut u: usize = cur + 1;
        while u < e
            invariant
                v@ == s@,
                n == v@.len(),
                e < n,
                cur + 1 <= u,
                u <= e || u == e + 1,
                unescape_from(s@, cur + 1, e as int, Seq::empty()) == unescape_from(
                    s@,
                    u as int,
                    e as int,
                    key@,
                ),
            decreases e - u,
        {
            let c = v[u];
            if c == '\\' && u + 1 < e {
                key.push(v[u + 1]);
                u = u + 2;
            } else {
                key.push(c);
                u = u + 1;
            }
        }
        proof {
            assert(unescape_from(s@, u as int, e as int, key@) == key@);
        }
        // the colon
        if e + 1 >= n {
            proof {
                if s@[e as int + 1] == ':' {
                    assert(val_end(s@, e as int + 2) == -1);
                }
            }
            return Err(CorruptSnapshot);
        }
        if v[e + 1] != ':' {
            return Err(CorruptSnapshot);
        }
        // the value text runs to the next delimiter
        let mut w: usize = e + 2;
        while w < n && v[w] != ',' && v[w] != '}'
            invariant
                v@ == s@,
                n == v@.len(),
                e + 2 <= w <= n,
                val_end(s@, e as int + 2) == val_end(s@, w as int),
            decreases n - w,
        {
            w = w + 1;
        }
        if w >= n {
            proof {
                assert(val_end(s@, w as int) == -1);
            }
            return Err(CorruptSnapshot);
        }
        let ve = w;
        proof {
            assert(val_end(s@, e as int + 2) == ve);
        }
        let price = match parse_price_span(v.as_slice(), e + 2, ve) {
            Some(p) => p,
            None => {
                return Err(CorruptSnapshot);
            },
        };
        let kstr = chars_to_string(&key);
        let ghost before = pair_views(acc@);
        acc.push((kstr, price));
        proof {
            assert(pair_views(acc@) =~= before.push((key@, price)));
        }
        if v[ve] == '}' {
            if ve == n - 1 {
                return Ok(acc);
            } else {
                return Err(CorruptSnapshot);
            }
        } else {
            cur = ve + 1;
        }
    }
}

} // verus!
