//! The durable snapshot format. Rule sets are persisted as a JSON array of
//! `{"name":…,"id":…,"parameters":{…}}` objects, the memory as a JSON object
//! of key/value strings, and a rule push arriving on the control topic
//! carries one such instance object as its payload. Encoding and parsing are
//! defined here over plain bytes, with the parse of every encoding proved to
//! give back the encoded value; a parse that fails yields `None`, which
//! callers treat as an empty snapshot, never as a crash.
//!
//! The parser is strict: it accepts exactly the bytes the encoder produces
//! (fixed key order, no interleaved whitespace). Inside strings, `"` and `\`
//! are escaped with a backslash; every other byte stands for itself.

use vstd::prelude::*;

use crate::memory::pairs_view;
use crate::ruleset::{InstView, RuleInstance, rules_view};

verus! {

/// The byte `"`.
pub const QUOTE: u8 = 34;

/// The byte `\`.
pub const BACKSLASH: u8 = 92;

/// The byte `{`.
pub const LBRACE: u8 = 123;

/// The byte `}`.
pub const RBRACE: u8 = 125;

/// The byte `[`.
pub const LBRACKET: u8 = 91;

/// The byte `]`.
pub const RBRACKET: u8 = 93;

/// The byte `,`.
pub const COMMA: u8 = 44;

/// The byte `:`.
pub const COLON: u8 = 58;

/// The escaped form of one payload byte.
pub open spec fn esc_byte(c: u8) -> Seq<u8> {
    if c == QUOTE || c == BACKSLASH {
        seq![BACKSLASH, c]
    } else {
        seq![c]
    }
}

/// The escaped form of a payload: each byte in order, escaped.
pub open spec fn esc(s: Seq<u8>) -> Seq<u8>
    decreases s.len(),
{
    if s.len() == 0 {
        Seq::<u8>::empty()
    } else {
        esc_byte(s[0]) + esc(s.skip(1))
    }
}

/// A payload as a quoted JSON string.
pub open spec fn enc_string(s: Seq<u8>) -> Seq<u8> {
    seq![QUOTE] + esc(s) + seq![QUOTE]
}

/// Escaping distributes over appending one byte.
pub proof fn lemma_esc_snoc(s: Seq<u8>, c: u8)
    ensures
        esc(s.push(c)) == esc(s) + esc_byte(c),
    decreases s.len(),
{
    if s.len() == 0 {
        assert(s.push(c).skip(1) =~= Seq::<u8>::empty());
        assert(s.push(c)[0] == c);
        assert(esc_byte(c) + esc(Seq::<u8>::empty()) =~= esc(s) + esc_byte(c));
    } else {
        assert(s.push(c).skip(1) =~= s.skip(1).push(c));
        lemma_esc_snoc(s.skip(1), c);
        assert(esc_byte(s[0]) + (esc(s.skip(1)) + esc_byte(c)) =~= (esc_byte(s[0]) + esc(
            s.skip(1),
        )) + esc_byte(c));
        assert(s.push(c)[0] == s[0]);
    }
}

/// True iff `t` occupies the bytes of `s` that start at `i`.
pub open spec fn holds_at(s: Seq<u8>, i: int, t: Seq<u8>) -> bool {
    &&& 0 <= i
    &&& i + t.len() <= s.len()
    &&& s.subrange(i, i + t.len() as int) == t
}

/// A byte string found at `i` is found piecewise: its first part at `i` and
/// its second part right after.
pub proof fn lemma_holds_split(s: Seq<u8>, i: int, a: Seq<u8>, b: Seq<u8>)
    requires
        holds_at(s, i, a + b),
    ensures
        holds_at(s, i, a),
        holds_at(s, i + a.len(), b),
{
    assert(s.subrange(i, i + a.len() as int) =~= a) by {
        assert forall|k: int| 0 <= k < a.len() implies s.subrange(i, i + a.len() as int)[k] == a[k]
            by {
            assert(s.subrange(i, i + (a + b).len() as int)[k] == (a + b)[k]);
        }
    }
    assert(s.subrange(i + a.len(), i + a.len() + b.len() as int) =~= b) by {
        assert forall|k: int|
            0 <= k < b.len() implies s.subrange(i + a.len(), i + a.len() + b.len() as int)[k]
            == b[k] by {
            assert(s.subrange(i, i + (a + b).len() as int)[a.len() + k] == (a + b)[a.len() + k]);
        }
    }
}

/// Every byte of a string found at `i` is the byte of `s` under it.
pub proof fn lemma_holds_index(s: Seq<u8>, i: int, t: Seq<u8>, k: int)
    requires
        holds_at(s, i, t),
        0 <= k < t.len(),
    ensures
        s[i + k] == t[k],
{
    assert(s.subrange(i, i + t.len() as int)[k] == t[k]);
}

/// Parses the tail of a quoted string at `i` (the opening quote already
/// consumed): the unescaped payload and the position after the closing
/// quote.
pub open spec fn p_chars(s: Seq<u8>, i: int) -> Option<(Seq<u8>, int)>
    decreases s.len() - i,
{
    if i < 0 || i >= s.len() {
        None
    } else if s[i] == QUOTE {
        Some((Seq::<u8>::empty(), i + 1))
    } else if s[i] == BACKSLASH {
        if i + 1 < s.len() && (s[i + 1] == QUOTE || s[i + 1] == BACKSLASH) {
            match p_chars(s, i + 2) {
                Some((v, j)) => Some((seq![s[i + 1]] + v, j)),
                None => None,
            }
        } else {
            None
        }
    } else {
        match p_chars(s, i + 1) {
            Some((v, j)) => Some((seq![s[i]] + v, j)),
            None => None,
        }
    }
}

/// Parses a quoted string at `i`.
pub open spec fn p_string(s: Seq<u8>, i: int) -> Option<(Seq<u8>, int)> {
    if 0 <= i < s.len() && s[i] == QUOTE {
        p_chars(s, i + 1)
    } else {
        None
    }
}

/// Demands the literal `lit` at `i`: the position after it, when present.
pub open spec fn p_lit(s: Seq<u8>, i: int, lit: Seq<u8>) -> Option<int> {
    if holds_at(s, i, lit) {
        Some(i + lit.len() as int)
    } else {
        None
    }
}

/// Parsing the tail of a string gives back exactly the payload the encoder
/// escaped, and stops right after the closing quote.
pub proof fn lemma_chars_round_trip(s: Seq<u8>, i: int, v: Seq<u8>)
    requires
        holds_at(s, i, esc(v) + seq![QUOTE]),
    ensures
        p_chars(s, i) == Some((v, i + esc(v).len() + 1)),
    decreases v.len(),
{
    if v.len() == 0 {
        lemma_holds_index(s, i, esc(v) + seq![QUOTE], 0);
        assert(s[i] == QUOTE);
        assert(v =~= Seq::<u8>::empty());
    } else {
        let c = v[0];
        let rest = v.skip(1);
        assert(esc(v) == esc_byte(c) + esc(rest));
        if c == QUOTE || c == BACKSLASH {
            assert(esc_byte(c) =~= seq![BACKSLASH, c]);
            assert(esc(v) + seq![QUOTE] =~= seq![BACKSLASH, c] + (esc(rest) + seq![QUOTE]));
            lemma_holds_split(s, i, seq![BACKSLASH, c], esc(rest) + seq![QUOTE]);
            lemma_holds_index(s, i, seq![BACKSLASH, c], 0);
            lemma_holds_index(s, i, seq![BACKSLASH, c], 1);
            assert(s[i] == BACKSLASH && s[i + 1] == c);
            lemma_chars_round_trip(s, i + 2, rest);
            assert(seq![s[i + 1]] + rest =~= v);
        } else {
            assert(esc_byte(c) =~= seq![c]);
            assert(esc(v) + seq![QUOTE] =~= seq![c] + (esc(rest) + seq![QUOTE]));
            lemma_holds_split(s, i, seq![c], esc(rest) + seq![QUOTE]);
            lemma_holds_index(s, i, seq![c], 0);
            assert(s[i] == c);
            lemma_chars_round_trip(s, i + 1, rest);
            assert(seq![s[i]] + rest =~= v);
        }
    }
}

/// Parsing a quoted string gives back exactly the payload the encoder
/// quoted, and stops right after it.
pub proof fn lemma_string_round_trip(s: Seq<u8>, i: int, v: Seq<u8>)
    requires
        holds_at(s, i, enc_string(v)),
    ensures
        p_string(s, i) == Some((v, i + enc_string(v).len())),
{
    assert(enc_string(v) =~= seq![QUOTE] + (esc(v) + seq![QUOTE]));
    lemma_holds_split(s, i, seq![QUOTE], esc(v) + seq![QUOTE]);
    lemma_holds_index(s, i, seq![QUOTE], 0);
    assert(s[i] == QUOTE);
    lemma_chars_round_trip(s, i + 1, v);
}

/// A literal found at `i` is accepted there.
pub proof fn lemma_lit_round_trip(s: Seq<u8>, i: int, lit: Seq<u8>)
    requires
        holds_at(s, i, lit),
    ensures
        p_lit(s, i, lit) == Some(i + lit.len() as int),
{
}

/// Appends the literal `lit` to `out`.
fn push_lit(out: &mut Vec<u8>, lit: &Vec<u8>)
    ensures
        final(out)@ == old(out)@ + lit@,
{
    crate::bytestr::push_bytes(out, lit);
}

/// Appends the quoted, escaped form of `s` to `out`.
fn encode_string_into(out: &mut Vec<u8>, s: &Vec<u8>)
    ensures
        final(out)@ == old(out)@ + enc_string(s@),
{
    let ghost base = out@;
    out.push(QUOTE);
    let n = s.len();
    let mut i: usize = 0;
    proof {
        assert(esc(s@.take(0)) =~= Seq::<u8>::empty());
        assert(out@ =~= base + seq![QUOTE] + esc(s@.take(0)));
    }
    while i < n
        invariant
            0 <= i <= n,
            n == s@.len(),
            out@ == base + seq![QUOTE] + esc(s@.take(i as int)),
        decreases n - i,
    {
        let c = s[i];
        proof {
            assert(s@.take(i + 1) =~= s@.take(i as int).push(c));
            lemma_esc_snoc(s@.take(i as int), c);
        }
        if c == QUOTE || c == BACKSLASH {
            out.push(BACKSLASH);
            out.push(c);
            proof {
                assert(esc_byte(c) =~= seq![BACKSLASH, c]);
                assert(out@ =~= base + seq![QUOTE] + esc(s@.take(i + 1)));
            }
        } else {
            out.push(c);
            proof {
                assert(esc_byte(c) =~= seq![c]);
                assert(out@ =~= base + seq![QUOTE] + esc(s@.take(i + 1)));
            }
        }
        i += 1;
    }
    out.push(QUOTE);
    proof {
        assert(s@.take(n as int) =~= s@);
        assert(out@ =~= base + enc_string(s@));
    }
}

/// Demands the literal `lit` at `i` of `s`; `Some` holds the position after
/// it.
fn expect_lit(s: &Vec<u8>, i: usize, lit: &Vec<u8>) -> (r: Option<usize>)
    ensures
        match r {
            Some(j) => p_lit(s@, i as int, lit@) == Some(j as int) && i <= j <= s@.len(),
            None => p_lit(s@, i as int, lit@) is None,
        },
{
    let n = lit.len();
    if i > s.len() || n > s.len() - i {
        proof {
            assert(!holds_at(s@, i as int, lit@));
        }
        return None;
    }
    let mut k: usize = 0;
    while k < n
        invariant
            0 <= k <= n,
            n == lit@.len(),
            i + n <= s@.len(),
            forall|m: int| 0 <= m < k ==> s@[i + m] == lit@[m],
        decreases n - k,
    {
        if s[i + k] != lit[k] {
            proof {
                assert(!holds_at(s@, i as int, lit@)) by {
                    if holds_at(s@, i as int, lit@) {
                        lemma_holds_index(s@, i as int, lit@, k as int);
                    }
                }
            }
            return None;
        }
        k += 1;
    }
    proof {
        assert(s@.subrange(i as int, i + n) =~= lit@);
    }
    Some(i + n)
}

/// Parses the tail of a quoted string at `start` (opening quote already
/// consumed): the unescaped payload and the position after the closing
/// quote.
fn parse_chars(s: &Vec<u8>, start: usize) -> (r: Option<(Vec<u8>, usize)>)
    ensures
        match r {
            Some(v) => p_chars(s@, start as int) == Some((v.0@, v.1 as int)) && start < v.1
                <= s@.len(),
            None => p_chars(s@, start as int) is None,
        },
{
    let mut acc: Vec<u8> = Vec::new();
    let mut i: usize = start;
    loop
        invariant
            start <= i,
            p_chars(s@, start as int) == match p_chars(s@, i as int) {
                Some((v, j)) => Some((acc@ + v, j)),
                None => None::<(Seq<u8>, int)>,
            },
        decreases s@.len() - i,
    {
        if i >= s.len() {
            return None;
        }
        let c = s[i];
        if c == QUOTE {
            proof {
                assert(acc@ + Seq::<u8>::empty() =~= acc@);
            }
            return Some((acc, i + 1));
        }
        if c == BACKSLASH {
            if i + 1 < s.len() {
                let c2 = s[i + 1];
                if c2 == QUOTE || c2 == BACKSLASH {
                    let ghost acc0 = acc@;
                    acc.push(c2);
                    proof {
                        match p_chars(s@, i + 2) {
                            Some((v, j)) => {
                                assert(acc0.push(c2) + v =~= acc0 + (seq![c2] + v));
                            },
                            None => {},
                        }
                    }
                    i += 2;
                } else {
                    return None;
                }
            } else {
                return None;
            }
        } else {
            let ghost acc0 = acc@;
            acc.push(c);
            proof {
                match p_chars(s@, i + 1) {
                    Some((v, j)) => {
                        assert(acc0.push(c) + v =~= acc0 + (seq![c] + v));
                    },
                    None => {},
                }
            }
            i += 1;
        }
    }
}

/// Parses a quoted string at `i`.
fn parse_string(s: &Vec<u8>, i: usize) -> (r: Option<(Vec<u8>, usize)>)
    ensures
        match r {
            Some(v) => p_string(s@, i as int) == Some((v.0@, v.1 as int)) && i < v.1 <= s@.len(),
            None => p_string(s@, i as int) is None,
        },
{
    if i < s.len() && s[i] == QUOTE {
        parse_chars(s, i + 1)
    } else {
        None
    }
}

/// One key/value pair as `"key":"value"`.
pub open spec fn enc_pair(k: Seq<u8>, v: Seq<u8>) -> Seq<u8> {
    enc_string(k) + seq![COLON] + enc_string(v)
}

/// Every pair after the first of an object body, each led by a comma.
pub open spec fn enc_pairs_rest(s: Seq<(Seq<u8>, Seq<u8>)>) -> Seq<u8>
    decreases s.len(),
{
    if s.len() == 0 {
        Seq::<u8>::empty()
    } else {
        seq![COMMA] + enc_pair(s[0].0, s[0].1) + enc_pairs_rest(s.skip(1))
    }
}

/// A pair list as a JSON object, pairs in order.
pub open spec fn enc_object(s: Seq<(Seq<u8>, Seq<u8>)>) -> Seq<u8> {
    if s.len() == 0 {
        seq![LBRACE, RBRACE]
    } else {
        seq![LBRACE] + enc_pair(s[0].0, s[0].1) + enc_pairs_rest(s.skip(1)) + seq![RBRACE]
    }
}

/// Parses one `"key":"value"` pair at `i`.
pub open spec fn p_pair(s: Seq<u8>, i: int) -> Option<((Seq<u8>, Seq<u8>), int)> {
    match p_string(s, i) {
        Some((k, j)) => match p_lit(s, j, seq![COLON]) {
            Some(j2) => match p_string(s, j2) {
                Some((v, j3)) => Some(((k, v), j3)),
                None => None,
            },
            None => None,
        },
        None => None,
    }
}

/// Parses the pairs after the first of an object body, up to and over the
/// closing brace.
pub open spec fn p_pairs_rest(s: Seq<u8>, i: int) -> Option<(Seq<(Seq<u8>, Seq<u8>)>, int)>
    decreases s.len() - i,
{
    if i < 0 || i >= s.len() {
        None
    } else if s[i] == RBRACE {
        Some((Seq::<(Seq<u8>, Seq<u8>)>::empty(), i + 1))
    } else if s[i] == COMMA {
        match p_pair(s, i + 1) {
            Some((p, j)) => if i + 1 < j && j <= s.len() {
                match p_pairs_rest(s, j) {
                    Some((ps, j2)) => Some((seq![p] + ps, j2)),
                    None => None,
                }
            } else {
                None
            },
            None => None,
        }
    } else {
        None
    }
}

/// Parses a JSON object of string pairs at `i`.
pub open spec fn p_object(s: Seq<u8>, i: int) -> Option<(Seq<(Seq<u8>, Seq<u8>)>, int)> {
    match p_lit(s, i, seq![LBRACE]) {
        Some(j) => if j < s.len() && s[j] == RBRACE {
            Some((Seq::<(Seq<u8>, Seq<u8>)>::empty(), j + 1))
        } else {
            match p_pair(s, j) {
                Some((p, j2)) => if j < j2 && j2 <= s.len() {
                    match p_pairs_rest(s, j2) {
                        Some((ps, j3)) => Some((seq![p] + ps, j3)),
                        None => None,
                    }
                } else {
                    None
                },
                None => None,
            }
        },
        None => None,
    }
}

/// Parsing a pair gives back exactly what the encoder wrote.
pub proof fn lemma_pair_round_trip(s: Seq<u8>, i: int, k: Seq<u8>, v: Seq<u8>)
    requires
        holds_at(s, i, enc_pair(k, v)),
    ensures
        p_pair(s, i) == Some(((k, v), i + enc_pair(k, v).len())),
{
    assert(enc_pair(k, v) =~= enc_string(k) + (seq![COLON] + enc_string(v)));
    lemma_holds_split(s, i, enc_string(k), seq![COLON] + enc_string(v));
    lemma_string_round_trip(s, i, k);
    let j = i + enc_string(k).len();
    lemma_holds_split(s, j, seq![COLON], enc_string(v));
    lemma_lit_round_trip(s, j, seq![COLON]);
    lemma_string_round_trip(s, j + 1, v);
}

/// Parsing the tail of an object body gives back exactly the pairs the
/// encoder wrote, and stops right after the closing brace.
pub proof fn lemma_pairs_rest_round_trip(s: Seq<u8>, i: int, ps: Seq<(Seq<u8>, Seq<u8>)>)
    requires
        holds_at(s, i, enc_pairs_rest(ps) + seq![RBRACE]),
    ensures
        p_pairs_rest(s, i) == Some((ps, i + enc_pairs_rest(ps).len() + 1)),
    decreases ps.len(),
{
    if ps.len() == 0 {
        lemma_holds_index(s, i, enc_pairs_rest(ps) + seq![RBRACE], 0);
        assert(s[i] == RBRACE);
        assert(ps =~= Seq::<(Seq<u8>, Seq<u8>)>::empty());
    } else {
        let k = ps[0].0;
        let v = ps[0].1;
        let ep = enc_pair(k, v);
        let rest = enc_pairs_rest(ps.skip(1));
        assert(enc_pairs_rest(ps) + seq![RBRACE] =~= seq![COMMA] + (ep + (rest + seq![RBRACE])));
        lemma_holds_split(s, i, seq![COMMA], ep + (rest + seq![RBRACE]));
        lemma_holds_index(s, i, seq![COMMA], 0);
        assert(s[i] == COMMA);
        lemma_holds_split(s, i + 1, ep, rest + seq![RBRACE]);
        lemma_pair_round_trip(s, i + 1, k, v);
        let j = i + 1 + ep.len();
        assert(ep.len() > 0);
        lemma_pairs_rest_round_trip(s, j, ps.skip(1));
        assert((ps[0].0, ps[0].1) == ps[0]);
        assert(seq![ps[0]] + ps.skip(1) =~= ps);
    }
}

/// Parsing an object gives back exactly the pairs the encoder wrote.
pub proof fn lemma_object_round_trip(s: Seq<u8>, i: int, ps: Seq<(Seq<u8>, Seq<u8>)>)
    requires
        holds_at(s, i, enc_object(ps)),
    ensures
        p_object(s, i) == Some((ps, i + enc_object(ps).len())),
{
    if ps.len() == 0 {
        assert(enc_object(ps) =~= seq![LBRACE] + seq![RBRACE]);
        lemma_holds_split(s, i, seq![LBRACE], seq![RBRACE]);
        lemma_lit_round_trip(s, i, seq![LBRACE]);
        lemma_holds_index(s, i + 1, seq![RBRACE], 0);
        assert(s[i + 1] == RBRACE);
        assert(ps =~= Seq::<(Seq<u8>, Seq<u8>)>::empty());
    } else {
        let k = ps[0].0;
        let v = ps[0].1;
        let ep = enc_pair(k, v);
        let rest = enc_pairs_rest(ps.skip(1));
        assert(enc_object(ps) =~= seq![LBRACE] + (ep + (rest + seq![RBRACE])));
        lemma_holds_split(s, i, seq![LBRACE], ep + (rest + seq![RBRACE]));
        lemma_lit_round_trip(s, i, seq![LBRACE]);
        lemma_holds_split(s, i + 1, ep, rest + seq![RBRACE]);
        lemma_pair_round_trip(s, i + 1, k, v);
        assert(holds_at(s, i + 1, enc_string(k) + (seq![COLON] + enc_string(v)))) by {
            assert(ep =~= enc_string(k) + (seq![COLON] + enc_string(v)));
        }
        lemma_holds_split(s, i + 1, enc_string(k), seq![COLON] + enc_string(v));
        lemma_holds_index(s, i + 1, enc_string(k), 0);
        assert(s[i + 1] == QUOTE);
        let j = i + 1 + ep.len();
        assert(ep.len() > 0);
        lemma_pairs_rest_round_trip(s, j, ps.skip(1));
        assert((ps[0].0, ps[0].1) == ps[0]);
        assert(seq![ps[0]] + ps.skip(1) =~= ps);
    }
}

/// Appends `"key":"value"` to `out`.
fn encode_pair_into(out: &mut Vec<u8>, k: &Vec<u8>, v: &Vec<u8>)
    ensures
        final(out)@ == old(out)@ + enc_pair(k@, v@),
{
    encode_string_into(out, k);
    out.push(COLON);
    encode_string_into(out, v);
    proof {
        assert(out@ =~= old(out)@ + enc_pair(k@, v@));
    }
}

/// Comma-led encoding distributes over appending one pair.
pub proof fn lemma_pairs_rest_snoc(s: Seq<(Seq<u8>, Seq<u8>)>, p: (Seq<u8>, Seq<u8>))
    ensures
        enc_pairs_rest(s.push(p)) == enc_pairs_rest(s) + seq![COMMA] + enc_pair(p.0, p.1),
    decreases s.len(),
{
    if s.len() == 0 {
        assert(s.push(p).skip(1) =~= Seq::<(Seq<u8>, Seq<u8>)>::empty());
        assert(s.push(p)[0] == p);
        assert(enc_pairs_rest(s.push(p).skip(1)) == Seq::<u8>::empty());
        assert(seq![COMMA] + enc_pair(p.0, p.1) + Seq::<u8>::empty() =~= enc_pairs_rest(s)
            + seq![COMMA] + enc_pair(p.0, p.1));
    } else {
        assert(s.push(p).skip(1) =~= s.skip(1).push(p));
        lemma_pairs_rest_snoc(s.skip(1), p);
        assert(enc_pairs_rest(s.push(p).skip(1)) == enc_pairs_rest(s.skip(1)) + seq![COMMA]
            + enc_pair(p.0, p.1));
        assert(s.push(p)[0] == s[0]);
        assert(seq![COMMA] + enc_pair(s[0].0, s[0].1) + (enc_pairs_rest(s.skip(1)) + seq![COMMA]
            + enc_pair(p.0, p.1)) =~= (seq![COMMA] + enc_pair(s[0].0, s[0].1) + enc_pairs_rest(
            s.skip(1),
        )) + seq![COMMA] + enc_pair(p.0, p.1));
    }
}

/// Appends a pair list as a JSON object to `out`.
fn encode_object_into(out: &mut Vec<u8>, list: &Vec<(Vec<u8>, Vec<u8>)>)
    ensures
        final(out)@ == old(out)@ + enc_object(pairs_view(list@)),
{
    let ghost base = out@;
    let ghost ps = pairs_view(list@);
    out.push(LBRACE);
    let n = list.len();
    if n == 0 {
        out.push(RBRACE);
        proof {
            assert(out@ =~= base + enc_object(ps));
        }
        return ;
    }
    let first = &list[0];
    proof {
        assert(ps[0] == (first.0@, first.1@));
    }
    encode_pair_into(out, &first.0, &first.1);
    let mut i: usize = 1;
    proof {
        assert(ps.subrange(1, 1) =~= Seq::<(Seq<u8>, Seq<u8>)>::empty());
        assert(out@ =~= base + seq![LBRACE] + enc_pair(ps[0].0, ps[0].1) + enc_pairs_rest(
            ps.subrange(1, 1),
        ));
    }
    while i < n
        invariant
            1 <= i <= n,
            n == list@.len(),
            out@ == base + seq![LBRACE] + enc_pair(ps[0].0, ps[0].1) + enc_pairs_rest(
                ps.subrange(1, i as int),
            ),
        decreases n - i,
    {
        let pair = &list[i];
        proof {
            assert(ps[i as int] == (pair.0@, pair.1@));
            assert(ps.subrange(1, i + 1) =~= ps.subrange(1, i as int).push(ps[i as int]));
            lemma_pairs_rest_snoc(ps.subrange(1, i as int), ps[i as int]);
        }
        out.push(COMMA);
        encode_pair_into(out, &pair.0, &pair.1);
        proof {
            assert(out@ =~= base + seq![LBRACE] + enc_pair(ps[0].0, ps[0].1) + enc_pairs_rest(
                ps.subrange(1, i + 1),
            ));
        }
        i += 1;
    }
    out.push(RBRACE);
    proof {
        assert(ps.subrange(1, n as int) =~= ps.skip(1));
        assert(out@ =~= base + enc_object(ps));
    }
}

/// Parses one `"key":"value"` pair at `i`: the key, the value, and the
/// position after the pair.
fn parse_pair(s: &Vec<u8>, i: usize) -> (r: Option<(Vec<u8>, Vec<u8>, usize)>)
    ensures
        match r {
            Some(t) => p_pair(s@, i as int) == Some(((t.0@, t.1@), t.2 as int)) && i < t.2
                <= s@.len(),
            None => p_pair(s@, i as int) is None,
        },
{
    let colon: Vec<u8> = vec![COLON];
    proof {
        assert(colon@ =~= seq![COLON]);
    }
    match parse_string(s, i) {
        Some((k, j)) => match expect_lit(s, j, &colon) {
            Some(j2) => match parse_string(s, j2) {
                Some((v, j3)) => Some((k, v, j3)),
                None => None,
            },
            None => None,
        },
        None => None,
    }
}

/// Parses the pairs after the first of an object body, up to and over the
/// closing brace.
fn parse_pairs_rest(s: &Vec<u8>, start: usize) -> (r: Option<(Vec<(Vec<u8>, Vec<u8>)>, usize)>)
    ensures
        match r {
            Some(t) => p_pairs_rest(s@, start as int) == Some((pairs_view(t.0@), t.1 as int))
                && start < t.1 <= s@.len(),
            None => p_pairs_rest(s@, start as int) is None,
        },
{
    let mut acc: Vec<(Vec<u8>, Vec<u8>)> = Vec::new();
    let mut i: usize = start;
    proof {
        assert(pairs_view(acc@) =~= Seq::<(Seq<u8>, Seq<u8>)>::empty());
    }
    loop
        invariant
            start <= i,
            p_pairs_rest(s@, start as int) == match p_pairs_rest(s@, i as int) {
                Some((ps, j)) => Some((pairs_view(acc@) + ps, j)),
                None => None::<(Seq<(Seq<u8>, Seq<u8>)>, int)>,
            },
        decreases s@.len() - i,
    {
        if i >= s.len() {
            return None;
        }
        let c = s[i];
        if c == RBRACE {
            proof {
                assert(pairs_view(acc@) + Seq::<(Seq<u8>, Seq<u8>)>::empty() =~= pairs_view(acc@));
            }
            return Some((acc, i + 1));
        }
        if c != COMMA {
            return None;
        }
        match parse_pair(s, i + 1) {
            None => {
                return None;
            },
            Some((k, v, j)) => {
                let ghost acc0 = pairs_view(acc@);
                acc.push((k, v));
                proof {
                    assert(pairs_view(acc@) =~= acc0.push((k@, v@)));
                    match p_pairs_rest(s@, j as int) {
                        Some((ps, j2)) => {
                            assert(acc0.push((k@, v@)) + ps =~= acc0 + (seq![(k@, v@)] + ps));
                        },
                        None => {},
                    }
                }
                i = j;
            },
        }
    }
}

/// Parses a JSON object of string pairs at `i`: the pairs in order and the
/// position after the object.
fn parse_object(s: &Vec<u8>, i: usize) -> (r: Option<(Vec<(Vec<u8>, Vec<u8>)>, usize)>)
    ensures
        match r {
            Some(t) => p_object(s@, i as int) == Some((pairs_view(t.0@), t.1 as int)) && i < t.1
                <= s@.len(),
            None => p_object(s@, i as int) is None,
        },
{
    let lbrace: Vec<u8> = vec![LBRACE];
    proof {
        assert(lbrace@ =~= seq![LBRACE]);
    }
    match expect_lit(s, i, &lbrace) {
        None => None,
        Some(j) => {
            if j < s.len() && s[j] == RBRACE {
                let empty: Vec<(Vec<u8>, Vec<u8>)> = Vec::new();
                proof {
                    assert(pairs_view(empty@) =~= Seq::<(Seq<u8>, Seq<u8>)>::empty());
                }
                return Some((empty, j + 1));
            }
            match parse_pair(s, j) {
                None => None,
                Some((k, v, j2)) => match parse_pairs_rest(s, j2) {
                    None => None,
                    Some((mut rest, j3)) => {
                        let ghost rold = rest@;
                        let ghost rest0 = pairs_view(rest@);
                        let mut output: Vec<(Vec<u8>, Vec<u8>)> = Vec::new();
                        output.push((k, v));
                        output.append(&mut rest);
                        proof {
                            let ov = output@;
                            assert(ov =~= seq![(k, v)] + rold);
                            assert(pairs_view(ov) =~= seq![(k@, v@)] + rest0) by {
                                assert forall|m: int|
                                    0 <= m < pairs_view(ov).len() implies pairs_view(ov)[m] == (
                                seq![(k@, v@)] + rest0)[m] by {
                                    assert(pairs_view(ov)[m] == (ov[m].0@, ov[m].1@));
                                    if m > 0 {
                                        assert(ov[m] == rold[m - 1]);
                                        assert(rest0[m - 1] == (rold[m - 1].0@, rold[m - 1].1@));
                                    } else {
                                        assert(ov[0] == (k, v));
                                    }
                                }
                            }
                        }
                        Some((output, j3))
                    },
                },
            }
        },
    }
}

/// The literal `{"name":` that opens an instance object.
pub open spec fn lit_head() -> Seq<u8> {
    seq![LBRACE, QUOTE, 110u8, 97, 109, 101, QUOTE, COLON]
}

/// The literal `,"id":` between the name and the id.
pub open spec fn lit_mid_id() -> Seq<u8> {
    seq![COMMA, QUOTE, 105u8, 100, QUOTE, COLON]
}

/// The literal `,"parameters":` between the id and the parameters.
pub open spec fn lit_mid_params() -> Seq<u8> {
    seq![COMMA, QUOTE, 112u8, 97, 114, 97, 109, 101, 116, 101, 114, 115, QUOTE, COLON]
}

/// The literal `{"name":` as a byte string.
fn lit_head_vec() -> (r: Vec<u8>)
    ensures
        r@ == lit_head(),
{
    let r: Vec<u8> = vec![LBRACE, QUOTE, 110u8, 97, 109, 101, QUOTE, COLON];
    proof {
        assert(r@ =~= lit_head());
    }
    r
}

/// The literal `,"id":` as a byte string.
fn lit_mid_id_vec() -> (r: Vec<u8>)
    ensures
        r@ == lit_mid_id(),
{
    let r: Vec<u8> = vec![COMMA, QUOTE, 105u8, 100, QUOTE, COLON];
    proof {
        assert(r@ =~= lit_mid_id());
    }
    r
}

/// The literal `,"parameters":` as a byte string.
fn lit_mid_params_vec() -> (r: Vec<u8>)
    ensures
        r@ == lit_mid_params(),
{
    let r: Vec<u8> = vec![COMMA, QUOTE, 112u8, 97, 114, 97, 109, 101, 116, 101, 114, 115, QUOTE, COLON];
    proof {
        assert(r@ =~= lit_mid_params());
    }
    r
}

/// A rule instance as `{"name":…,"id":…,"parameters":{…}}`.
pub open spec fn enc_inst(v: InstView) -> Seq<u8> {
    lit_head() + enc_string(v.name) + lit_mid_id() + enc_string(v.id) + lit_mid_params()
        + enc_object(v.params) + seq![RBRACE]
}

/// Every instance after the first of a rule list, each led by a comma.
pub open spec fn enc_insts_rest(s: Seq<InstView>) -> Seq<u8>
    decreases s.len(),
{
    if s.len() == 0 {
        Seq::<u8>::empty()
    } else {
        seq![COMMA] + enc_inst(s[0]) + enc_insts_rest(s.skip(1))
    }
}

/// An instance list as a JSON array, instances in order.
pub open spec fn enc_rules(s: Seq<InstView>) -> Seq<u8> {
    if s.len() == 0 {
        seq![LBRACKET, RBRACKET]
    } else {
        seq![LBRACKET] + enc_inst(s[0]) + enc_insts_rest(s.skip(1)) + seq![RBRACKET]
    }
}

/// Parses one instance object at `i`.
pub open spec fn p_inst(s: Seq<u8>, i: int) -> Option<(InstView, int)> {
    match p_lit(s, i, lit_head()) {
        Some(j) => match p_string(s, j) {
            Some((name, j1)) => match p_lit(s, j1, lit_mid_id()) {
                Some(j2) => match p_string(s, j2) {
                    Some((id, j3)) => match p_lit(s, j3, lit_mid_params()) {
                        Some(j4) => match p_object(s, j4) {
                            Some((ps, j5)) => match p_lit(s, j5, seq![RBRACE]) {
                                Some(j6) => Some(
                                    (InstView { name, id, params: ps }, j6),
                                ),
                                None => None,
                            },
                            None => None,
                        },
                        None => None,
                    },
                    None => None,
                },
                None => None,
            },
            None => None,
        },
        None => None,
    }
}

/// Parses the instances after the first of a rule list, up to and over the
/// closing bracket.
pub open spec fn p_insts_rest(s: Seq<u8>, i: int) -> Option<(Seq<InstView>, int)>
    decreases s.len() - i,
{
    if i < 0 || i >= s.len() {
        None
    } else if s[i] == RBRACKET {
        Some((Seq::<InstView>::empty(), i + 1))
    } else if s[i] == COMMA {
        match p_inst(s, i + 1) {
            Some((v, j)) => if i + 1 < j && j <= s.len() {
                match p_insts_rest(s, j) {
                    Some((vs, j2)) => Some((seq![v] + vs, j2)),
                    None => None,
                }
            } else {
                None
            },
            None => None,
        }
    } else {
        None
    }
}

/// Parses a JSON array of instance objects at `i`.
pub open spec fn p_rules(s: Seq<u8>, i: int) -> Option<(Seq<InstView>, int)> {
    match p_lit(s, i, seq![LBRACKET]) {
        Some(j) => if j < s.len() && s[j] == RBRACKET {
            Some((Seq::<InstView>::empty(), j + 1))
        } else {
            match p_inst(s, j) {
                Some((v, j2)) => if j < j2 && j2 <= s.len() {
                    match p_insts_rest(s, j2) {
                        Some((vs, j3)) => Some((seq![v] + vs, j3)),
                        None => None,
                    }
                } else {
                    None
                },
                None => None,
            }
        },
        None => None,
    }
}

/// Parsing an instance object gives back exactly the instance the encoder
/// wrote.
pub proof fn lemma_inst_round_trip(s: Seq<u8>, i: int, v: InstView)
    requires
        holds_at(s, i, enc_inst(v)),
    ensures
        p_inst(s, i) == Some((v, i + enc_inst(v).len())),
{
    assert(enc_inst(v) =~= lit_head() + (enc_string(v.name) + (lit_mid_id() + (enc_string(v.id)
        + (lit_mid_params() + (enc_object(v.params) + seq![RBRACE]))))));
    lemma_holds_split(
        s,
        i,
        lit_head(),
        enc_string(v.name) + (lit_mid_id() + (enc_string(v.id) + (lit_mid_params() + (enc_object(
            v.params,
        ) + seq![RBRACE])))),
    );
    lemma_lit_round_trip(s, i, lit_head());
    let j = i + lit_head().len();
    lemma_holds_split(
        s,
        j,
        enc_string(v.name),
        lit_mid_id() + (enc_string(v.id) + (lit_mid_params() + (enc_object(v.params)
            + seq![RBRACE]))),
    );
    lemma_string_round_trip(s, j, v.name);
    let j1 = j + enc_string(v.name).len();
    lemma_holds_split(
        s,
        j1,
        lit_mid_id(),
        enc_string(v.id) + (lit_mid_params() + (enc_object(v.params) + seq![RBRACE])),
    );
    lemma_lit_round_trip(s, j1, lit_mid_id());
    let j2 = j1 + lit_mid_id().len();
    lemma_holds_split(
        s,
        j2,
        enc_string(v.id),
        lit_mid_params() + (enc_object(v.params) + seq![RBRACE]),
    );
    lemma_string_round_trip(s, j2, v.id);
    let j3 = j2 + enc_string(v.id).len();
    lemma_holds_split(s, j3, lit_mid_params(), enc_object(v.params) + seq![RBRACE]);
    lemma_lit_round_trip(s, j3, lit_mid_params());
    let j4 = j3 + lit_mid_params().len();
    lemma_holds_split(s, j4, enc_object(v.params), seq![RBRACE]);
    lemma_object_round_trip(s, j4, v.params);
    let j5 = j4 + enc_object(v.params).len();
    lemma_lit_round_trip(s, j5, seq![RBRACE]);
    assert((InstView { name: v.name, id: v.id, params: v.params }) =~= v);
}

/// Parsing the tail of a rule list gives back exactly the instances the
/// encoder wrote, and stops right after the closing bracket.
pub proof fn lemma_insts_rest_round_trip(s: Seq<u8>, i: int, vs: Seq<InstView>)
    requires
        holds_at(s, i, enc_insts_rest(vs) + seq![RBRACKET]),
    ensures
        p_insts_rest(s, i) == Some((vs, i + enc_insts_rest(vs).len() + 1)),
    decreases vs.len(),
{
    if vs.len() == 0 {
        lemma_holds_index(s, i, enc_insts_rest(vs) + seq![RBRACKET], 0);
        assert(s[i] == RBRACKET);
        assert(vs =~= Seq::<InstView>::empty());
    } else {
        let ei = enc_inst(vs[0]);
        let rest = enc_insts_rest(vs.skip(1));
        assert(enc_insts_rest(vs) + seq![RBRACKET] =~= seq![COMMA] + (ei + (rest
            + seq![RBRACKET])));
        lemma_holds_split(s, i, seq![COMMA], ei + (rest + seq![RBRACKET]));
        lemma_holds_index(s, i, seq![COMMA], 0);
        assert(s[i] == COMMA);
        lemma_holds_split(s, i + 1, ei, rest + seq![RBRACKET]);
        lemma_inst_round_trip(s, i + 1, vs[0]);
        let j = i + 1 + ei.len();
        assert(ei.len() > 0);
        lemma_insts_rest_round_trip(s, j, vs.skip(1));
        assert(seq![vs[0]] + vs.skip(1) =~= vs);
    }
}

/// Parsing a rule list gives back exactly the instances the encoder wrote.
#[verifier::rlimit(60)]
pub proof fn lemma_rules_round_trip(s: Seq<u8>, i: int, vs: Seq<InstView>)
    requires
        holds_at(s, i, enc_rules(vs)),
    ensures
        p_rules(s, i) == Some((vs, i + enc_rules(vs).len())),
{
    if vs.len() == 0 {
        assert(enc_rules(vs) =~= seq![LBRACKET] + seq![RBRACKET]);
        lemma_holds_split(s, i, seq![LBRACKET], seq![RBRACKET]);
        lemma_lit_round_trip(s, i, seq![LBRACKET]);
        lemma_holds_index(s, i + 1, seq![RBRACKET], 0);
        assert(s[i + 1] == RBRACKET);
        assert(vs =~= Seq::<InstView>::empty());
    } else {
        let ei = enc_inst(vs[0]);
        let rest = enc_insts_rest(vs.skip(1));
        assert(enc_rules(vs) =~= seq![LBRACKET] + (ei + (rest + seq![RBRACKET])));
        lemma_holds_split(s, i, seq![LBRACKET], ei + (rest + seq![RBRACKET]));
        lemma_lit_round_trip(s, i, seq![LBRACKET]);
        lemma_holds_split(s, i + 1, ei, rest + seq![RBRACKET]);
        lemma_inst_round_trip(s, i + 1, vs[0]);
        assert(holds_at(s, i + 1, lit_head() + (enc_string(vs[0].name) + (lit_mid_id() + (
        enc_string(vs[0].id) + (lit_mid_params() + (enc_object(vs[0].params)
            + seq![RBRACE]))))))) by {
            assert(ei =~= lit_head() + (enc_string(vs[0].name) + (lit_mid_id() + (enc_string(
                vs[0].id,
            ) + (lit_mid_params() + (enc_object(vs[0].params) + seq![RBRACE]))))));
        }
        lemma_holds_split(
            s,
            i + 1,
            lit_head(),
            enc_string(vs[0].name) + (lit_mid_id() + (enc_string(vs[0].id) + (lit_mid_params() + (
            enc_object(vs[0].params) + seq![RBRACE])))),
        );
        lemma_holds_index(s, i + 1, lit_head(), 0);
        assert(s[i + 1] == LBRACE);
        let j = i + 1 + ei.len();
        assert(ei.len() > 0);
        lemma_insts_rest_round_trip(s, j, vs.skip(1));
        assert(seq![vs[0]] + vs.skip(1) =~= vs);
    }
}

/// Comma-led encoding distributes over appending one instance.
pub proof fn lemma_insts_rest_snoc(s: Seq<InstView>, v: InstView)
    ensures
        enc_insts_rest(s.push(v)) == enc_insts_rest(s) + seq![COMMA] + enc_inst(v),
    decreases s.len(),
{
    if s.len() == 0 {
        assert(s.push(v).skip(1) =~= Seq::<InstView>::empty());
        assert(s.push(v)[0] == v);
        assert(enc_insts_rest(s.push(v).skip(1)) == Seq::<u8>::empty());
        assert(seq![COMMA] + enc_inst(v) + Seq::<u8>::empty() =~= enc_insts_rest(s) + seq![COMMA]
            + enc_inst(v));
    } else {
        assert(s.push(v).skip(1) =~= s.skip(1).push(v));
        lemma_insts_rest_snoc(s.skip(1), v);
        assert(enc_insts_rest(s.push(v).skip(1)) == enc_insts_rest(s.skip(1)) + seq![COMMA]
            + enc_inst(v));
        assert(s.push(v)[0] == s[0]);
        assert(seq![COMMA] + enc_inst(s[0]) + (enc_insts_rest(s.skip(1)) + seq![COMMA] + enc_inst(
            v,
        )) =~= (seq![COMMA] + enc_inst(s[0]) + enc_insts_rest(s.skip(1))) + seq![COMMA] + enc_inst(
            v,
        ));
    }
}

/// Appends one instance object to `out`.
fn encode_instance_into(out: &mut Vec<u8>, inst: &RuleInstance)
    ensures
        final(out)@ == old(out)@ + enc_inst(inst@),
{
    push_lit(out, &lit_head_vec());
    encode_string_into(out, &inst.name);
    push_lit(out, &lit_mid_id_vec());
    encode_string_into(out, &inst.id);
    push_lit(out, &lit_mid_params_vec());
    encode_object_into(out, &inst.params);
    out.push(RBRACE);
    proof {
        assert(out@ =~= old(out)@ + enc_inst(inst@));
    }
}

/// One rule instance encoded as its snapshot object: the payload a rule
/// push carries.
pub fn encode_instance(inst: &RuleInstance) -> (r: Vec<u8>)
    ensures
        r@ == enc_inst(inst@),
{
    let mut out: Vec<u8> = Vec::new();
    encode_instance_into(&mut out, inst);
    proof {
        assert(Seq::<u8>::empty() + enc_inst(inst@) =~= enc_inst(inst@));
    }
    out
}

/// An instance list encoded as the rule-set snapshot array.
pub fn encode_rules(list: &Vec<RuleInstance>) -> (r: Vec<u8>)
    ensures
        r@ == enc_rules(rules_view(list@)),
{
    let ghost vs = rules_view(list@);
    let mut out: Vec<u8> = Vec::new();
    out.push(LBRACKET);
    let n = list.len();
    if n == 0 {
        out.push(RBRACKET);
        proof {
            assert(out@ =~= enc_rules(vs));
        }
        return out;
    }
    proof {
        assert(vs[0] == list@[0]@);
    }
    encode_instance_into(&mut out, &list[0]);
    let mut i: usize = 1;
    proof {
        assert(vs.subrange(1, 1) =~= Seq::<InstView>::empty());
        assert(out@ =~= seq![LBRACKET] + enc_inst(vs[0]) + enc_insts_rest(vs.subrange(1, 1)));
    }
    while i < n
        invariant
            1 <= i <= n,
            n == list@.len(),
            out@ == seq![LBRACKET] + enc_inst(vs[0]) + enc_insts_rest(vs.subrange(1, i as int)),
        decreases n - i,
    {
        proof {
            assert(vs[i as int] == list@[i as int]@);
            assert(vs.subrange(1, i + 1) =~= vs.subrange(1, i as int).push(vs[i as int]));
            lemma_insts_rest_snoc(vs.subrange(1, i as int), vs[i as int]);
        }
        out.push(COMMA);
        encode_instance_into(&mut out, &list[i]);
        proof {
            assert(out@ =~= seq![LBRACKET] + enc_inst(vs[0]) + enc_insts_rest(
                vs.subrange(1, i + 1),
            ));
        }
        i += 1;
    }
    out.push(RBRACKET);
    proof {
        assert(vs.subrange(1, n as int) =~= vs.skip(1));
        assert(out@ =~= enc_rules(vs));
    }
    out
}

/// A pair list encoded as the memory snapshot object.
pub fn encode_entries(list: &Vec<(Vec<u8>, Vec<u8>)>) -> (r: Vec<u8>)
    ensures
        r@ == enc_object(pairs_view(list@)),
{
    let mut out: Vec<u8> = Vec::new();
    encode_object_into(&mut out, list);
    proof {
        assert(Seq::<u8>::empty() + enc_object(pairs_view(list@)) =~= enc_object(
            pairs_view(list@),
        ));
    }
    out
}

/// Parses one instance object at `i`: the instance and the position after
/// it.
fn parse_inst_at(s: &Vec<u8>, i: usize) -> (r: Option<(RuleInstance, usize)>)
    ensures
        match r {
            Some(t) => p_inst(s@, i as int) == Some((t.0@, t.1 as int)) && i < t.1 <= s@.len(),
            None => p_inst(s@, i as int) is None,
        },
{
    let rbrace: Vec<u8> = vec![RBRACE];
    proof {
        assert(rbrace@ =~= seq![RBRACE]);
    }
    match expect_lit(s, i, &lit_head_vec()) {
        None => None,
        Some(j) => match parse_string(s, j) {
            None => None,
            Some((name, j1)) => match expect_lit(s, j1, &lit_mid_id_vec()) {
                None => None,
                Some(j2) => match parse_string(s, j2) {
                    None => None,
                    Some((id, j3)) => match expect_lit(s, j3, &lit_mid_params_vec()) {
                        None => None,
                        Some(j4) => match parse_object(s, j4) {
                            None => None,
                            Some((params, j5)) => match expect_lit(s, j5, &rbrace) {
                                None => None,
                                Some(j6) => {
                                    let inst = RuleInstance { name, id, params };
                                    proof {
                                        assert(j6 > i);
                                    }
                                    Some((inst, j6))
                                },
                            },
                        },
                    },
                },
            },
        },
    }
}

/// Parses the instances after the first of a rule list, up to and over the
/// closing bracket.
fn parse_insts_rest(s: &Vec<u8>, start: usize) -> (r: Option<(Vec<RuleInstance>, usize)>)
    ensures
        match r {
            Some(t) => p_insts_rest(s@, start as int) == Some((rules_view(t.0@), t.1 as int))
                && start < t.1 <= s@.len(),
            None => p_insts_rest(s@, start as int) is None,
        },
{
    let mut acc: Vec<RuleInstance> = Vec::new();
    let mut i: usize = start;
    proof {
        assert(rules_view(acc@) =~= Seq::<InstView>::empty());
    }
    loop
        invariant
            start <= i,
            p_insts_rest(s@, start as int) == match p_insts_rest(s@, i as int) {
                Some((vs, j)) => Some((rules_view(acc@) + vs, j)),
                None => None::<(Seq<InstView>, int)>,
            },
        decreases s@.len() - i,
    {
        if i >= s.len() {
            return None;
        }
        let c = s[i];
        if c == RBRACKET {
            proof {
                assert(rules_view(acc@) + Seq::<InstView>::empty() =~= rules_view(acc@));
            }
            return Some((acc, i + 1));
        }
        if c != COMMA {
            return None;
        }
        match parse_inst_at(s, i + 1) {
            None => {
                return None;
            },
            Some((inst, j)) => {
                let ghost acc0 = rules_view(acc@);
                let ghost iv = inst@;
                acc.push(inst);
                proof {
                    assert(rules_view(acc@) =~= acc0.push(iv));
                    match p_insts_rest(s@, j as int) {
                        Some((vs, j2)) => {
                            assert(acc0.push(iv) + vs =~= acc0 + (seq![iv] + vs));
                        },
                        None => {},
                    }
                }
                i = j;
            },
        }
    }
}

/// The instance list a rule-set snapshot holds, when the whole input is one
/// well-formed array; `None` on anything else.
pub open spec fn parse_rules_spec(s: Seq<u8>) -> Option<Seq<InstView>> {
    match p_rules(s, 0) {
        Some((vs, j)) => if j == s.len() {
            Some(vs)
        } else {
            None
        },
        None => None,
    }
}

/// The instance a rule-push payload holds, when the whole payload is one
/// well-formed instance object; `None` on anything else.
pub open spec fn parse_inst_spec(s: Seq<u8>) -> Option<InstView> {
    match p_inst(s, 0) {
        Some((v, j)) => if j == s.len() {
            Some(v)
        } else {
            None
        },
        None => None,
    }
}

/// The pair list a memory snapshot holds, when the whole input is one
/// well-formed object; `None` on anything else.
pub open spec fn parse_entries_spec(s: Seq<u8>) -> Option<Seq<(Seq<u8>, Seq<u8>)>> {
    match p_object(s, 0) {
        Some((ps, j)) => if j == s.len() {
            Some(ps)
        } else {
            None
        },
        None => None,
    }
}

/// Parses a whole rule-set snapshot; corrupt input gives `None`, which the
/// caller treats as an empty snapshot.
pub fn parse_rules(b: &Vec<u8>) -> (r: Option<Vec<RuleInstance>>)
    ensures
        match r {
            Some(v) => parse_rules_spec(b@) == Some(rules_view(v@)),
            None => parse_rules_spec(b@) is None,
        },
{
    let lbracket: Vec<u8> = vec![LBRACKET];
    proof {
        assert(lbracket@ =~= seq![LBRACKET]);
    }
    match expect_lit(b, 0, &lbracket) {
        None => None,
        Some(j) => {
            if j < b.len() && b[j] == RBRACKET {
                if j + 1 == b.len() {
                    let empty: Vec<RuleInstance> = Vec::new();
                    proof {
                        assert(rules_view(empty@) =~= Seq::<InstView>::empty());
                    }
                    return Some(empty);
                }
                return None;
            }
            match parse_inst_at(b, j) {
                None => None,
                Some((inst, j2)) => match parse_insts_rest(b, j2) {
                    None => None,
                    Some((mut rest, j3)) => {
                        if j3 != b.len() {
                            return None;
                        }
                        let ghost rold = rest@;
                        let ghost rest0 = rules_view(rest@);
                        let ghost iv = inst@;
                        let mut output: Vec<RuleInstance> = Vec::new();
                        output.push(inst);
                        output.append(&mut rest);
                        proof {
                            let ov = output@;
                            assert(rules_view(ov) =~= seq![iv] + rest0) by {
                                assert forall|m: int|
                                    0 <= m < rules_view(ov).len() implies rules_view(ov)[m] == (
                                seq![iv] + rest0)[m] by {
                                    assert(rules_view(ov)[m] == ov[m]@);
                                    if m > 0 {
                                        assert(ov[m] == rold[m - 1]);
                                        assert(rest0[m - 1] == rold[m - 1]@);
                                    }
                                }
                            }
                        }
                        Some(output)
                    },
                },
            }
        },
    }
}

/// Parses a whole rule-push payload; a malformed payload gives `None` and
/// is ignored by the engine.
pub fn parse_instance(b: &Vec<u8>) -> (r: Option<RuleInstance>)
    ensures
        match r {
            Some(inst) => parse_inst_spec(b@) == Some(inst@),
            None => parse_inst_spec(b@) is None,
        },
{
    match parse_inst_at(b, 0) {
        None => None,
        Some((inst, j)) => {
            if j == b.len() {
                Some(inst)
            } else {
                None
            }
        },
    }
}

/// Parses a whole memory snapshot; corrupt input gives `None`, which the
/// caller treats as an empty snapshot.
pub fn parse_entries(b: &Vec<u8>) -> (r: Option<Vec<(Vec<u8>, Vec<u8>)>>)
    ensures
        match r {
            Some(v) => parse_entries_spec(b@) == Some(pairs_view(v@)),
            None => parse_entries_spec(b@) is None,
        },
{
    match parse_object(b, 0) {
        None => None,
        Some((list, j)) => {
            if j == b.len() {
                Some(list)
            } else {
                None
            }
        },
    }
}

/// Persisting a rule list and loading it back gives the same ordered
/// instance list, whatever the names, ids and parameters hold.
pub proof fn lemma_rules_codec_round_trip(vs: Seq<InstView>)
    ensures
        parse_rules_spec(enc_rules(vs)) == Some(vs),
{
    let s = enc_rules(vs);
    assert(s.subrange(0, s.len() as int) =~= s);
    lemma_rules_round_trip(s, 0, vs);
}

/// Encoding a rule-push payload and parsing it back gives the same
/// instance.
pub proof fn lemma_instance_codec_round_trip(v: InstView)
    ensures
        parse_inst_spec(enc_inst(v)) == Some(v),
{
    let s = enc_inst(v);
    assert(s.subrange(0, s.len() as int) =~= s);
    lemma_inst_round_trip(s, 0, v);
}

/// Persisting a memory snapshot and loading it back gives the same ordered
/// pair list.
pub proof fn lemma_entries_codec_round_trip(ps: Seq<(Seq<u8>, Seq<u8>)>)
    ensures
        parse_entries_spec(enc_object(ps)) == Some(ps),
{
    let s = enc_object(ps);
    assert(s.subrange(0, s.len() as int) =~= s);
    lemma_object_round_trip(s, 0, ps);
}

/// The startup load of a rule-set snapshot: the instances it holds, or the
/// empty list on corrupt content — a bad snapshot is never fatal.
pub fn load_rules(b: &Vec<u8>) -> (r: Vec<RuleInstance>)
    ensures
        match parse_rules_spec(b@) {
            Some(vs) => rules_view(r@) == vs,
            None => rules_view(r@) == Seq::<InstView>::empty(),
        },
{
    match parse_rules(b) {
        Some(v) => v,
        None => {
            let empty: Vec<RuleInstance> = Vec::new();
            proof {
                assert(rules_view(empty@) =~= Seq::<InstView>::empty());
            }
            empty
        },
    }
}

/// The startup load of a memory snapshot: the pairs it holds, or the empty
/// list on corrupt content — a bad snapshot is never fatal.
pub fn load_entries(b: &Vec<u8>) -> (r: Vec<(Vec<u8>, Vec<u8>)>)
    ensures
        match parse_entries_spec(b@) {
            Some(ps) => pairs_view(r@) == ps,
            None => pairs_view(r@) == Seq::<(Seq<u8>, Seq<u8>)>::empty(),
        },
{
    match parse_entries(b) {
        Some(v) => v,
        None => {
            let empty: Vec<(Vec<u8>, Vec<u8>)> = Vec::new();
            proof {
                assert(pairs_view(empty@) =~= Seq::<(Seq<u8>, Seq<u8>)>::empty());
            }
            empty
        },
    }
}

} // verus!
