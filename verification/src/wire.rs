//! The sync wire format.
//!
//! A position is sent as the JSON object `{"lati":L,"longi":G,"name":"N"}`
//! where `L` and `G` are decimal degree numbers (see `numfmt`: microdegrees
//! with the fractional digits trimmed) and `N` is the display name with `"`
//! and `\` escaped.  The sync response is a JSON array of such objects, in
//! this compact spelling: fields in this order, no surrounding whitespace,
//! numbers with at most nine integer and six fractional digits, names
//! without control escapes beyond `\"` and `\\`.  The parser accepts exactly
//! that language and rejects coordinates outside the valid ranges.

use vstd::prelude::*;
use vstd::string::StrSliceExecFns;
use vstd::string::StringExecFns;

use crate::numfmt::{
    dec_rep, digit_run, fmt_micro, frac_rep, is_digit, is_digit_char, lemma_dec_rep_digits,
    lemma_dec_rep_len, lemma_digit_run_exact, lemma_digit_run_lower, lemma_frac_rep_props,
    lemma_pow10_mono, lemma_pow10_values, lemma_val_of_dec_rep, micro_rep, micro_unsigned_rep,
    pow10, val_of,
};
use crate::position::{coord_in_range, CurrentPos, PosIdea, LATI_LIMIT, LONGI_LIMIT};

verus! {

/// The text a single character contributes inside a JSON string.
pub open spec fn escape_one(c: char) -> Seq<char> {
    if c == '"' {
        seq!['\\', '"']
    } else if c == '\\' {
        seq!['\\', '\\']
    } else {
        seq![c]
    }
}

/// A name with `"` and `\` escaped.
pub open spec fn escape_rep(s: Seq<char>) -> Seq<char>
    decreases s.len(),
{
    if s.len() == 0 {
        Seq::empty()
    } else {
        escape_rep(s.drop_last()) + escape_one(s.last())
    }
}

/// The JSON object text for a position.
pub open spec fn pos_rep(p: PosIdea) -> Seq<char> {
    "{\"lati\":"@ + micro_rep(p.lati) + ",\"longi\":"@ + micro_rep(p.longi) + ",\"name\":\""@
        + escape_rep(p.name) + "\"}"@
}

/// `t` occurs in `s` at position `i`.
pub open spec fn matches_at(s: Seq<char>, i: int, t: Seq<char>) -> bool {
    0 <= i && i + t.len() <= s.len() && s.subrange(i, i + t.len()) == t
}

/// Parse a decimal degree number starting at `i`: an optional `-`, at most
/// nine integer digits, optionally `.` and at most six fractional digits.
/// Gives the value in microdegrees and the position after the number.
pub open spec fn parse_micro(s: Seq<char>, i: int) -> Option<(int, int)> {
    let neg = 0 <= i < s.len() && s[i] == '-';
    let j = if neg {
        i + 1
    } else {
        i
    };
    let n1 = digit_run(s, j);
    if n1 == 0 || n1 > 9 {
        None
    } else {
        let ip = val_of(s.subrange(j, j + n1));
        let k = j + n1;
        if k < s.len() && s[k] == '.' {
            let n2 = digit_run(s, k + 1);
            if n2 == 0 || n2 > 6 {
                None
            } else {
                let fp = val_of(s.subrange(k + 1, k + 1 + n2));
                let v = ip * 1_000_000 + fp * pow10((6 - n2) as nat);
                Some(
                    (
                        if neg {
                            -v
                        } else {
                            v
                        },
                        k + 1 + n2,
                    ),
                )
            }
        } else {
            let v = ip * 1_000_000;
            Some(
                (
                    if neg {
                        -v
                    } else {
                        v
                    },
                    k,
                ),
            )
        }
    }
}

/// Parse the body of a JSON string, starting after the opening quote:
/// characters and `\"` / `\\` escapes up to the closing quote.  Gives the
/// unescaped text and the position after the closing quote.
pub open spec fn parse_str_body(s: Seq<char>, i: int) -> Option<(Seq<char>, int)>
    decreases s.len() - i,
{
    if i < 0 || i >= s.len() {
        None
    } else if s[i] == '"' {
        Some((Seq::empty(), i + 1))
    } else if s[i] == '\\' {
        if i + 1 < s.len() && (s[i + 1] == '"' || s[i + 1] == '\\') {
            match parse_str_body(s, i + 2) {
                Some((t, j)) => Some((seq![s[i + 1]] + t, j)),
                None => None,
            }
        } else {
            None
        }
    } else {
        match parse_str_body(s, i + 1) {
            Some((t, j)) => Some((seq![s[i]] + t, j)),
            None => None,
        }
    }
}

/// Parse one position object starting at `i`.  The coordinates must lie in
/// the valid ranges.
pub open spec fn parse_object(s: Seq<char>, i: int) -> Option<(PosIdea, int)> {
    let t1 = "{\"lati\":"@;
    if matches_at(s, i, t1) {
        match parse_micro(s, i + t1.len()) {
            Some((la, i2)) => {
                let t2 = ",\"longi\":"@;
                if matches_at(s, i2, t2) {
                    match parse_micro(s, i2 + t2.len()) {
                        Some((lo, i3)) => {
                            let t3 = ",\"name\":\""@;
                            if matches_at(s, i3, t3) {
                                match parse_str_body(s, i3 + t3.len()) {
                                    Some((nm, i4)) => {
                                        if i4 < s.len() && s[i4] == '}' && coord_in_range(la, lo) {
                                            Some(
                                                (
                                                    PosIdea { lati: la, longi: lo, name: nm },
                                                    i4 + 1,
                                                ),
                                            )
                                        } else {
                                            None
                                        }
                                    },
                                    None => None,
                                }
                            } else {
                                None
                            }
                        },
                        None => None,
                    }
                } else {
                    None
                }
            },
            None => None,
        }
    } else {
        None
    }
}

/// Parse the objects of a non-empty array body starting at `i`, up to and
/// including the closing `]`.
pub open spec fn parse_items(s: Seq<char>, i: int) -> Option<(Seq<PosIdea>, int)>
    decreases s.len() - i,
{
    match parse_object(s, i) {
        Some((p, j)) => {
            if j < s.len() && s[j] == ',' && i < j {
                match parse_items(s, j + 1) {
                    Some((ps, k)) => Some((seq![p] + ps, k)),
                    None => None,
                }
            } else if j < s.len() && s[j] == ']' {
                Some((seq![p], j + 1))
            } else {
                None
            }
        },
        None => None,
    }
}

/// Parse a JSON array of position objects starting at `i`.
pub open spec fn parse_array(s: Seq<char>, i: int) -> Option<(Seq<PosIdea>, int)> {
    if i < s.len() && s[i] == '[' {
        if i + 1 < s.len() && s[i + 1] == ']' {
            Some((Seq::empty(), i + 2))
        } else {
            parse_items(s, i + 1)
        }
    } else {
        None
    }
}

/// The roster a sync response body denotes, if the whole body is one valid
/// array of position objects.
pub open spec fn roster_of(s: Seq<char>) -> Option<Seq<PosIdea>> {
    match parse_array(s, 0) {
        Some((ps, j)) => if j == s.len() {
            Some(ps)
        } else {
            None
        },
        None => None,
    }
}

/// A parsed prefix glued in front of the rest of a string-body parse.
pub open spec fn glue_chars(pre: Seq<char>, o: Option<(Seq<char>, int)>) -> Option<
    (Seq<char>, int),
> {
    match o {
        Some((t, j)) => Some((pre + t, j)),
        None => None,
    }
}

/// Parsed objects glued in front of the rest of an items parse.
pub open spec fn glue_items(pre: Seq<PosIdea>, o: Option<(Seq<PosIdea>, int)>) -> Option<
    (Seq<PosIdea>, int),
> {
    match o {
        Some((ps, k)) => Some((pre + ps, k)),
        None => None,
    }
}

proof fn lemma_glue_chars_assoc(a: Seq<char>, b: Seq<char>, o: Option<(Seq<char>, int)>)
    ensures
        glue_chars(a, glue_chars(b, o)) == glue_chars(a + b, o),
{
    match o {
        Some((t, j)) => {
            assert(a + (b + t) =~= (a + b) + t);
        },
        None => {},
    }
}

proof fn lemma_glue_items_assoc(a: Seq<PosIdea>, b: Seq<PosIdea>, o: Option<(Seq<PosIdea>, int)>)
    ensures
        glue_items(a, glue_items(b, o)) == glue_items(a + b, o),
{
    match o {
        Some((ps, k)) => {
            assert(a + (b + ps) =~= (a + b) + ps);
        },
        None => {},
    }
}

proof fn lemma_matches_char(s: Seq<char>, i: int, t: Seq<char>, k: int)
    requires
        matches_at(s, i, t),
        0 <= k < t.len(),
    ensures
        s[i + k] == t[k],
{
    assert(s.subrange(i, i + t.len())[k] == t[k]);
}

proof fn lemma_matches_split(s: Seq<char>, i: int, a: Seq<char>, b: Seq<char>)
    requires
        matches_at(s, i, a + b),
    ensures
        matches_at(s, i, a),
        matches_at(s, i + a.len(), b),
{
    let ab = a + b;
    assert forall|k: int| 0 <= k < a.len() implies s.subrange(i, i + a.len())[k] == a[k] by {
        lemma_matches_char(s, i, ab, k);
    }
    assert(s.subrange(i, i + a.len()) =~= a);
    assert forall|k: int| 0 <= k < b.len() implies s.subrange(
        i + a.len(),
        i + a.len() + b.len(),
    )[k] == b[k] by {
        lemma_matches_char(s, i, ab, a.len() + k);
    }
    assert(s.subrange(i + a.len(), i + a.len() + b.len()) =~= b);
}

/// An occurrence of a coordinate's text, followed by anything that is not a
/// digit, parses back to exactly that coordinate.
proof fn lemma_parse_micro_of_rep(s: Seq<char>, i: int, v: int)
    requires
        matches_at(s, i, micro_rep(v)),
        -180_000_000 <= v <= 180_000_000,
        i + micro_rep(v).len() == s.len() || !is_digit(s[i + micro_rep(v).len()]),
    ensures
        parse_micro(s, i) == Some((v, i + micro_rep(v).len())),
{
    lemma_pow10_values();
    let n = (if v < 0 {
        -v
    } else {
        v
    }) as nat;
    let j = if v < 0 {
        i + 1
    } else {
        i
    };
    if v < 0 {
        assert(micro_rep(v) == seq!['-'] + micro_unsigned_rep(n));
        lemma_matches_split(s, i, seq!['-'], micro_unsigned_rep(n));
        lemma_matches_char(s, i, micro_rep(v), 0);
        assert(micro_rep(v)[0] == '-');
        assert(s[i] == '-');
    }
    let rep = micro_unsigned_rep(n);
    assert(matches_at(s, j, rep));
    let ds = dec_rep(n / 1_000_000);
    let fs = frac_rep(n % 1_000_000);
    assert(rep =~= ds + (seq!['.'] + fs));
    lemma_matches_split(s, j, ds, seq!['.'] + fs);
    lemma_matches_split(s, j + ds.len(), seq!['.'], fs);
    lemma_dec_rep_digits(n / 1_000_000);
    lemma_dec_rep_len(n / 1_000_000, 3);
    lemma_val_of_dec_rep(n / 1_000_000);
    lemma_frac_rep_props(n % 1_000_000);
    let dot = j + ds.len();
    lemma_matches_char(s, dot, seq!['.'], 0);
    assert(s[dot] == '.');
    // the integer digit run stops at the dot
    assert forall|t: int| j <= t < dot implies is_digit(s[t]) by {
        lemma_matches_char(s, j, ds, t - j);
    }
    lemma_digit_run_exact(s, j, dot);
    assert forall|k: int| 0 <= k < ds.len() implies s.subrange(j, dot)[k] == ds[k] by {
        lemma_matches_char(s, j, ds, k);
    }
    assert(s.subrange(j, dot) =~= ds);
    // the fraction digit run stops at the character after the number
    let fend = dot + 1 + fs.len();
    assert(fend == i + micro_rep(v).len());
    assert forall|t: int| dot + 1 <= t < fend implies is_digit(s[t]) by {
        lemma_matches_char(s, dot + 1, fs, t - (dot + 1));
    }
    lemma_digit_run_exact(s, dot + 1, fend);
    assert forall|k: int| 0 <= k < fs.len() implies s.subrange(dot + 1, fend)[k] == fs[k] by {
        lemma_matches_char(s, dot + 1, fs, k);
    }
    assert(s.subrange(dot + 1, fend) =~= fs);
    // the parsed pieces put the value back together
    assert(val_of(fs) * pow10((6 - fs.len()) as nat) == n % 1_000_000);
    assert((n / 1_000_000) * 1_000_000 + n % 1_000_000 == n);
    if v < 0 {
        assert(is_digit(s[j]));
        assert(parse_micro(s, i) == Some((v, fend)));
    } else {
        assert(is_digit(s[i]));
        assert(s[i] != '-');
        assert(parse_micro(s, i) == Some((v, fend)));
    }
}

/// Escaping can be peeled from the front as well as from the back.
proof fn lemma_escape_front(x: Seq<char>)
    requires
        x.len() > 0,
    ensures
        escape_rep(x) == escape_one(x.first()) + escape_rep(x.drop_first()),
    decreases x.len(),
{
    if x.len() == 1 {
        assert(x.drop_last() =~= Seq::<char>::empty());
        assert(x.drop_first() =~= Seq::<char>::empty());
        assert(escape_rep(x) =~= escape_one(x.first()) + escape_rep(x.drop_first()));
    } else {
        let y = x.drop_last();
        lemma_escape_front(y);
        assert(y.first() == x.first());
        assert(x.drop_first().last() == x.last());
        assert(x.drop_first().drop_last() =~= y.drop_first());
        assert(escape_rep(x.drop_first()) == escape_rep(y.drop_first()) + escape_one(x.last()));
        assert((escape_one(x.first()) + escape_rep(y.drop_first())) + escape_one(x.last())
            =~= escape_one(x.first()) + (escape_rep(y.drop_first()) + escape_one(x.last())));
    }
}

/// An occurrence of an escaped name followed by the closing quote parses
/// back to exactly that name.
proof fn lemma_parse_str_of_escape(s: Seq<char>, i: int, name: Seq<char>)
    requires
        matches_at(s, i, escape_rep(name) + seq!['"']),
    ensures
        parse_str_body(s, i) == Some((name, i + escape_rep(name).len() + 1)),
    decreases name.len(),
{
    if name.len() == 0 {
        assert(escape_rep(name) + seq!['"'] =~= seq!['"']);
        lemma_matches_char(s, i, escape_rep(name) + seq!['"'], 0);
        assert((escape_rep(name) + seq!['"'])[0] == '"');
        assert(s[i] == '"');
        assert(name =~= Seq::<char>::empty());
    } else {
        let c = name.first();
        lemma_escape_front(name);
        let esc = escape_one(c);
        let rest = escape_rep(name.drop_first());
        assert((esc + rest) + seq!['"'] =~= esc + (rest + seq!['"']));
        lemma_matches_split(s, i, esc, rest + seq!['"']);
        lemma_parse_str_of_escape(s, i + esc.len(), name.drop_first());
        if c == '"' || c == '\\' {
            lemma_matches_char(s, i, esc, 0);
            lemma_matches_char(s, i, esc, 1);
            assert(esc[0] == '\\' && esc[1] == c);
            assert(s[i] == '\\');
            assert(s[i + 1] == c);
            assert(seq![c] + name.drop_first() =~= name);
        } else {
            lemma_matches_char(s, i, esc, 0);
            assert(esc[0] == c);
            assert(s[i] == c);
            assert(seq![c] + name.drop_first() =~= name);
        }
    }
}

/// Round trip: wherever the encoded text of an in-range position occurs,
/// the parser reads back exactly that position, consuming exactly its text.
pub proof fn lemma_encoded_position_parses(s: Seq<char>, i: int, p: PosIdea)
    requires
        p.wf(),
        matches_at(s, i, pos_rep(p)),
    ensures
        parse_object(s, i) == Some((p, i + pos_rep(p).len())),
{
    let l1 = "{\"lati\":"@;
    let l2 = ",\"longi\":"@;
    let l3 = ",\"name\":\""@;
    let l4 = "\"}"@;
    let m1 = micro_rep(p.lati);
    let m2 = micro_rep(p.longi);
    let e = escape_rep(p.name);
    reveal_strlit("{\"lati\":");
    reveal_strlit(",\"longi\":");
    reveal_strlit(",\"name\":\"");
    reveal_strlit("\"}");
    assert(pos_rep(p) =~= l1 + (m1 + (l2 + (m2 + (l3 + (e + l4))))));
    lemma_matches_split(s, i, l1, m1 + (l2 + (m2 + (l3 + (e + l4)))));
    let o1 = i + l1.len();
    lemma_matches_split(s, o1, m1, l2 + (m2 + (l3 + (e + l4))));
    let o2 = o1 + m1.len();
    lemma_matches_split(s, o2, l2, m2 + (l3 + (e + l4)));
    let o3 = o2 + l2.len();
    lemma_matches_split(s, o3, m2, l3 + (e + l4));
    let o4 = o3 + m2.len();
    lemma_matches_split(s, o4, l3, e + l4);
    let o5 = o4 + l3.len();
    assert(e + l4 =~= (e + seq!['"']) + seq!['}']);
    lemma_matches_split(s, o5, e + seq!['"'], seq!['}']);
    let o6 = o5 + e.len() + 1;
    lemma_matches_char(s, o6, seq!['}'], 0);
    assert(s[o6] == '}');
    lemma_matches_char(s, o2, l2, 0);
    assert(l2[0] == ',');
    assert(s[o2] == ',');
    lemma_parse_micro_of_rep(s, o1, p.lati);
    lemma_matches_char(s, o4, l3, 0);
    assert(l3[0] == ',');
    assert(s[o4] == ',');
    lemma_parse_micro_of_rep(s, o3, p.longi);
    lemma_parse_str_of_escape(s, o5, p.name);
    assert(parse_object(s, i) == Some((p, o6 + 1)));
    assert(o6 + 1 == i + pos_rep(p).len());
}

/// The array text for a roster: the encoded positions joined with commas,
/// between brackets.  This is the body a set of peers sending
/// `encode_position` bodies would produce together.
pub open spec fn roster_items_rep(rs: Seq<PosIdea>) -> Seq<char>
    decreases rs.len(),
{
    if rs.len() == 0 {
        Seq::empty()
    } else if rs.len() == 1 {
        pos_rep(rs.first())
    } else {
        pos_rep(rs.first()) + seq![','] + roster_items_rep(rs.drop_first())
    }
}

/// The whole array text for a roster.
pub open spec fn roster_rep(rs: Seq<PosIdea>) -> Seq<char> {
    seq!['['] + roster_items_rep(rs) + seq![']']
}

proof fn lemma_pos_rep_head(p: PosIdea)
    ensures
        pos_rep(p).len() > 8,
        pos_rep(p)[0] == '{',
{
    reveal_strlit("{\"lati\":");
    let l1 = "{\"lati\":"@;
    assert(l1.len() == 8 && l1[0] == '{');
    assert(pos_rep(p)[0] == l1[0]);
}

proof fn lemma_parse_items_of_rep(s: Seq<char>, i: int, rs: Seq<PosIdea>)
    requires
        rs.len() > 0,
        forall|k: int| 0 <= k < rs.len() ==> (#[trigger] rs[k]).wf(),
        matches_at(s, i, roster_items_rep(rs) + seq![']']),
    ensures
        parse_items(s, i) == Some((rs, i + roster_items_rep(rs).len() + 1)),
    decreases rs.len(),
{
    let p = rs.first();
    assert(p.wf());
    lemma_pos_rep_head(p);
    if rs.len() == 1 {
        assert(roster_items_rep(rs) == pos_rep(p));
        lemma_matches_split(s, i, pos_rep(p), seq![']']);
        lemma_encoded_position_parses(s, i, p);
        let j = i + pos_rep(p).len();
        lemma_matches_char(s, j, seq![']'], 0);
        assert(s[j] == ']');
        assert(seq![p] =~= rs);
    } else {
        let rest = roster_items_rep(rs.drop_first());
        assert(roster_items_rep(rs) + seq![']'] =~= pos_rep(p) + (seq![','] + (rest + seq![']'])));
        lemma_matches_split(s, i, pos_rep(p), seq![','] + (rest + seq![']']));
        let j = i + pos_rep(p).len();
        lemma_matches_split(s, j, seq![','], rest + seq![']']);
        lemma_matches_char(s, j, seq![','], 0);
        assert(s[j] == ',');
        lemma_encoded_position_parses(s, i, p);
        assert forall|k: int| 0 <= k < rs.drop_first().len() implies (#[trigger] rs.drop_first()[k]).wf() by {
            assert(rs[k + 1].wf());
        }
        lemma_parse_items_of_rep(s, j + 1, rs.drop_first());
        assert(seq![p] + rs.drop_first() =~= rs);
    }
}

/// Round trip for a whole response: the array text of in-range positions
/// parses back to exactly that roster.
pub proof fn lemma_roster_round_trip(rs: Seq<PosIdea>)
    requires
        forall|k: int| 0 <= k < rs.len() ==> (#[trigger] rs[k]).wf(),
    ensures
        roster_of(roster_rep(rs)) == Some(rs),
{
    let s = roster_rep(rs);
    assert(s.subrange(0, s.len() as int) =~= s);
    assert(matches_at(s, 0, s));
    if rs.len() == 0 {
        assert(s =~= seq!['[', ']']);
        lemma_matches_char(s, 0, s, 0);
        lemma_matches_char(s, 0, s, 1);
        assert(s[0] == '[' && s[1] == ']');
        assert(Seq::<PosIdea>::empty() =~= rs);
    } else {
        let body = roster_items_rep(rs) + seq![']'];
        assert(s =~= seq!['['] + body);
        lemma_matches_split(s, 0, seq!['['], body);
        lemma_matches_char(s, 0, seq!['['], 0);
        assert(s[0] == '[');
        lemma_pos_rep_head(rs.first());
        assert(body[0] == roster_items_rep(rs)[0]);
        assert(roster_items_rep(rs)[0] == pos_rep(rs.first())[0]);
        lemma_matches_char(s, 1, body, 0);
        assert(s[1] == '{');
        lemma_parse_items_of_rep(s, 1, rs);
    }
}

/// Round trip at the top: the encoded text of an in-range position, parsed
/// on its own, gives back exactly that position.
pub proof fn lemma_encode_parse_round_trip(p: PosIdea)
    requires
        p.wf(),
    ensures
        parse_object(pos_rep(p), 0) == Some((p, pos_rep(p).len() as int)),
{
    assert(pos_rep(p).subrange(0, pos_rep(p).len() as int) =~= pos_rep(p));
    lemma_encoded_position_parses(pos_rep(p), 0, p);
}

/// The rejection errors of `parse_roster`.
#[derive(Clone, Copy, Debug, PartialEq, Eq, Structural)]
pub enum ParseError {
    /// The body is not a valid array of position objects, or a coordinate
    /// lies outside the valid ranges.
    Malformed,
}

/// A name with `"` and `\` escaped, as executable code.
fn escape_str(src: &str) -> (r: String)
    ensures
        r@ == escape_rep(src@),
{
    let n = src.unicode_len();
    let mut out = String::new();
    let mut k: usize = 0;
    while k < n
        invariant
            k <= n,
            n == src@.len(),
            out@ == escape_rep(src@.subrange(0, k as int)),
        decreases n - k,
    {
        let c = src.get_char(k);
        if c == '"' {
            out.append("\\\"");
            proof {
                reveal_strlit("\\\"");
                assert(("\\\"")@ =~= escape_one(c));
            }
        } else if c == '\\' {
            out.append("\\\\");
            proof {
                reveal_strlit("\\\\");
                assert(("\\\\")@ =~= escape_one(c));
            }
        } else {
            let piece = src.substring_char(k, k + 1);
            out.append(piece);
            proof {
                assert(src@.subrange(k as int, k + 1) =~= escape_one(c));
            }
        }
        k = k + 1;
        proof {
            assert(src@.subrange(0, k as int).drop_last() =~= src@.subrange(0, k - 1));
            assert(src@.subrange(0, k as int).last() == src@[k - 1]);
            assert(out@ =~= escape_rep(src@.subrange(0, k as int)));
        }
    }
    proof {
        assert(src@.subrange(0, n as int) =~= src@);
    }
    out
}

/// The JSON object text for a position: the sync request body.
pub fn encode_position(p: &CurrentPos) -> (r: String)
    requires
        p@.wf(),
    ensures
        r@ == pos_rep(p@),
{
    let mut out = "{\"lati\":".to_owned();
    let lati = fmt_micro(p.lati);
    out.append(lati.as_str());
    out.append(",\"longi\":");
    let longi = fmt_micro(p.longi);
    out.append(longi.as_str());
    out.append(",\"name\":\"");
    let name = escape_str(p.name.as_str());
    out.append(name.as_str());
    out.append("\"}");
    proof {
        assert(out@ =~= pos_rep(p@));
    }
    out
}

/// Whether `lit` occurs at position `i`; on success gives the position
/// after it.
fn expect_lit(s: &str, len: usize, i: usize, lit: &str) -> (r: Option<usize>)
    requires
        len == s@.len(),
        i <= len,
    ensures
        match r {
            Some(j) => matches_at(s@, i as int, lit@) && j == i + lit@.len() && j <= len,
            None => !matches_at(s@, i as int, lit@),
        },
{
    let m = lit.unicode_len();
    if m > len - i {
        return None;
    }
    let mut k: usize = 0;
    while k < m
        invariant
            k <= m,
            m == lit@.len(),
            len == s@.len(),
            i + m <= len,
            forall|t: int| 0 <= t < k ==> s@[i + t] == lit@[t],
        decreases m - k,
    {
        let a = s.get_char(i + k);
        let b = lit.get_char(k);
        if a != b {
            proof {
                assert(s@.subrange(i as int, i + m)[k as int] == s@[i + k]);
            }
            return None;
        }
        k = k + 1;
    }
    proof {
        assert(s@.subrange(i as int, i + m) =~= lit@);
    }
    Some(i + m)
}

/// Ten to the `e`, executable.
fn pow10_u64(e: u64) -> (r: u64)
    requires
        e <= 9,
    ensures
        r as nat == pow10(e as nat),
{
    proof {
        lemma_pow10_values();
    }
    if e == 0 {
        1
    } else if e == 1 {
        10
    } else if e == 2 {
        100
    } else if e == 3 {
        1_000
    } else if e == 4 {
        10_000
    } else if e == 5 {
        100_000
    } else if e == 6 {
        1_000_000
    } else if e == 7 {
        10_000_000
    } else if e == 8 {
        100_000_000
    } else {
        1_000_000_000
    }
}

/// Scan the digit run starting at `i`, accepting at most `cap` digits.
fn scan_digits(s: &str, len: usize, i: usize, cap: usize) -> (r: Option<(u64, usize)>)
    requires
        len == s@.len(),
        i <= len,
        1 <= cap <= 9,
    ensures
        match r {
            Some((v, j)) => {
                &&& 1 <= digit_run(s@, i as int) <= cap
                &&& j == i + digit_run(s@, i as int)
                &&& j <= len
                &&& v == val_of(s@.subrange(i as int, j as int))
                &&& v < pow10(cap as nat)
            },
            None => digit_run(s@, i as int) == 0 || digit_run(s@, i as int) > cap,
        },
{
    proof {
        lemma_pow10_values();
    }
    let mut j = i;
    let mut acc: u64 = 0;
    while j < len && is_digit_char(s.get_char(j))
        invariant
            i <= j <= len,
            len == s@.len(),
            1 <= cap <= 9,
            j - i <= cap,
            forall|t: int| i <= t < j ==> is_digit(#[trigger] s@[t]),
            acc == val_of(s@.subrange(i as int, j as int)),
            acc < pow10((j - i) as nat),
        decreases len - j,
    {
        if j - i == cap {
            proof {
                lemma_digit_run_lower(s@, i as int, j + 1);
            }
            return None;
        }
        let c = s.get_char(j);
        let d = (c as u32 - 48) as u64;
        proof {
            lemma_pow10_mono(((j - i) + 1) as nat, cap as nat);
            lemma_pow10_values();
            assert(acc * 10 + d < pow10(((j - i) + 1) as nat));
        }
        acc = acc * 10 + d;
        j = j + 1;
        proof {
            assert(s@.subrange(i as int, j as int).drop_last() =~= s@.subrange(i as int, j - 1));
            assert(s@.subrange(i as int, j as int).last() == s@[j - 1]);
            assert(acc == val_of(s@.subrange(i as int, j as int)));
        }
    }
    proof {
        lemma_digit_run_exact(s@, i as int, j as int);
        lemma_pow10_mono((j - i) as nat, cap as nat);
    }
    if j == i {
        None
    } else {
        Some((acc, j))
    }
}

/// Parse a decimal degree number at `i`, in microdegrees.
fn parse_micro_at(s: &str, len: usize, i: usize) -> (r: Option<(i64, usize)>)
    requires
        len == s@.len(),
        i <= len,
    ensures
        match r {
            Some((v, j)) => parse_micro(s@, i as int) == Some((v as int, j as int)) && i < j <= len,
            None => parse_micro(s@, i as int) is None,
        },
{
    proof {
        lemma_pow10_values();
    }
    let neg = i < len && s.get_char(i) == '-';
    let j = if neg {
        i + 1
    } else {
        i
    };
    match scan_digits(s, len, j, 9) {
        None => None,
        Some((ip, k)) => {
            let has_frac = k < len && s.get_char(k) == '.';
            if has_frac {
                match scan_digits(s, len, k + 1, 6) {
                    None => None,
                    Some((fp, m)) => {
                        let n2 = m - (k + 1);
                        let scale = pow10_u64((6 - n2) as u64);
                        proof {
                            lemma_pow10_mono((6 - n2) as nat, 5);
                            assert(fp * scale <= 999_999 * 100_000) by (nonlinear_arith)
                                requires
                                    0 <= fp <= 999_999,
                                    0 <= scale <= 100_000,
                            ;
                        }
                        let v = ip * 1_000_000 + fp * scale;
                        let sv = if neg {
                            -(v as i64)
                        } else {
                            v as i64
                        };
                        Some((sv, m))
                    },
                }
            } else {
                let v = ip * 1_000_000;
                let sv = if neg {
                    -(v as i64)
                } else {
                    v as i64
                };
                Some((sv, k))
            }
        },
    }
}

/// Parse a JSON string body at `i` (after the opening quote).
fn parse_str_body_at(s: &str, len: usize, i: usize) -> (r: Option<(String, usize)>)
    requires
        len == s@.len(),
        i <= len,
    ensures
        match r {
            Some((nm, j)) => parse_str_body(s@, i as int) == Some((nm@, j as int)) && i < j <= len,
            None => parse_str_body(s@, i as int) is None,
        },
{
    let mut out = String::new();
    let mut cur = i;
    loop
        invariant
            i <= cur <= len,
            len == s@.len(),
            parse_str_body(s@, i as int) == glue_chars(out@, parse_str_body(s@, cur as int)),
        decreases len - cur,
    {
        if cur >= len {
            return None;
        }
        let c = s.get_char(cur);
        if c == '"' {
            proof {
                assert(parse_str_body(s@, cur as int) == Some((Seq::<char>::empty(), cur + 1)));
                assert(out@ + Seq::<char>::empty() =~= out@);
            }
            return Some((out, cur + 1));
        } else if c == '\\' {
            if cur + 1 < len {
                let e = s.get_char(cur + 1);
                if e == '"' || e == '\\' {
                    let ghost pre = out@;
                    if e == '"' {
                        out.append("\"");
                        proof {
                            reveal_strlit("\"");
                            assert(("\"")@ =~= seq![e]);
                        }
                    } else {
                        out.append("\\");
                        proof {
                            reveal_strlit("\\");
                            assert(("\\")@ =~= seq![e]);
                        }
                    }
                    proof {
                        assert(parse_str_body(s@, cur as int) == glue_chars(
                            seq![e],
                            parse_str_body(s@, cur + 2),
                        ));
                        lemma_glue_chars_assoc(pre, seq![e], parse_str_body(s@, cur + 2));
                        assert(pre + seq![e] =~= out@);
                    }
                    cur = cur + 2;
                } else {
                    return None;
                }
            } else {
                return None;
            }
        } else {
            let ghost pre = out@;
            let piece = s.substring_char(cur, cur + 1);
            out.append(piece);
            proof {
                assert(s@.subrange(cur as int, cur + 1) =~= seq![c]);
                assert(parse_str_body(s@, cur as int) == glue_chars(
                    seq![c],
                    parse_str_body(s@, cur + 1),
                ));
                lemma_glue_chars_assoc(pre, seq![c], parse_str_body(s@, cur + 1));
                assert(pre + seq![c] =~= out@);
            }
            cur = cur + 1;
        }
    }
}

/// Parse one position object at `i`.
fn parse_object_at(s: &str, len: usize, i: usize) -> (r: Option<(CurrentPos, usize)>)
    requires
        len == s@.len(),
        i <= len,
    ensures
        match r {
            Some((p, j)) => {
                &&& parse_object(s@, i as int) == Some((p@, j as int))
                &&& i < j <= len
                &&& p@.wf()
            },
            None => parse_object(s@, i as int) is None,
        },
{
    let i1 = match expect_lit(s, len, i, "{\"lati\":") {
        Some(j) => j,
        None => {
            return None;
        },
    };
    let (la, i2) = match parse_micro_at(s, len, i1) {
        Some(r) => r,
        None => {
            return None;
        },
    };
    let i3 = match expect_lit(s, len, i2, ",\"longi\":") {
        Some(j) => j,
        None => {
            return None;
        },
    };
    let (lo, i4) = match parse_micro_at(s, len, i3) {
        Some(r) => r,
        None => {
            return None;
        },
    };
    let i5 = match expect_lit(s, len, i4, ",\"name\":\"") {
        Some(j) => j,
        None => {
            return None;
        },
    };
    let (nm, i6) = match parse_str_body_at(s, len, i5) {
        Some(r) => r,
        None => {
            return None;
        },
    };
    if i6 < len && s.get_char(i6) == '}' && -LATI_LIMIT <= la && la <= LATI_LIMIT && -LONGI_LIMIT
        <= lo && lo <= LONGI_LIMIT {
        Some((CurrentPos { lati: la, longi: lo, name: nm }, i6 + 1))
    } else {
        None
    }
}

/// Parse the items of a non-empty array starting at `i`.
fn parse_items_at(s: &str, len: usize, i: usize) -> (r: Option<(Vec<CurrentPos>, usize)>)
    requires
        len == s@.len(),
        i <= len,
    ensures
        match r {
            Some((v, j)) => {
                &&& parse_items(s@, i as int) == Some((v.deep_view(), j as int))
                &&& j <= len
                &&& forall|k: int| 0 <= k < v.deep_view().len() ==> (#[trigger] v.deep_view()[k]).wf()
            },
            None => parse_items(s@, i as int) is None,
        },
{
    let mut out: Vec<CurrentPos> = Vec::new();
    let mut cur = i;
    loop
        invariant
            i <= cur <= len,
            len == s@.len(),
            parse_items(s@, i as int) == glue_items(out.deep_view(), parse_items(s@, cur as int)),
            forall|k: int| 0 <= k < out.deep_view().len() ==> (#[trigger] out.deep_view()[k]).wf(),
        decreases len - cur,
    {
        let (p, j) = match parse_object_at(s, len, cur) {
            Some(r) => r,
            None => {
                return None;
            },
        };
        let ghost pre = out.deep_view();
        let ghost pv = p@;
        if j < len {
            let c = s.get_char(j);
            if c == ',' {
                out.push(p);
                proof {
                    assert(parse_items(s@, cur as int) == glue_items(
                        seq![pv],
                        parse_items(s@, j + 1),
                    ));
                    lemma_glue_items_assoc(pre, seq![pv], parse_items(s@, j + 1));
                    assert(pre + seq![pv] =~= out.deep_view());
                }
                cur = j + 1;
            } else if c == ']' {
                out.push(p);
                proof {
                    assert(parse_items(s@, cur as int) == Some((seq![pv], j + 1)));
                    assert(pre + seq![pv] =~= out.deep_view());
                }
                return Some((out, j + 1));
            } else {
                return None;
            }
        } else {
            return None;
        }
    }
}

/// Parse a sync response body: a JSON array of position objects making up
/// the whole input.  `Ok` exactly when `roster_of` accepts the text; every
/// returned entry has in-range coordinates.
pub fn parse_roster(s: &str) -> (r: Result<Vec<CurrentPos>, ParseError>)
    ensures
        match r {
            Ok(v) => {
                &&& roster_of(s@) == Some(v.deep_view())
                &&& forall|k: int| 0 <= k < v.deep_view().len() ==> (#[trigger] v.deep_view()[k]).wf()
            },
            Err(_) => roster_of(s@) is None,
        },
{
    let len = s.unicode_len();
    if len == 0 || s.get_char(0) != '[' {
        return Err(ParseError::Malformed);
    }
    if len >= 2 && s.get_char(1) == ']' {
        if len == 2 {
            let v: Vec<CurrentPos> = Vec::new();
            proof {
                assert(v.deep_view() =~= Seq::<PosIdea>::empty());
            }
            return Ok(v);
        } else {
            return Err(ParseError::Malformed);
        }
    }
    match parse_items_at(s, len, 1) {
        Some((v, j)) => {
            if j == len {
                Ok(v)
            } else {
                Err(ParseError::Malformed)
            }
        },
        None => Err(ParseError::Malformed),
    }
}

} // verus!
