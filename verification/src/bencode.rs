//! Decoding of bencoded text into a `BCObject` value tree.
//!
//! The grammar has four forms, dispatched on one character of lookahead:
//! integers `i<digits>e`, strings `<len>:<chars>`, lists `l<items>e` and
//! dictionaries `d(<key><value>)*e`. A single forward-only cursor is shared
//! by all rules; every rejection is a typed `DecodeError`.

use vstd::prelude::*;

verus! {

use vstd::string::StrSliceExecFns;

broadcast use vstd::seq::group_seq_axioms, vstd::std_specs::vec::group_vec_axioms;

// ---------------------------------------------------------------------------
// Decimal text
// ---------------------------------------------------------------------------

pub open spec fn is_digit(c: char) -> bool {
    48 <= c as int && c as int <= 57
}

pub open spec fn digit_val(c: char) -> int {
    c as int - 48
}

/// Numeric value of a run of decimal digits, most significant digit first.
pub open spec fn digits_val(s: Seq<char>) -> int
    decreases s.len(),
{
    if s.len() == 0 {
        0
    } else {
        digits_val(s.drop_last()) * 10 + digit_val(s.last())
    }
}

pub open spec fn all_digits(s: Seq<char>) -> bool {
    forall|i: int| 0 <= i < s.len() ==> is_digit(#[trigger] s[i])
}

pub open spec fn has_sign(s: Seq<char>) -> bool {
    s.len() > 0 && (s[0] == '-' || s[0] == '+')
}

/// The digit run of signed decimal text: everything after an optional sign.
pub open spec fn digits_part(s: Seq<char>) -> Seq<char> {
    if has_sign(s) {
        s.skip(1)
    } else {
        s
    }
}

/// The integer denoted by an optional sign followed by digits.
pub open spec fn int_text_val(s: Seq<char>) -> int {
    if s.len() > 0 && s[0] == '-' {
        -digits_val(digits_part(s))
    } else {
        digits_val(digits_part(s))
    }
}

/// Whether `s` is accepted as signed decimal text for a value in `[lo, hi]`:
/// an optional sign, at least one digit, nothing else, value in range.
pub open spec fn int_text_ok(s: Seq<char>, lo: int, hi: int) -> bool {
    &&& digits_part(s).len() > 0
    &&& all_digits(digits_part(s))
    &&& lo <= int_text_val(s) <= hi
}

/// A character's code point is what `as u32` yields in executable code.
proof fn lemma_char_code(c: char)
    ensures
        c as u32 as int == c as int,
        0 <= c as int <= 0x10FFFF,
{
}

proof fn lemma_digits_val_nonneg(s: Seq<char>)
    requires
        all_digits(s),
    ensures
        digits_val(s) >= 0,
    decreases s.len(),
{
    if s.len() > 0 {
        assert(is_digit(s[s.len() - 1]));
        assert(all_digits(s.drop_last()));
        lemma_digits_val_nonneg(s.drop_last());
    }
}

/// A digit run is worth at least as much as any of its prefixes.
proof fn lemma_digits_val_prefix(s: Seq<char>, i: int)
    requires
        all_digits(s),
        0 <= i <= s.len(),
    ensures
        digits_val(s.subrange(0, i)) <= digits_val(s),
    decreases s.len() - i,
{
    if i == s.len() {
        assert(s.subrange(0, i) =~= s);
    } else {
        lemma_digits_val_prefix(s, i + 1);
        let t = s.subrange(0, i + 1);
        assert(t.drop_last() =~= s.subrange(0, i));
        assert(t.last() == s[i]);
        assert(is_digit(s[i]));
        assert(all_digits(s.subrange(0, i)));
        lemma_digits_val_nonneg(s.subrange(0, i));
        assert(digits_val(t) == digits_val(s.subrange(0, i)) * 10 + digit_val(s[i]));
        assert(digits_val(s.subrange(0, i)) <= digits_val(t));
    }
}

// ---------------------------------------------------------------------------
// Searching for a delimiter
// ---------------------------------------------------------------------------

/// Index of the first occurrence of `c` in `s` at or after position `p`.
pub open spec fn find_from(s: Seq<char>, p: int, c: char) -> Option<int>
    decreases s.len() - p when 0 <= p <= s.len()
{
    if p >= s.len() {
        None
    } else if s[p] == c {
        Some(p)
    } else {
        find_from(s, p + 1, c)
    }
}

proof fn lemma_find_from_range(s: Seq<char>, p: int, c: char)
    requires
        0 <= p <= s.len(),
    ensures
        find_from(s, p, c) matches Some(j) ==> p <= j < s.len() && s[j] == c,
    decreases s.len() - p,
{
    if p < s.len() && s[p] != c {
        lemma_find_from_range(s, p + 1, c);
    }
}

/// If no occurrence lies in `[p, q)`, the search from `p` and from `q` agree.
proof fn lemma_find_from_step(s: Seq<char>, p: int, q: int, c: char)
    requires
        0 <= p <= q <= s.len(),
        forall|k: int| p <= k < q ==> s[k] != c,
    ensures
        find_from(s, p, c) == find_from(s, q, c),
    decreases q - p,
{
    if p < q {
        lemma_find_from_step(s, p + 1, q, c);
    }
}

// ---------------------------------------------------------------------------
// The cursor
// ---------------------------------------------------------------------------

/// A forward-only, one-character-lookahead position over the input text.
pub struct Cursor {
    input: Vec<char>,
    pos: usize,
}

impl Cursor {
    /// The whole input text, as a sequence of characters.
    pub closed spec fn text(&self) -> Seq<char> {
        self.input@
    }

    /// The current position.
    pub closed spec fn at(&self) -> int {
        self.pos as int
    }

    pub open spec fn wf(&self) -> bool {
        self.at() <= self.text().len()
    }

    /// A cursor standing at the start of `blob`.
    #[verifier::loop_isolation(false)]
    pub fn new(blob: &str) -> (c: Cursor)
        ensures
            c.wf(),
            c.text() == blob@,
            c.at() == 0,
    {
        let n = blob.unicode_len();
        let mut v: Vec<char> = Vec::new();
        let mut i: usize = 0;
        while i < n
            invariant
                i <= n,
                n == blob@.len(),
                v@ == blob@.subrange(0, i as int),
            decreases n - i,
        {
            let ch = blob.get_char(i);
            v.push(ch);
            proof {
                assert(v@ =~= blob@.subrange(0, i as int + 1));
            }
            i += 1;
        }
        proof {
            assert(v@ =~= blob@);
        }
        Cursor { input: v, pos: 0 }
    }
}

// ---------------------------------------------------------------------------
// Values and errors
// ---------------------------------------------------------------------------

/// The mathematical value of a decoded tree: text and integers are exact,
/// list order is significant, and a dictionary is a sequence of key/value
/// pairs in strictly increasing key order.
pub enum BCVal {
    Text(Seq<char>),
    Int(int),
    ListV(Seq<BCVal>),
    DictV(Seq<(Seq<char>, BCVal)>),
}

/// A decoded bencode value.
#[derive(Debug)]
pub enum BCObject {
    String(String),
    Integer(i64),
    List(Vec<BCObject>),
    Dictionary(Vec<(String, BCObject)>),
}

/// The grammar rule inside which a failure was detected.
#[derive(Debug, Clone, Copy, PartialEq, Eq)]
pub enum ParseContext {
    Integer,
    Text,
    List,
    Dictionary,
    Dispatch,
}

/// Every way a decode can fail. The `u64` of `UnexpectedEnd` is the number
/// of characters still owed (nonzero only while reading string data).
#[derive(Debug, Clone, Copy, PartialEq, Eq)]
pub enum DecodeError {
    UnexpectedEnd(ParseContext, u64),
    UnrecognizedTag(char),
    MalformedInteger,
    MalformedLength,
    NonStringKey,
}

// ---------------------------------------------------------------------------
// Reading signed decimal text from the input
// ---------------------------------------------------------------------------

/// Reads `v[start..end]` as signed 64-bit decimal text, exactly as the
/// integer and length rules need it: `Some` on an optional sign followed by
/// one or more digits whose value fits an `i64`, `None` otherwise.
#[verifier::loop_isolation(false)]
pub(crate) fn i64_from_text(v: &Vec<char>, start: usize, end: usize) -> (r: Option<i64>)
    requires
        start <= end <= v@.len(),
    ensures
        r is Some <==> int_text_ok(
            v@.subrange(start as int, end as int),
            i64::MIN as int,
            i64::MAX as int,
        ),
        r matches Some(k) ==> k as int == int_text_val(v@.subrange(start as int, end as int)),
{
    let ghost s = v@.subrange(start as int, end as int);
    if start == end {
        assert(digits_part(s).len() == 0);
        return None;
    }
    let first = v[start];
    let neg = first == '-';
    let signed = neg || first == '+';
    let dstart = if signed { start + 1 } else { start };
    let ghost d = v@.subrange(dstart as int, end as int);
    proof {
        assert(has_sign(s) == signed);
        assert(digits_part(s) =~= d);
    }
    if dstart == end {
        return None;
    }
    // Magnitude bound: 2^63 for a negative value, 2^63 - 1 otherwise.
    let limit: u128 = if neg {
        9223372036854775808u128
    } else {
        9223372036854775807u128
    };
    let mut acc: u128 = 0;
    let mut i = dstart;
    while i < end
        invariant
            dstart <= i <= end <= v@.len(),
            d == v@.subrange(dstart as int, end as int),
            all_digits(d.subrange(0, i - dstart)),
            acc as int == digits_val(d.subrange(0, i - dstart)),
            acc <= limit,
            limit == if neg { 9223372036854775808u128 } else { 9223372036854775807u128 },
        decreases end - i,
    {
        let c = v[i];
        proof {
            lemma_char_code(c);
        }
        let cu = c as u32;
        if cu < 48 || cu > 57 {
            proof {
                assert(d[i - dstart] == c);
                assert(!is_digit(c));
                assert(!all_digits(d));
            }
            return None;
        }
        let dig = (cu - 48) as u128;
        proof {
            assert(dig as int == digit_val(c));
            let t = d.subrange(0, i - dstart + 1);
            assert(t.drop_last() =~= d.subrange(0, i - dstart));
            assert(t.last() == c);
            assert(digits_val(t) == acc as int * 10 + digit_val(c));
        }
        acc = acc * 10 + dig;
        proof {
            assert(digits_val(d.subrange(0, i - dstart + 1)) == acc as int);
        }
        if acc > limit {
            proof {
                assert(all_digits(d.subrange(0, i - dstart + 1)));
                if all_digits(d) {
                    lemma_digits_val_prefix(d, i - dstart + 1);
                    lemma_digits_val_nonneg(d);
                    assert(digits_val(d) > limit as int);
                    assert(s.len() > 0);
                    assert(s[0] == first);
                    assert(digits_part(s) == d);
                    if neg {
                        assert(int_text_val(s) == -digits_val(d));
                        assert(int_text_val(s) < i64::MIN as int);
                    } else {
                        assert(first != '-');
                        assert(int_text_val(s) == digits_val(d));
                        assert(int_text_val(s) > i64::MAX as int);
                    }
                }
            }
            return None;
        }
        i += 1;
    }
    proof {
        assert(d.subrange(0, end - dstart) =~= d);
        assert(all_digits(d));
        assert(digits_val(d) == acc as int);
    }
    if neg {
        if acc == 9223372036854775808u128 {
            Some(i64::MIN)
        } else {
            Some(-(acc as i64))
        }
    } else {
        Some(acc as i64)
    }
}

// ---------------------------------------------------------------------------
// The integer rule
// ---------------------------------------------------------------------------

/// The canonical-form restriction on an integer body: no "-0" start and no
/// superfluous leading zero.
pub open spec fn canonical_int_body(b: Seq<char>) -> bool {
    &&& !(b.len() >= 2 && b[0] == '-' && b[1] == '0')
    &&& !(b.len() > 1 && b[0] == '0')
}

/// Exactly what `parse_integer` returns when run at position `p0` of `s`,
/// with `p1` the position it stops at.
pub open spec fn integer_rule_post(
    s: Seq<char>,
    p0: int,
    p1: int,
    r: Result<BCObject, DecodeError>,
) -> bool {
    if p0 >= s.len() {
        r == Err::<BCObject, DecodeError>(DecodeError::UnexpectedEnd(ParseContext::Integer, 0))
    } else if s[p0] != 'i' {
        r == Err::<BCObject, DecodeError>(DecodeError::UnrecognizedTag(s[p0]))
    } else {
        match find_from(s, p0 + 1, 'e') {
            None => r == Err::<BCObject, DecodeError>(
                DecodeError::UnexpectedEnd(ParseContext::Integer, 0),
            ),
            Some(j) => {
                let body = s.subrange(p0 + 1, j);
                if !canonical_int_body(body) {
                    r == Err::<BCObject, DecodeError>(DecodeError::MalformedInteger)
                } else if !int_text_ok(body, i64::MIN as int, i64::MAX as int) {
                    r == Err::<BCObject, DecodeError>(DecodeError::MalformedInteger)
                } else {
                    &&& r == Ok::<BCObject, DecodeError>(
                        BCObject::Integer(int_text_val(body) as i64),
                    )
                    &&& p1 == j + 1
                }
            },
        }
    }
}

impl BCObject {
    /// The integer rule: `i<digits>e`, with the canonical-form checks.
    #[verifier::loop_isolation(false)]
    pub fn parse_integer(cur: &mut Cursor) -> (r: Result<BCObject, DecodeError>)
        requires
            old(cur).wf(),
        ensures
            final(cur).wf(),
            final(cur).text() == old(cur).text(),
            old(cur).at() <= final(cur).at(),
            integer_rule_post(old(cur).text(), old(cur).at(), final(cur).at(), r),
    {
        let ghost s = cur.text();
        let ghost p0 = cur.at();
        let len = cur.input.len();
        if cur.pos >= len {
            return Err(DecodeError::UnexpectedEnd(ParseContext::Integer, 0));
        }
        let c0 = cur.input[cur.pos];
        if c0 != 'i' {
            return Err(DecodeError::UnrecognizedTag(c0));
        }
        cur.pos = cur.pos + 1;
        let bstart = cur.pos;
        while cur.pos < len && cur.input[cur.pos] != 'e'
            invariant
                bstart <= cur.pos <= len,
                len == s.len(),
                cur.input@ == s,
                bstart == p0 + 1,
                find_from(s, bstart as int, 'e') == find_from(s, cur.pos as int, 'e'),
            decreases len - cur.pos,
        {
            proof {
                lemma_find_from_step(s, cur.pos as int, cur.pos as int + 1, 'e');
            }
            cur.pos = cur.pos + 1;
        }
        if cur.pos >= len {
            return Err(DecodeError::UnexpectedEnd(ParseContext::Integer, 0));
        }
        let bend = cur.pos;
        let ghost body = s.subrange(bstart as int, bend as int);
        proof {
            assert(find_from(s, bstart as int, 'e') == Some(bend as int));
        }
        // Canonical form: reject "-0..." and a leading zero on a longer body.
        if bend - bstart >= 2 && cur.input[bstart] == '-' && cur.input[bstart + 1] == '0' {
            return Err(DecodeError::MalformedInteger);
        }
        if bend - bstart > 1 && cur.input[bstart] == '0' {
            return Err(DecodeError::MalformedInteger);
        }
        proof {
            assert(canonical_int_body(body));
        }
        cur.pos = bend + 1;
        match i64_from_text(&cur.input, bstart, bend) {
            Some(n) => Ok(BCObject::Integer(n)),
            None => Err(DecodeError::MalformedInteger),
        }
    }
}

// ---------------------------------------------------------------------------
// Views: the mathematical value of a decoded tree
// ---------------------------------------------------------------------------

impl View for BCObject {
    type V = BCVal;

    open spec fn view(&self) -> BCVal
        decreases self, 1int,
    {
        match self {
            BCObject::String(s) => BCVal::Text(s@),
            BCObject::Integer(n) => BCVal::Int(*n as int),
            BCObject::List(items) => BCVal::ListV(objs_view(items@)),
            BCObject::Dictionary(ps) => BCVal::DictV(pairs_view(ps@)),
        }
    }
}

/// The element-wise value of a sequence of decoded objects.
pub open spec fn objs_view(os: Seq<BCObject>) -> Seq<BCVal>
    decreases os, 0int,
{
    if os.len() == 0 {
        Seq::empty()
    } else {
        seq![os[0]@] + objs_view(os.skip(1))
    }
}

/// The element-wise value of a sequence of key/value pairs.
pub open spec fn pairs_view(ps: Seq<(String, BCObject)>) -> Seq<(Seq<char>, BCVal)>
    decreases ps, 0int,
{
    if ps.len() == 0 {
        Seq::empty()
    } else {
        seq![(ps[0].0@, ps[0].1@)] + pairs_view(ps.skip(1))
    }
}

/// What `objs_view` holds, element by element.
pub proof fn lemma_objs_view(os: Seq<BCObject>)
    ensures
        objs_view(os).len() == os.len(),
        forall|i: int| 0 <= i < os.len() ==> objs_view(os)[i] == #[trigger] os[i]@,
    decreases os.len(),
{
    if os.len() > 0 {
        lemma_objs_view(os.skip(1));
        let sv = seq![os[0]@] + objs_view(os.skip(1));
        assert(objs_view(os) == sv);
        assert(sv.len() == 1 + objs_view(os.skip(1)).len());
        assert forall|i: int| 0 <= i < os.len() implies objs_view(os)[i] == os[i]@ by {
            if i > 0 {
                assert(os.skip(1)[i - 1] == os[i]);
                assert(sv[i] == objs_view(os.skip(1))[i - 1]);
            } else {
                assert(sv[0] == os[0]@);
            }
        }
    }
}

/// What `pairs_view` holds, element by element.
pub proof fn lemma_pairs_view(ps: Seq<(String, BCObject)>)
    ensures
        pairs_view(ps).len() == ps.len(),
        forall|i: int|
            0 <= i < ps.len() ==> pairs_view(ps)[i] == (#[trigger] ps[i].0@, ps[i].1@),
    decreases ps.len(),
{
    if ps.len() > 0 {
        lemma_pairs_view(ps.skip(1));
        let sv = seq![(ps[0].0@, ps[0].1@)] + pairs_view(ps.skip(1));
        assert(pairs_view(ps) == sv);
        assert(sv.len() == 1 + pairs_view(ps.skip(1)).len());
        assert forall|i: int|
            0 <= i < ps.len() implies pairs_view(ps)[i] == (ps[i].0@, ps[i].1@) by {
            if i > 0 {
                assert(ps.skip(1)[i - 1] == ps[i]);
                assert(sv[i] == pairs_view(ps.skip(1))[i - 1]);
            } else {
                assert(sv[0] == (ps[0].0@, ps[0].1@));
            }
        }
    }
}

// ---------------------------------------------------------------------------
// Lexicographic order on keys
// ---------------------------------------------------------------------------

/// Strict lexicographic order on character sequences, by code point.
pub open spec fn lex_lt(a: Seq<char>, b: Seq<char>) -> bool
    decreases a.len(),
{
    if b.len() == 0 {
        false
    } else if a.len() == 0 {
        true
    } else if (a[0] as int) < (b[0] as int) {
        true
    } else if a[0] == b[0] {
        lex_lt(a.skip(1), b.skip(1))
    } else {
        false
    }
}

proof fn lemma_lex_irrefl(a: Seq<char>)
    ensures
        !lex_lt(a, a),
    decreases a.len(),
{
    if a.len() > 0 {
        lemma_lex_irrefl(a.skip(1));
    }
}

/// Totality: two keys are ordered one way or the other, or equal.
proof fn lemma_lex_total(a: Seq<char>, b: Seq<char>)
    ensures
        lex_lt(a, b) || lex_lt(b, a) || a == b,
    decreases a.len(),
{
    if a.len() == 0 && b.len() == 0 {
        assert(a =~= b);
    } else if a.len() > 0 && b.len() > 0 && !((a[0] as int) < (b[0] as int)) && !((b[0] as int)
        < (a[0] as int)) {
        assert(a[0] == b[0]);
        lemma_lex_total(a.skip(1), b.skip(1));
        if !lex_lt(a.skip(1), b.skip(1)) && !lex_lt(b.skip(1), a.skip(1)) {
            assert(a.skip(1) == b.skip(1));
            assert forall|i: int| 0 <= i < a.len() implies a[i] == b[i] by {
                if i > 0 {
                    assert(a.skip(1)[i - 1] == a[i]);
                    assert(b.skip(1)[i - 1] == b[i]);
                }
            }
            assert(a.len() == b.len());
            assert(a =~= b);
        }
    }
}

proof fn lemma_lex_trans(a: Seq<char>, b: Seq<char>, c: Seq<char>)
    requires
        lex_lt(a, b),
        lex_lt(b, c),
    ensures
        lex_lt(a, c),
    decreases a.len(),
{
    if b.len() == 0 || c.len() == 0 {
    } else if a.len() == 0 {
    } else {
        if a[0] == b[0] && b[0] == c[0] {
            lemma_lex_trans(a.skip(1), b.skip(1), c.skip(1));
        }
    }
}

// ---------------------------------------------------------------------------
// Canonical dictionaries: sorted insertion and normalization
// ---------------------------------------------------------------------------

/// Insert a pair into a key-sorted pair sequence; an equal key is replaced,
/// so a later write wins.
pub open spec fn sorted_insert(
    ps: Seq<(Seq<char>, BCVal)>,
    k: Seq<char>,
    v: BCVal,
) -> Seq<(Seq<char>, BCVal)>
    decreases ps.len(),
{
    if ps.len() == 0 {
        seq![(k, v)]
    } else if lex_lt(ps[0].0, k) {
        seq![ps[0]] + sorted_insert(ps.skip(1), k, v)
    } else if ps[0].0 == k {
        seq![(k, v)] + ps.skip(1)
    } else {
        seq![(k, v)] + ps
    }
}

/// Fold a run of written pairs, in writing order, onto a sorted base.
pub open spec fn normalize_onto(
    base: Seq<(Seq<char>, BCVal)>,
    qs: Seq<(Seq<char>, BCVal)>,
) -> Seq<(Seq<char>, BCVal)>
    decreases qs.len(),
{
    if qs.len() == 0 {
        base
    } else {
        normalize_onto(sorted_insert(base, qs[0].0, qs[0].1), qs.skip(1))
    }
}

/// The canonical (sorted, duplicate-free, last-write-wins) form of a pair
/// sequence as it appeared in the input.
pub open spec fn normalize(qs: Seq<(Seq<char>, BCVal)>) -> Seq<(Seq<char>, BCVal)> {
    normalize_onto(Seq::empty(), qs)
}

proof fn lemma_normalize_onto_push(
    base: Seq<(Seq<char>, BCVal)>,
    qs: Seq<(Seq<char>, BCVal)>,
    k: Seq<char>,
    v: BCVal,
)
    ensures
        normalize_onto(base, qs.push((k, v))) == sorted_insert(normalize_onto(base, qs), k, v),
    decreases qs.len(),
{
    let e = (k, v);
    let w = qs.push(e);
    assert(w.len() == qs.len() + 1);
    if qs.len() == 0 {
        assert(w[0] == e);
        assert(w.skip(1) =~= Seq::<(Seq<char>, BCVal)>::empty());
        assert(normalize_onto(base, w) == normalize_onto(sorted_insert(base, k, v), w.skip(1)));
        assert(normalize_onto(sorted_insert(base, k, v), w.skip(1)) == sorted_insert(base, k, v));
        assert(normalize_onto(base, qs) == base);
    } else {
        assert(w[0] == qs[0]);
        assert(w.skip(1) =~= qs.skip(1).push(e));
        let base2 = sorted_insert(base, qs[0].0, qs[0].1);
        assert(normalize_onto(base, w) == normalize_onto(base2, w.skip(1)));
        lemma_normalize_onto_push(base2, qs.skip(1), k, v);
        assert(normalize_onto(base2, qs.skip(1).push(e)) == sorted_insert(
            normalize_onto(base2, qs.skip(1)),
            k,
            v,
        ));
        assert(normalize_onto(base, qs) == normalize_onto(base2, qs.skip(1)));
    }
}

// ---------------------------------------------------------------------------
// Well-formed values
// ---------------------------------------------------------------------------

/// Validity of every element of a list level.
pub open spec fn wf_items(items: Seq<BCVal>) -> bool
    decreases items, 0int,
{
    forall|i: int| 0 <= i < items.len() ==> wf_val(#[trigger] items[i])
}

/// Validity of a dictionary level: well-formed values under strictly
/// increasing keys.
pub open spec fn wf_pairs(ps: Seq<(Seq<char>, BCVal)>) -> bool
    decreases ps, 0int,
{
    &&& forall|i: int| 0 <= i < ps.len() ==> wf_val(#[trigger] ps[i].1)
    &&& forall|i: int, j: int|
        0 <= i < j < ps.len() ==> #[trigger] lex_lt(ps[i].0, ps[j].0)
}

/// Validity of a value tree: every integer fits an `i64` and every
/// dictionary level holds its pairs in strictly increasing key order.
pub open spec fn wf_val(v: BCVal) -> bool
    decreases v, 1int,
{
    match v {
        BCVal::Text(_) => true,
        BCVal::Int(n) => i64::MIN as int <= n <= i64::MAX as int,
        BCVal::ListV(items) => wf_items(items),
        BCVal::DictV(ps) => wf_pairs(ps),
    }
}

/// Every key of `sorted_insert(ps, k, v)` is `k` or a key of `ps`, and the
/// pair under `k` now holds `v`.
proof fn lemma_sorted_insert_keys(ps: Seq<(Seq<char>, BCVal)>, k: Seq<char>, v: BCVal, j: int)
    requires
        0 <= j < sorted_insert(ps, k, v).len(),
    ensures
        sorted_insert(ps, k, v)[j].0 == k || exists|i: int|
            0 <= i < ps.len() && #[trigger] ps[i] == sorted_insert(ps, k, v)[j],
    decreases ps.len(),
{
    let out = sorted_insert(ps, k, v);
    if ps.len() == 0 {
        assert(out[0] == (k, v));
    } else if lex_lt(ps[0].0, k) {
        if j == 0 {
            lemma_lex_irrefl(k);
            assert(ps[0].0 != k);
            assert(out[0] == ps[0]);
        } else {
            lemma_sorted_insert_keys(ps.skip(1), k, v, j - 1);
            let tail = sorted_insert(ps.skip(1), k, v);
            assert(out[j] == tail[j - 1]);
            if tail[j - 1].0 != k {
                let i0 = choose|i0: int|
                    0 <= i0 < ps.skip(1).len() && #[trigger] ps.skip(1)[i0] == tail[j - 1];
                assert(ps[i0 + 1] == out[j]);
            }
        }
    } else if ps[0].0 == k {
        if j == 0 {
            assert(out[0] == (k, v));
        } else {
            assert(out == seq![(k, v)] + ps.skip(1));
            assert(out[j] == ps.skip(1)[j - 1]);
            assert(ps.skip(1)[j - 1] == ps[j]);
            assert(ps[j] == out[j]);
        }
    } else {
        if j == 0 {
            assert(out[0] == (k, v));
        } else {
            assert(out == seq![(k, v)] + ps);
            assert(out[j] == ps[j - 1]);
            assert(ps[j - 1] == out[j]);
        }
    }
}

/// `sorted_insert` keeps a dictionary level well formed.
proof fn lemma_sorted_insert_wf(ps: Seq<(Seq<char>, BCVal)>, k: Seq<char>, v: BCVal)
    requires
        wf_pairs(ps),
        wf_val(v),
    ensures
        wf_pairs(sorted_insert(ps, k, v)),
    decreases ps.len(),
{
    let out = sorted_insert(ps, k, v);
    if ps.len() == 0 {
        assert(out[0] == (k, v));
    } else if lex_lt(ps[0].0, k) {
        let rest = ps.skip(1);
        assert forall|i: int| 0 <= i < rest.len() implies wf_val(#[trigger] rest[i].1) by {
            assert(rest[i] == ps[i + 1]);
        }
        assert forall|i: int, j: int|
            0 <= i < j < rest.len() implies #[trigger] lex_lt(rest[i].0, rest[j].0) by {
            assert(rest[i] == ps[i + 1]);
            assert(rest[j] == ps[j + 1]);
            assert(lex_lt(ps[i + 1].0, ps[j + 1].0));
        }
        lemma_sorted_insert_wf(rest, k, v);
        let tail = sorted_insert(rest, k, v);
        // The head key is below the inserted key and every key of the tail.
        assert forall|j: int| 0 <= j < tail.len() implies lex_lt(ps[0].0, tail[j].0) by {
            lemma_sorted_insert_keys(rest, k, v, j);
            if tail[j].0 == k {
                assert(lex_lt(ps[0].0, k));
            } else {
                let i0 = choose|i0: int|
                    0 <= i0 < rest.len() && #[trigger] rest[i0] == tail[j];
                assert(rest[i0] == ps[i0 + 1]);
                assert(lex_lt(ps[0].0, ps[i0 + 1].0));
            }
        }
        assert(out == seq![ps[0]] + tail);
        assert forall|i: int, j: int|
            0 <= i < j < out.len() implies #[trigger] lex_lt(out[i].0, out[j].0) by {
            assert(out[j] == tail[j - 1]);
            if i > 0 {
                assert(out[i] == tail[i - 1]);
            }
        }
        assert forall|i: int| 0 <= i < out.len() implies wf_val(#[trigger] out[i].1) by {
            if i > 0 {
                assert(out[i] == tail[i - 1]);
            } else {
                assert(out[0] == ps[0]);
            }
        }
    } else if ps[0].0 == k {
        assert(out == seq![(k, v)] + ps.skip(1));
        assert forall|i: int, j: int|
            0 <= i < j < out.len() implies #[trigger] lex_lt(out[i].0, out[j].0) by {
            assert(out[j] == ps.skip(1)[j - 1]);
            assert(ps.skip(1)[j - 1] == ps[j]);
            if i == 0 {
                assert(lex_lt(ps[0].0, ps[j].0));
            } else {
                assert(out[i] == ps[i]);
                assert(lex_lt(ps[i].0, ps[j].0));
            }
        }
        assert forall|i: int| 0 <= i < out.len() implies wf_val(#[trigger] out[i].1) by {
            if i > 0 {
                assert(out[i] == ps[i]);
            } else {
                assert(out[0] == (k, v));
            }
        }
    } else {
        lemma_lex_total(ps[0].0, k);
        assert(lex_lt(k, ps[0].0));
        assert(out == seq![(k, v)] + ps);
        assert forall|i: int, j: int|
            0 <= i < j < out.len() implies #[trigger] lex_lt(out[i].0, out[j].0) by {
            assert(out[j] == ps[j - 1]);
            if i == 0 {
                if j == 1 {
                } else {
                    assert(lex_lt(ps[0].0, ps[j - 1].0));
                    lemma_lex_trans(k, ps[0].0, ps[j - 1].0);
                }
            } else {
                assert(out[i] == ps[i - 1]);
                assert(lex_lt(ps[i - 1].0, ps[j - 1].0));
            }
        }
        assert forall|i: int| 0 <= i < out.len() implies wf_val(#[trigger] out[i].1) by {
            if i > 0 {
                assert(out[i] == ps[i - 1]);
            } else {
                assert(out[0] == (k, v));
            }
        }
    }
}

// ---------------------------------------------------------------------------
// The grammar relation
// ---------------------------------------------------------------------------

/// A value tree as written in the input: dictionary levels keep their pairs
/// in writing order, duplicates included. Decoding normalizes this shape.
pub enum RawVal {
    RText(Seq<char>),
    RInt(int),
    RList(Seq<RawVal>),
    RDict(Seq<(Seq<char>, RawVal)>),
}

/// End position of the length-prefixed string starting at `p`, assuming one
/// is there.
pub open spec fn raw_text_end(s: Seq<char>, p: int) -> int {
    match find_from(s, p, ':') {
        None => p,
        Some(j) => j + 1 + digits_val(s.subrange(p, j)),
    }
}

/// End position of the encoding of `rv` starting at `p`, assuming it is
/// there.
pub open spec fn raw_end(rv: RawVal, s: Seq<char>, p: int) -> int
    decreases rv, 1int,
{
    match rv {
        RawVal::RText(_) => raw_text_end(s, p),
        RawVal::RInt(_) => match find_from(s, p + 1, 'e') {
            None => p,
            Some(j) => j + 1,
        },
        RawVal::RList(items) => raw_items_end(items, s, p + 1) + 1,
        RawVal::RDict(qs) => raw_pairs_end(qs, s, p + 1) + 1,
    }
}

pub open spec fn raw_items_end(items: Seq<RawVal>, s: Seq<char>, p: int) -> int
    decreases items, 0int,
{
    if items.len() == 0 {
        p
    } else {
        raw_items_end(items.skip(1), s, raw_end(items[0], s, p))
    }
}

pub open spec fn raw_pairs_end(qs: Seq<(Seq<char>, RawVal)>, s: Seq<char>, p: int) -> int
    decreases qs, 0int,
{
    if qs.len() == 0 {
        p
    } else {
        raw_pairs_end(qs.skip(1), s, raw_end(qs[0].1, s, raw_text_end(s, p)))
    }
}

/// `s[p..q)` is the encoding of the length-prefixed string `t`.
pub open spec fn enc_text(t: Seq<char>, s: Seq<char>, p: int, q: int) -> bool {
    &&& 0 <= p
    &&& q <= s.len()
    &&& match find_from(s, p, ':') {
        None => false,
        Some(j) => {
            &&& p < j < q
            &&& all_digits(s.subrange(p, j))
            &&& digits_val(s.subrange(p, j)) <= i64::MAX as int
            &&& digits_val(s.subrange(p, j)) == q - j - 1
            &&& t == s.subrange(j + 1, q)
        },
    }
}

/// `s[p..q)` is an encoding of the raw value `rv`.
pub open spec fn enc_raw(rv: RawVal, s: Seq<char>, p: int, q: int) -> bool
    decreases rv, 1int,
{
    match rv {
        RawVal::RText(t) => enc_text(t, s, p, q),
        RawVal::RInt(n) => {
            &&& 0 <= p
            &&& q <= s.len()
            &&& q - p >= 3
            &&& s[p] == 'i'
            &&& s[q - 1] == 'e'
            &&& find_from(s, p + 1, 'e') == Some(q - 1)
            &&& canonical_int_body(s.subrange(p + 1, q - 1))
            &&& int_text_ok(s.subrange(p + 1, q - 1), i64::MIN as int, i64::MAX as int)
            &&& n == int_text_val(s.subrange(p + 1, q - 1))
        },
        RawVal::RList(items) => {
            &&& 0 <= p
            &&& q <= s.len()
            &&& q - p >= 2
            &&& s[p] == 'l'
            &&& s[q - 1] == 'e'
            &&& enc_raw_items(items, s, p + 1, q - 1)
        },
        RawVal::RDict(qs) => {
            &&& 0 <= p
            &&& q <= s.len()
            &&& q - p >= 2
            &&& s[p] == 'd'
            &&& s[q - 1] == 'e'
            &&& enc_raw_pairs(qs, s, p + 1, q - 1)
        },
    }
}

/// `s[p..q)` is the back-to-back concatenation of one encoding per item.
pub open spec fn enc_raw_items(items: Seq<RawVal>, s: Seq<char>, p: int, q: int) -> bool
    decreases items, 0int,
{
    if items.len() == 0 {
        p == q && 0 <= p <= s.len()
    } else {
        let m = raw_end(items[0], s, p);
        &&& enc_raw(items[0], s, p, m)
        &&& enc_raw_items(items.skip(1), s, m, q)
    }
}

/// `s[p..q)` is the concatenation of one key and one value encoding per
/// written pair.
pub open spec fn enc_raw_pairs(qs: Seq<(Seq<char>, RawVal)>, s: Seq<char>, p: int, q: int) -> bool
    decreases qs, 0int,
{
    if qs.len() == 0 {
        p == q && 0 <= p <= s.len()
    } else {
        let mk = raw_text_end(s, p);
        let mv = raw_end(qs[0].1, s, mk);
        &&& enc_text(qs[0].0, s, p, mk)
        &&& enc_raw(qs[0].1, s, mk, mv)
        &&& enc_raw_pairs(qs.skip(1), s, mv, q)
    }
}

/// The decoded form of a raw tree: every dictionary level sorted and
/// duplicate-free, later writes winning.
pub open spec fn cook(rv: RawVal) -> BCVal
    decreases rv, 1int,
{
    match rv {
        RawVal::RText(t) => BCVal::Text(t),
        RawVal::RInt(n) => BCVal::Int(n),
        RawVal::RList(items) => BCVal::ListV(cook_items(items)),
        RawVal::RDict(qs) => BCVal::DictV(normalize(cook_pairs(qs))),
    }
}

pub open spec fn cook_items(items: Seq<RawVal>) -> Seq<BCVal>
    decreases items, 0int,
{
    if items.len() == 0 {
        Seq::empty()
    } else {
        seq![cook(items[0])] + cook_items(items.skip(1))
    }
}

pub open spec fn cook_pairs(qs: Seq<(Seq<char>, RawVal)>) -> Seq<(Seq<char>, BCVal)>
    decreases qs, 0int,
{
    if qs.len() == 0 {
        Seq::empty()
    } else {
        seq![(qs[0].0, cook(qs[0].1))] + cook_pairs(qs.skip(1))
    }
}

/// The four tag characters are not digits.
proof fn lemma_tag_chars()
    ensures
        !is_digit('i'),
        !is_digit('l'),
        !is_digit('d'),
        !is_digit('e'),
        !is_digit(':'),
{
}

/// An encoding is nonempty and its first character names its form.
pub proof fn lemma_enc_raw_start(rv: RawVal, s: Seq<char>, p: int, q: int)
    requires
        enc_raw(rv, s, p, q),
    ensures
        0 <= p < q <= s.len(),
        rv is RInt ==> s[p] == 'i',
        rv is RList ==> s[p] == 'l',
        rv is RDict ==> s[p] == 'd',
        rv is RText ==> is_digit(s[p]),
        q == raw_end(rv, s, p),
    decreases rv, 1int,
{
    match rv {
        RawVal::RText(t) => {
            lemma_enc_text_start(t, s, p, q);
        },
        RawVal::RInt(_) => {},
        RawVal::RList(items) => {
            lemma_enc_raw_items_end(items, s, p + 1, q - 1);
        },
        RawVal::RDict(qs) => {
            lemma_enc_raw_pairs_end(qs, s, p + 1, q - 1);
        },
    }
}

pub proof fn lemma_enc_text_start(t: Seq<char>, s: Seq<char>, p: int, q: int)
    requires
        enc_text(t, s, p, q),
    ensures
        0 <= p < q <= s.len(),
        is_digit(s[p]),
        q == raw_text_end(s, p),
{
    match find_from(s, p, ':') {
        Some(j) => {
            let lt = s.subrange(p, j);
            assert(lt[0] == s[p]);
            assert(is_digit(lt[0]));
        },
        None => {},
    }
}

/// A run of encoded items ends where `raw_items_end` says, and advances.
proof fn lemma_enc_raw_items_end(items: Seq<RawVal>, s: Seq<char>, p: int, q: int)
    requires
        enc_raw_items(items, s, p, q),
    ensures
        0 <= p <= q <= s.len(),
        q == raw_items_end(items, s, p),
    decreases items, 0int,
{
    if items.len() > 0 {
        let m = raw_end(items[0], s, p);
        lemma_enc_raw_start(items[0], s, p, m);
        lemma_enc_raw_items_end(items.skip(1), s, m, q);
    }
}

proof fn lemma_enc_raw_pairs_end(qs: Seq<(Seq<char>, RawVal)>, s: Seq<char>, p: int, q: int)
    requires
        enc_raw_pairs(qs, s, p, q),
    ensures
        0 <= p <= q <= s.len(),
        q == raw_pairs_end(qs, s, p),
    decreases qs, 0int,
{
    if qs.len() > 0 {
        let mk = raw_text_end(s, p);
        let mv = raw_end(qs[0].1, s, mk);
        lemma_enc_text_start(qs[0].0, s, p, mk);
        lemma_enc_raw_start(qs[0].1, s, mk, mv);
        lemma_enc_raw_pairs_end(qs.skip(1), s, mv, q);
    }
}

/// Appending one more encoded item to an encoded run of items.
proof fn lemma_enc_raw_items_append(
    items: Seq<RawVal>,
    rv: RawVal,
    s: Seq<char>,
    p: int,
    m: int,
    q: int,
)
    requires
        enc_raw_items(items, s, p, m),
        enc_raw(rv, s, m, q),
    ensures
        enc_raw_items(items.push(rv), s, p, q),
    decreases items.len(),
{
    lemma_enc_raw_start(rv, s, m, q);
    if items.len() == 0 {
        assert(items.push(rv)[0] == rv);
        assert(items.push(rv).skip(1) =~= Seq::<RawVal>::empty());
        assert(raw_end(items.push(rv)[0], s, p) == q);
        assert(enc_raw_items(items.push(rv).skip(1), s, q, q));
    } else {
        let m0 = raw_end(items[0], s, p);
        lemma_enc_raw_items_append(items.skip(1), rv, s, m0, m, q);
        assert(items.skip(1).push(rv) =~= items.push(rv).skip(1));
        assert(items.push(rv)[0] == items[0]);
    }
}

/// Appending one more encoded key/value pair to an encoded run of pairs.
proof fn lemma_enc_raw_pairs_append(
    qs: Seq<(Seq<char>, RawVal)>,
    k: Seq<char>,
    rv: RawVal,
    s: Seq<char>,
    p: int,
    ma: int,
    mb: int,
    q: int,
)
    requires
        enc_raw_pairs(qs, s, p, ma),
        enc_text(k, s, ma, mb),
        enc_raw(rv, s, mb, q),
    ensures
        enc_raw_pairs(qs.push((k, rv)), s, p, q),
    decreases qs.len(),
{
    lemma_enc_text_start(k, s, ma, mb);
    lemma_enc_raw_start(rv, s, mb, q);
    let e = (k, rv);
    if qs.len() == 0 {
        assert(qs.push(e)[0] == e);
        assert(qs.push(e).skip(1) =~= Seq::<(Seq<char>, RawVal)>::empty());
        assert(enc_raw_pairs(qs.push(e).skip(1), s, q, q));
    } else {
        let mk = raw_text_end(s, p);
        let mv = raw_end(qs[0].1, s, mk);
        lemma_enc_raw_pairs_append(qs.skip(1), k, rv, s, mv, ma, mb, q);
        assert(qs.skip(1).push(e) =~= qs.push(e).skip(1));
        assert(qs.push(e)[0] == qs[0]);
    }
}

/// Determinism of the grammar: two encodings that start at the same
/// position carry the same raw value and end at the same position.
pub proof fn lemma_enc_raw_unique(
    r1: RawVal,
    r2: RawVal,
    s: Seq<char>,
    p: int,
    q1: int,
    q2: int,
)
    requires
        enc_raw(r1, s, p, q1),
        enc_raw(r2, s, p, q2),
    ensures
        r1 == r2,
        q1 == q2,
    decreases r1, 1int,
{
    lemma_enc_raw_start(r1, s, p, q1);
    lemma_enc_raw_start(r2, s, p, q2);
    lemma_tag_chars();
    match r1 {
        RawVal::RInt(n1) => {
            assert(r2 is RInt);
            assert(q1 == q2);
        },
        RawVal::RText(t1) => {
            assert(r2 is RText);
            match find_from(s, p, ':') {
                Some(j) => {
                    assert(q1 - j - 1 == digits_val(s.subrange(p, j)));
                    assert(q2 - j - 1 == digits_val(s.subrange(p, j)));
                    assert(t1 == s.subrange(j + 1, q1));
                },
                None => {},
            }
        },
        RawVal::RList(is1) => {
            assert(r2 is RList);
            let is2 = r2->RList_0;
            lemma_enc_raw_items_unique(is1, is2, s, p + 1, q1 - 1, q2 - 1);
        },
        RawVal::RDict(qs1) => {
            assert(r2 is RDict);
            let qs2 = r2->RDict_0;
            lemma_enc_raw_pairs_unique(qs1, qs2, s, p + 1, q1 - 1, q2 - 1);
        },
    }
}

proof fn lemma_enc_raw_items_unique(
    is1: Seq<RawVal>,
    is2: Seq<RawVal>,
    s: Seq<char>,
    p: int,
    b1: int,
    b2: int,
)
    requires
        enc_raw_items(is1, s, p, b1),
        enc_raw_items(is2, s, p, b2),
        b1 < s.len(),
        b2 < s.len(),
        s[b1] == 'e',
        s[b2] == 'e',
    ensures
        is1 == is2,
        b1 == b2,
    decreases is1, 0int,
{
    lemma_tag_chars();
    lemma_enc_raw_items_end(is1, s, p, b1);
    lemma_enc_raw_items_end(is2, s, p, b2);
    if is1.len() == 0 && is2.len() == 0 {
        assert(is1 =~= is2);
    } else if is1.len() == 0 {
        assert(raw_items_end(is1, s, p) == p);
        assert(b1 == p);
        let m = raw_end(is2[0], s, p);
        lemma_enc_raw_start(is2[0], s, p, m);
        assert(s[p] == 'e');
        assert(false);
    } else if is2.len() == 0 {
        assert(raw_items_end(is2, s, p) == p);
        assert(b2 == p);
        let m = raw_end(is1[0], s, p);
        lemma_enc_raw_start(is1[0], s, p, m);
        assert(s[p] == 'e');
        assert(false);
    } else {
        let m1 = raw_end(is1[0], s, p);
        let m2 = raw_end(is2[0], s, p);
        lemma_enc_raw_unique(is1[0], is2[0], s, p, m1, m2);
        lemma_enc_raw_items_unique(is1.skip(1), is2.skip(1), s, m1, b1, b2);
        assert(is1.skip(1).len() == is2.skip(1).len());
        assert(is1.len() == is2.len());
        assert forall|i: int| 0 <= i < is1.len() implies is1[i] == is2[i] by {
            if i > 0 {
                assert(is1.skip(1)[i - 1] == is1[i]);
                assert(is2.skip(1)[i - 1] == is2[i]);
            }
        }
        assert(is1 =~= is2);
    }
}

proof fn lemma_enc_raw_pairs_unique(
    qs1: Seq<(Seq<char>, RawVal)>,
    qs2: Seq<(Seq<char>, RawVal)>,
    s: Seq<char>,
    p: int,
    b1: int,
    b2: int,
)
    requires
        enc_raw_pairs(qs1, s, p, b1),
        enc_raw_pairs(qs2, s, p, b2),
        b1 < s.len(),
        b2 < s.len(),
        s[b1] == 'e',
        s[b2] == 'e',
    ensures
        qs1 == qs2,
        b1 == b2,
    decreases qs1, 0int,
{
    lemma_tag_chars();
    lemma_enc_raw_pairs_end(qs1, s, p, b1);
    lemma_enc_raw_pairs_end(qs2, s, p, b2);
    if qs1.len() == 0 && qs2.len() == 0 {
        assert(qs1 =~= qs2);
    } else if qs1.len() == 0 {
        let mk = raw_text_end(s, p);
        lemma_enc_text_start(qs2[0].0, s, p, mk);
        assert(s[p] == 'e');
        assert(false);
    } else if qs2.len() == 0 {
        let mk = raw_text_end(s, p);
        lemma_enc_text_start(qs1[0].0, s, p, mk);
        assert(s[p] == 'e');
        assert(false);
    } else {
        let mk = raw_text_end(s, p);
        lemma_enc_text_start(qs1[0].0, s, p, mk);
        lemma_enc_text_start(qs2[0].0, s, p, mk);
        match find_from(s, p, ':') {
            Some(j) => {
                assert(qs1[0].0 == s.subrange(j + 1, mk));
                assert(qs2[0].0 == s.subrange(j + 1, mk));
            },
            None => {
                assert(false);
            },
        }
        let mv1 = raw_end(qs1[0].1, s, mk);
        let mv2 = raw_end(qs2[0].1, s, mk);
        lemma_enc_raw_unique(qs1[0].1, qs2[0].1, s, mk, mv1, mv2);
        lemma_enc_raw_pairs_unique(qs1.skip(1), qs2.skip(1), s, mv1, b1, b2);
        assert(qs1[0] == qs2[0]);
        assert(qs1.skip(1).len() == qs2.skip(1).len());
        assert(qs1.len() == qs2.len());
        assert forall|i: int| 0 <= i < qs1.len() implies qs1[i] == qs2[i] by {
            if i > 0 {
                assert(qs1.skip(1)[i - 1] == qs1[i]);
                assert(qs2.skip(1)[i - 1] == qs2[i]);
            }
        }
        assert(qs1 =~= qs2);
    }
}

// ---------------------------------------------------------------------------
// Pointwise helper lemmas
// ---------------------------------------------------------------------------

pub proof fn lemma_objs_view_push(os: Seq<BCObject>, o: BCObject)
    ensures
        objs_view(os.push(o)) == objs_view(os).push(o@),
    decreases os.len(),
{
    reveal_with_fuel(objs_view, 3);
    if os.len() == 0 {
        assert(os.push(o)[0] == o);
        assert(os.push(o).skip(1) =~= Seq::<BCObject>::empty());
        assert(objs_view(os.push(o)) =~= objs_view(os).push(o@));
    } else {
        assert(os.push(o)[0] == os[0]);
        assert(os.push(o).skip(1) =~= os.skip(1).push(o));
        lemma_objs_view_push(os.skip(1), o);
        assert(objs_view(os.push(o)) =~= objs_view(os).push(o@));
    }
}

pub proof fn lemma_pairs_view_push(ps: Seq<(String, BCObject)>, x: (String, BCObject))
    ensures
        pairs_view(ps.push(x)) == pairs_view(ps).push((x.0@, x.1@)),
    decreases ps.len(),
{
    reveal_with_fuel(pairs_view, 3);
    if ps.len() == 0 {
        assert(ps.push(x)[0] == x);
        assert(ps.push(x).skip(1) =~= Seq::<(String, BCObject)>::empty());
        assert(pairs_view(ps.push(x)) =~= pairs_view(ps).push((x.0@, x.1@)));
    } else {
        assert(ps.push(x)[0] == ps[0]);
        assert(ps.push(x).skip(1) =~= ps.skip(1).push(x));
        lemma_pairs_view_push(ps.skip(1), x);
        assert(pairs_view(ps.push(x)) =~= pairs_view(ps).push((x.0@, x.1@)));
    }
}

pub proof fn lemma_cook_items_push(items: Seq<RawVal>, rv: RawVal)
    ensures
        cook_items(items.push(rv)) == cook_items(items).push(cook(rv)),
    decreases items.len(),
{
    reveal_with_fuel(cook_items, 3);
    if items.len() == 0 {
        assert(items.push(rv)[0] == rv);
        assert(items.push(rv).skip(1) =~= Seq::<RawVal>::empty());
        assert(cook_items(items.push(rv)) =~= cook_items(items).push(cook(rv)));
    } else {
        assert(items.push(rv)[0] == items[0]);
        assert(items.push(rv).skip(1) =~= items.skip(1).push(rv));
        lemma_cook_items_push(items.skip(1), rv);
        assert(cook_items(items.push(rv)) =~= cook_items(items).push(cook(rv)));
    }
}

pub proof fn lemma_cook_pairs_push(qs: Seq<(Seq<char>, RawVal)>, x: (Seq<char>, RawVal))
    ensures
        cook_pairs(qs.push(x)) == cook_pairs(qs).push((x.0, cook(x.1))),
    decreases qs.len(),
{
    reveal_with_fuel(cook_pairs, 3);
    if qs.len() == 0 {
        assert(qs.push(x)[0] == x);
        assert(qs.push(x).skip(1) =~= Seq::<(Seq<char>, RawVal)>::empty());
        assert(cook_pairs(qs.push(x)) =~= cook_pairs(qs).push((x.0, cook(x.1))));
    } else {
        assert(qs.push(x)[0] == qs[0]);
        assert(qs.push(x).skip(1) =~= qs.skip(1).push(x));
        lemma_cook_pairs_push(qs.skip(1), x);
        assert(cook_pairs(qs.push(x)) =~= cook_pairs(qs).push((x.0, cook(x.1))));
    }
}

/// Where a scan that has passed `i` strictly smaller keys stands in the
/// recursive `sorted_insert`.
proof fn lemma_sorted_insert_scan(ps: Seq<(Seq<char>, BCVal)>, k: Seq<char>, v: BCVal, i: int)
    requires
        0 <= i <= ps.len(),
        forall|j: int| 0 <= j < i ==> lex_lt(#[trigger] ps[j].0, k),
    ensures
        sorted_insert(ps, k, v) == ps.subrange(0, i) + sorted_insert(ps.skip(i), k, v),
    decreases i,
{
    if i == 0 {
        assert(ps.skip(0) =~= ps);
        assert(ps.subrange(0, 0) =~= Seq::<(Seq<char>, BCVal)>::empty());
        assert(sorted_insert(ps, k, v) =~= ps.subrange(0, 0) + sorted_insert(ps.skip(0), k, v));
    } else {
        assert(lex_lt(ps[0].0, k));
        let rest = ps.skip(1);
        assert forall|j: int| 0 <= j < i - 1 implies lex_lt(#[trigger] rest[j].0, k) by {
            assert(rest[j] == ps[j + 1]);
        }
        lemma_sorted_insert_scan(rest, k, v, i - 1);
        assert(rest.subrange(0, i - 1) =~= ps.subrange(1, i));
        assert(rest.skip(i - 1) =~= ps.skip(i));
        assert(sorted_insert(ps, k, v) == seq![ps[0]] + sorted_insert(rest, k, v));
        assert(sorted_insert(ps, k, v) =~= ps.subrange(0, i) + sorted_insert(ps.skip(i), k, v));
    }
}

/// What a character-by-character comparison that agrees below `i` decides.
proof fn lemma_lex_from_index(a: Seq<char>, b: Seq<char>, i: int)
    requires
        0 <= i <= a.len(),
        i <= b.len(),
        forall|j: int| 0 <= j < i ==> a[j] == #[trigger] b[j],
    ensures
        (i < a.len() && i < b.len() && (a[i] as int) < (b[i] as int)) ==> lex_lt(a, b),
        (i < a.len() && i < b.len() && (b[i] as int) < (a[i] as int)) ==> !lex_lt(a, b),
        (i == a.len() && i < b.len()) ==> lex_lt(a, b),
        i == b.len() ==> !lex_lt(a, b),
    decreases i,
{
    if i == 0 {
    } else {
        assert(a[0] == b[0]);
        let a1 = a.skip(1);
        let b1 = b.skip(1);
        assert forall|j: int| 0 <= j < i - 1 implies a1[j] == #[trigger] b1[j] by {
            assert(a1[j] == a[j + 1]);
            assert(b1[j] == b[j + 1]);
        }
        lemma_lex_from_index(a1, b1, i - 1);
        assert(lex_lt(a, b) == lex_lt(a1, b1));
        if i < a.len() && i < b.len() {
            assert(a1[i - 1] == a[i]);
            assert(b1[i - 1] == b[i]);
        }
    }
}

// ---------------------------------------------------------------------------
// Executable helpers: string building, key order, sorted insertion
// ---------------------------------------------------------------------------

/// Relies on `String::push`: appends the given character to the string.
#[verifier::external_body]
pub(crate) fn push_char(s: &mut String, c: char)
    ensures
        final(s)@ == old(s)@.push(c),
{
    s.push(c)
}

/// Whether `a` comes strictly before `b` in lexicographic key order.
#[verifier::loop_isolation(false)]
fn key_lt(a: &String, b: &String) -> (r: bool)
    ensures
        r == lex_lt(a@, b@),
{
    let na = a.as_str().unicode_len();
    let nb = b.as_str().unicode_len();
    let mut i: usize = 0;
    while i < na && i < nb
        invariant
            i <= na,
            i <= nb,
            na == a@.len(),
            nb == b@.len(),
            forall|j: int| 0 <= j < i ==> a@[j] == #[trigger] b@[j],
        decreases na - i,
    {
        let ca = a.as_str().get_char(i);
        let cb = b.as_str().get_char(i);
        proof {
            lemma_char_code(ca);
            lemma_char_code(cb);
        }
        let cau = ca as u32;
        let cbu = cb as u32;
        if cau < cbu {
            proof {
                lemma_lex_from_index(a@, b@, i as int);
            }
            return true;
        }
        if cbu < cau {
            proof {
                lemma_lex_from_index(a@, b@, i as int);
            }
            return false;
        }
        proof {
            assert(ca as int == cb as int);
            assert(ca == cb);
        }
        i += 1;
    }
    proof {
        lemma_lex_from_index(a@, b@, i as int);
    }
    na < nb
}

/// Insert a decoded pair, keeping the pair list sorted by key with a later
/// write replacing an earlier one.
#[verifier::loop_isolation(false)]
fn dict_insert(pairs: &mut Vec<(String, BCObject)>, key: String, val: BCObject)
    ensures
        pairs_view(final(pairs)@) == sorted_insert(pairs_view(old(pairs)@), key@, val@),
{
    let ghost orig = pairs@;
    let ghost pv = pairs_view(pairs@);
    proof {
        lemma_pairs_view(orig);
    }
    let mut i: usize = 0;
    while i < pairs.len() && key_lt(&pairs[i].0, &key)
        invariant
            0 <= i <= orig.len(),
            pairs@ == orig,
            pv == pairs_view(orig),
            forall|j: int| 0 <= j < i ==> lex_lt(#[trigger] pv[j].0, key@),
        decreases orig.len() - i,
    {
        proof {
            assert(pv[i as int] == (orig[i as int].0@, orig[i as int].1@));
        }
        i += 1;
    }
    proof {
        lemma_sorted_insert_scan(pv, key@, val@, i as int);
    }
    if i == pairs.len() {
        proof {
            assert(pv.skip(i as int) =~= Seq::<(Seq<char>, BCVal)>::empty());
            assert(sorted_insert(pv.skip(i as int), key@, val@) =~= seq![(key@, val@)]);
        }
        pairs.push((key, val));
        proof {
            lemma_pairs_view_push(orig, (key, val));
            assert(pv.subrange(0, i as int) =~= pv);
            assert(pairs_view(pairs@) =~= pv.subrange(0, i as int) + sorted_insert(
                pv.skip(i as int),
                key@,
                val@,
            ));
        }
    } else {
        proof {
            assert(pv[i as int] == (orig[i as int].0@, orig[i as int].1@));
            assert(!lex_lt(pv[i as int].0, key@));
            assert(pv.skip(i as int)[0] == pv[i as int]);
        }
        let same = pairs[i].0 == key;
        proof {
            assert(pv.len() == orig.len());
            assert(pv.skip(i as int).len() > 0);
        }
        if same {
            proof {
                assert(pv.skip(i as int)[0].0 == key@);
                lemma_lex_irrefl(key@);
                assert(sorted_insert(pv.skip(i as int), key@, val@) == seq![(key@, val@)]
                    + pv.skip(i as int).skip(1));
            }
            pairs[i] = (key, val);
            proof {
                lemma_pairs_view(pairs@);
                assert(pairs@ == orig.update(i as int, (key, val)));
                assert(pv.skip(i as int).skip(1) =~= pv.skip(i as int + 1));
                assert forall|j: int|
                    0 <= j < pairs@.len() implies pairs_view(pairs@)[j] == (pv.subrange(
                    0,
                    i as int,
                ) + sorted_insert(pv.skip(i as int), key@, val@))[j] by {
                    let rhs = pv.subrange(0, i as int) + sorted_insert(
                        pv.skip(i as int),
                        key@,
                        val@,
                    );
                    assert(pairs_view(pairs@)[j] == (pairs@[j].0@, pairs@[j].1@));
                    if j < i {
                        assert(pairs@[j] == orig[j]);
                        assert(pv[j] == (orig[j].0@, orig[j].1@));
                        assert(rhs[j] == pv.subrange(0, i as int)[j]);
                        assert(pv.subrange(0, i as int)[j] == pv[j]);
                    } else if j == i {
                        assert(pairs@[j] == (key, val));
                        assert(rhs[j] == (seq![(key@, val@)] + pv.skip(i as int + 1))[0]);
                        assert(rhs[j] == (key@, val@));
                    } else {
                        assert(pairs@[j] == orig[j]);
                        assert(rhs[j] == (seq![(key@, val@)] + pv.skip(i as int + 1))[j - i]);
                        assert(rhs[j] == pv.skip(i as int + 1)[j - i - 1]);
                        assert(pv.skip(i as int + 1)[j - i - 1] == pv[j]);
                        assert(pv[j] == (orig[j].0@, orig[j].1@));
                    }
                }
                assert(pairs_view(pairs@) =~= pv.subrange(0, i as int) + sorted_insert(
                    pv.skip(i as int),
                    key@,
                    val@,
                ));
            }
        } else {
            proof {
                assert(pv.skip(i as int)[0].0 != key@);
                assert(sorted_insert(pv.skip(i as int), key@, val@) == seq![(key@, val@)]
                    + pv.skip(i as int));
            }
            pairs.insert(i, (key, val));
            proof {
                lemma_pairs_view(pairs@);
                assert forall|j: int|
                    0 <= j < pairs@.len() implies pairs_view(pairs@)[j] == (pv.subrange(
                    0,
                    i as int,
                ) + sorted_insert(pv.skip(i as int), key@, val@))[j] by {
                    let rhs = pv.subrange(0, i as int) + sorted_insert(
                        pv.skip(i as int),
                        key@,
                        val@,
                    );
                    assert(pairs_view(pairs@)[j] == (pairs@[j].0@, pairs@[j].1@));
                    if j < i {
                        assert(pairs@[j] == orig[j]);
                        assert(pv[j] == (orig[j].0@, orig[j].1@));
                        assert(rhs[j] == pv.subrange(0, i as int)[j]);
                        assert(pv.subrange(0, i as int)[j] == pv[j]);
                    } else if j == i {
                        assert(pairs@[j] == (key, val));
                        assert(rhs[j] == (seq![(key@, val@)] + pv.skip(i as int))[0]);
                        assert(rhs[j] == (key@, val@));
                    } else {
                        assert(pairs@[j] == orig[j - 1]);
                        assert(rhs[j] == (seq![(key@, val@)] + pv.skip(i as int))[j - i]);
                        assert(rhs[j] == pv.skip(i as int)[j - i - 1]);
                        assert(pv.skip(i as int)[j - i - 1] == pv[j - 1]);
                        assert(pv[j - 1] == (orig[j - 1].0@, orig[j - 1].1@));
                    }
                }
                assert(pairs_view(pairs@) =~= pv.subrange(0, i as int) + sorted_insert(
                    pv.skip(i as int),
                    key@,
                    val@,
                ));
            }
        }
    }
}

// ---------------------------------------------------------------------------
// Small bridge lemmas between constructors and the spec functions
// ---------------------------------------------------------------------------

proof fn lemma_cook_shape(rv: RawVal)
    ensures
        rv is RText ==> cook(rv) == BCVal::Text(rv->RText_0),
        rv is RInt ==> cook(rv) == BCVal::Int(rv->RInt_0),
        rv is RList ==> cook(rv) == BCVal::ListV(cook_items(rv->RList_0)),
        rv is RDict ==> cook(rv) == BCVal::DictV(normalize(cook_pairs(rv->RDict_0))),
{
    match rv {
        RawVal::RText(_) => {},
        RawVal::RInt(_) => {},
        RawVal::RList(_) => {},
        RawVal::RDict(_) => {},
    }
}

proof fn lemma_view_shape(o: &BCObject)
    ensures
        o is String ==> o@ == BCVal::Text(o->String_0@),
        o is Integer ==> o@ == BCVal::Int(o->Integer_0 as int),
        o is List ==> o@ == BCVal::ListV(objs_view(o->List_0@)),
        o is Dictionary ==> o@ == BCVal::DictV(pairs_view(o->Dictionary_0@)),
{
    match o {
        BCObject::String(_) => {},
        BCObject::Integer(_) => {},
        BCObject::List(_) => {},
        BCObject::Dictionary(_) => {},
    }
}

proof fn lemma_wf_shape(v: BCVal)
    ensures
        v is Text ==> wf_val(v),
        v is Int ==> (wf_val(v) <==> i64::MIN as int <= v->Int_0 <= i64::MAX as int),
        v is ListV ==> (wf_val(v) <==> wf_items(v->ListV_0)),
        v is DictV ==> (wf_val(v) <==> wf_pairs(v->DictV_0)),
{
    match v {
        BCVal::Text(_) => {},
        BCVal::Int(_) => {},
        BCVal::ListV(_) => {},
        BCVal::DictV(_) => {},
    }
}

proof fn lemma_enc_raw_shape(rv: RawVal, s: Seq<char>, p: int, q: int)
    ensures
        rv is RText ==> (enc_raw(rv, s, p, q) <==> enc_text(rv->RText_0, s, p, q)),
        rv is RInt ==> (enc_raw(rv, s, p, q) <==> {
            &&& 0 <= p
            &&& q <= s.len()
            &&& q - p >= 3
            &&& s[p] == 'i'
            &&& s[q - 1] == 'e'
            &&& find_from(s, p + 1, 'e') == Some(q - 1)
            &&& canonical_int_body(s.subrange(p + 1, q - 1))
            &&& int_text_ok(s.subrange(p + 1, q - 1), i64::MIN as int, i64::MAX as int)
            &&& rv->RInt_0 == int_text_val(s.subrange(p + 1, q - 1))
        }),
        rv is RList ==> (enc_raw(rv, s, p, q) <==> {
            &&& 0 <= p
            &&& q <= s.len()
            &&& q - p >= 2
            &&& s[p] == 'l'
            &&& s[q - 1] == 'e'
            &&& enc_raw_items(rv->RList_0, s, p + 1, q - 1)
        }),
        rv is RDict ==> (enc_raw(rv, s, p, q) <==> {
            &&& 0 <= p
            &&& q <= s.len()
            &&& q - p >= 2
            &&& s[p] == 'd'
            &&& s[q - 1] == 'e'
            &&& enc_raw_pairs(rv->RDict_0, s, p + 1, q - 1)
        }),
{
    match rv {
        RawVal::RText(_) => {},
        RawVal::RInt(_) => {},
        RawVal::RList(_) => {},
        RawVal::RDict(_) => {},
    }
}

// ---------------------------------------------------------------------------
// The string rule
// ---------------------------------------------------------------------------

/// Exactly what `parse_string` returns when run at position `p0` of `s`,
/// with `p1` the position it stops at.
pub open spec fn string_rule_post(
    s: Seq<char>,
    p0: int,
    p1: int,
    r: Result<BCObject, DecodeError>,
) -> bool {
    match find_from(s, p0, ':') {
        None => r == Err::<BCObject, DecodeError>(DecodeError::UnexpectedEnd(ParseContext::Text, 0)),
        Some(j) => {
            let lt = s.subrange(p0, j);
            if !(lt.len() > 0 && all_digits(lt) && digits_val(lt) <= i64::MAX as int) {
                r == Err::<BCObject, DecodeError>(DecodeError::MalformedLength)
            } else if j + 1 + digits_val(lt) > s.len() {
                r == Err::<BCObject, DecodeError>(
                    DecodeError::UnexpectedEnd(
                        ParseContext::Text,
                        (j + 1 + digits_val(lt) - s.len()) as u64,
                    ),
                )
            } else {
                &&& r matches Ok(v) && v matches BCObject::String(out) && out@ == s.subrange(
                    j + 1,
                    j + 1 + digits_val(lt),
                )
                &&& p1 == j + 1 + digits_val(lt)
            }
        },
    }
}

/// No value's encoding starts at position `p` of `s`.
pub open spec fn no_encoding_at(s: Seq<char>, p: int) -> bool {
    forall|rv: RawVal, q: int| !enc_raw(rv, s, p, q)
}

/// No list encoding starts at position `p` of `s`.
pub open spec fn no_list_at(s: Seq<char>, p: int) -> bool {
    forall|rv: RawVal, q: int| rv is RList ==> !enc_raw(rv, s, p, q)
}

/// No dictionary encoding starts at position `p` of `s`.
pub open spec fn no_dict_at(s: Seq<char>, p: int) -> bool {
    forall|rv: RawVal, q: int| rv is RDict ==> !enc_raw(rv, s, p, q)
}

/// The characters the dispatcher recognizes.
pub open spec fn tag_char(c: char) -> bool {
    c == 'i' || c == 'l' || c == 'd' || is_digit(c)
}

/// While a list is being read: what any whole-list encoding starting at the
/// rule's entry must still hold beyond the items already decoded.
spec fn list_rest(rv: RawVal, q: int, done: Seq<RawVal>, s: Seq<char>, pos: int) -> bool {
    rv matches RawVal::RList(its) ==> {
        &&& done.len() <= its.len()
        &&& its.subrange(0, done.len() as int) == done
        &&& enc_raw_items(its.skip(done.len() as int), s, pos, q - 1)
    }
}

/// While a dictionary is being read: the analogue for pairs.
spec fn dict_rest(rv: RawVal, q: int, done: Seq<(Seq<char>, RawVal)>, s: Seq<char>, pos: int) -> bool {
    rv matches RawVal::RDict(qs) ==> {
        &&& done.len() <= qs.len()
        &&& qs.subrange(0, done.len() as int) == done
        &&& enc_raw_pairs(qs.skip(done.len() as int), s, pos, q - 1)
    }
}

impl BCObject {
    /// The string rule: `<len>:<chars>`, the length a plain digit run.
    #[verifier::loop_isolation(false)]
    pub fn parse_string(cur: &mut Cursor) -> (r: Result<BCObject, DecodeError>)
        requires
            old(cur).wf(),
        ensures
            final(cur).wf(),
            final(cur).text() == old(cur).text(),
            old(cur).at() <= final(cur).at(),
            string_rule_post(old(cur).text(), old(cur).at(), final(cur).at(), r),
    {
        let ghost s = cur.text();
        let ghost p0 = cur.at();
        let len = cur.input.len();
        let lstart = cur.pos;
        while cur.pos < len && cur.input[cur.pos] != ':'
            invariant
                lstart <= cur.pos <= len,
                cur.text() == s,
                len == s.len(),
                find_from(s, lstart as int, ':') == find_from(s, cur.pos as int, ':'),
            decreases len - cur.pos,
        {
            proof {
                lemma_find_from_step(s, cur.pos as int, cur.pos as int + 1, ':');
            }
            cur.pos = cur.pos + 1;
        }
        if cur.pos >= len {
            return Err(DecodeError::UnexpectedEnd(ParseContext::Text, 0));
        }
        let j = cur.pos;
        let ghost lt = s.subrange(lstart as int, j as int);
        proof {
            assert(find_from(s, lstart as int, ':') == Some(j as int));
        }
        if j == lstart {
            proof {
                assert(lt.len() == 0);
            }
            cur.pos = len;
            return Err(DecodeError::MalformedLength);
        }
        let c0 = cur.input[lstart];
        proof {
            lemma_char_code(c0);
            assert(lt[0] == c0);
        }
        let c0u = c0 as u32;
        if c0u < 48 || c0u > 57 {
            proof {
                assert(!is_digit(c0));
                assert(!all_digits(lt));
            }
            cur.pos = len;
            return Err(DecodeError::MalformedLength);
        }
        let k = match i64_from_text(&cur.input, lstart, j) {
            Some(k) => k,
            None => {
                proof {
                    // A digit-led text that fails the signed read has either a
                    // non-digit inside or a value beyond the range.
                    assert(!has_sign(lt));
                    assert(digits_part(lt) == lt);
                    if all_digits(lt) && digits_val(lt) <= i64::MAX as int {
                        lemma_digits_val_nonneg(lt);
                        assert(int_text_ok(lt, i64::MIN as int, i64::MAX as int));
                        assert(false);
                    }
                }
                cur.pos = len;
                return Err(DecodeError::MalformedLength);
            },
        };
        proof {
            assert(!has_sign(lt));
            assert(digits_part(lt) == lt);
            assert(all_digits(lt));
            assert(k as int == digits_val(lt));
            lemma_digits_val_nonneg(lt);
        }
        let avail = len - (j + 1);
        if (k as u64) > (avail as u64) {
            let owed = (k as u64) - (avail as u64);
            proof {
                assert(owed as int == j + 1 + digits_val(lt) - s.len());
            }
            cur.pos = len;
            return Err(DecodeError::UnexpectedEnd(ParseContext::Text, owed));
        }
        let ku = k as usize;
        let dstart = j + 1;
        let mut out = String::new();
        let mut x: usize = 0;
        while x < ku
            invariant
                0 <= x <= ku,
                ku == digits_val(lt),
                dstart == j + 1,
                dstart + ku <= len,
                out@ == s.subrange(dstart as int, dstart as int + x as int),
            decreases ku - x,
        {
            let ch = cur.input[dstart + x];
            push_char(&mut out, ch);
            proof {
                assert(out@ =~= s.subrange(dstart as int, dstart as int + x as int + 1));
            }
            x += 1;
        }
        cur.pos = dstart + ku;
        proof {
            assert(out@ == s.subrange(j as int + 1, j as int + 1 + digits_val(lt)));
        }
        Ok(BCObject::String(out))
    }

    /// The dispatcher: one character of lookahead picks the rule.
    pub fn parse(cur: &mut Cursor) -> (r: Result<BCObject, DecodeError>)
        requires
            old(cur).wf(),
        ensures
            final(cur).wf(),
            final(cur).text() == old(cur).text(),
            old(cur).at() <= final(cur).at(),
            r matches Ok(v) ==> exists|rv: RawVal|
                (#[trigger] enc_raw(rv, old(cur).text(), old(cur).at(), final(cur).at()))
                    && v@ == cook(rv) && wf_val(v@),
            r is Err ==> no_encoding_at(old(cur).text(), old(cur).at()),
            old(cur).at() >= old(cur).text().len() ==> r == Err::<BCObject, DecodeError>(
                DecodeError::UnexpectedEnd(ParseContext::Dispatch, 0),
            ),
            old(cur).at() < old(cur).text().len() && !tag_char(old(cur).text()[old(cur).at()])
                ==> r == Err::<BCObject, DecodeError>(
                DecodeError::UnrecognizedTag(old(cur).text()[old(cur).at()]),
            ),
            old(cur).at() < old(cur).text().len() && old(cur).text()[old(cur).at()] == 'i'
                ==> integer_rule_post(old(cur).text(), old(cur).at(), final(cur).at(), r),
            old(cur).at() < old(cur).text().len() && is_digit(old(cur).text()[old(cur).at()])
                ==> string_rule_post(old(cur).text(), old(cur).at(), final(cur).at(), r),
            matches_out(
                decode_out(
                    old(cur).text(),
                    old(cur).at(),
                    decode_fuel(old(cur).text(), old(cur).at()),
                ),
                final(cur).at(),
                r,
            ),
        decreases old(cur).text().len() - old(cur).at(), 1int,
    {
        let ghost s = cur.text();
        let ghost p0 = cur.at();
        if cur.pos >= cur.input.len() {
            proof {
                assert forall|rv: RawVal, q: int| !enc_raw(rv, s, p0, q) by {
                    if enc_raw(rv, s, p0, q) {
                        lemma_enc_raw_start(rv, s, p0, q);
                    }
                }
                assert(decode_fuel(s, p0) >= 2);
            }
            return Err(DecodeError::UnexpectedEnd(ParseContext::Dispatch, 0));
        }
        let c = cur.input[cur.pos];
        proof {
            lemma_char_code(c);
            lemma_tag_chars();
        }
        let cu = c as u32;
        if c == 'i' {
            let r = Self::parse_integer(cur);
            proof {
                let p1 = cur.at();
                match &r {
                    Ok(v) => {
                        match find_from(s, p0 + 1, 'e') {
                            Some(j) => {
                                let body = s.subrange(p0 + 1, j);
                                let rv = RawVal::RInt(int_text_val(body));
                                lemma_find_from_range(s, p0 + 1, 'e');
                                lemma_enc_raw_shape(rv, s, p0, p1);
                                assert(enc_raw(rv, s, p0, p1));
                                lemma_cook_shape(rv);
                                lemma_view_shape(&v);
                                lemma_wf_shape(v@);
                                assert(v@ == cook(rv) && wf_val(v@));
                            },
                            None => {
                                assert(false);
                            },
                        }
                    },
                    Err(_) => {
                        assert forall|rv: RawVal, q: int| !enc_raw(rv, s, p0, q) by {
                            if enc_raw(rv, s, p0, q) {
                                lemma_enc_raw_start(rv, s, p0, q);
                                assert(rv is RInt);
                                lemma_enc_raw_shape(rv, s, p0, q);
                            }
                        }
                    },
                }
                lemma_int_post_out(s, p0, p1, r);
                assert(decode_fuel(s, p0) >= 2);
                assert(decode_out(s, p0, decode_fuel(s, p0)) == Some(int_rule_out(s, p0)));
            }
            r
        } else if c == 'l' {
            let r = Self::parse_list(cur);
            proof {
                match &r {
                    Ok(_) => {},
                    Err(_) => {
                        assert forall|rv: RawVal, q: int| !enc_raw(rv, s, p0, q) by {
                            if enc_raw(rv, s, p0, q) {
                                lemma_enc_raw_start(rv, s, p0, q);
                                assert(rv is RList);
                            }
                        }
                    },
                }
            }
            r
        } else if c == 'd' {
            let r = Self::parse_dictionary(cur);
            proof {
                match &r {
                    Ok(_) => {},
                    Err(_) => {
                        assert forall|rv: RawVal, q: int| !enc_raw(rv, s, p0, q) by {
                            if enc_raw(rv, s, p0, q) {
                                lemma_enc_raw_start(rv, s, p0, q);
                                assert(rv is RDict);
                            }
                        }
                    },
                }
            }
            r
        } else if 48 <= cu && cu <= 57 {
            let r = Self::parse_string(cur);
            proof {
                let p1 = cur.at();
                match &r {
                    Ok(v) => {
                        match find_from(s, p0, ':') {
                            Some(j) => {
                                let lt = s.subrange(p0, j);
                                let rv = RawVal::RText(s.subrange(j + 1, j + 1 + digits_val(lt)));
                                lemma_find_from_range(s, p0, ':');
                                lemma_digits_val_nonneg(lt);
                                lemma_enc_raw_shape(rv, s, p0, p1);
                                assert(p0 < j < p1);
                                assert(enc_text(rv->RText_0, s, p0, p1));
                                assert(enc_raw(rv, s, p0, p1));
                                lemma_cook_shape(rv);
                                lemma_view_shape(&v);
                                lemma_wf_shape(v@);
                                assert(v@ == cook(rv) && wf_val(v@));
                            },
                            None => {
                                assert(false);
                            },
                        }
                    },
                    Err(_) => {
                        assert forall|rv: RawVal, q: int| !enc_raw(rv, s, p0, q) by {
                            if enc_raw(rv, s, p0, q) {
                                lemma_enc_raw_start(rv, s, p0, q);
                                assert(rv is RText);
                                lemma_enc_raw_shape(rv, s, p0, q);
                                lemma_enc_text_start(rv->RText_0, s, p0, q);
                            }
                        }
                    },
                }
                lemma_str_post_out(s, p0, p1, r);
                assert(decode_fuel(s, p0) >= 2);
                assert(s[p0] != 'i' && s[p0] != 'l' && s[p0] != 'd') by {
                    lemma_tag_chars();
                }
                assert(decode_out(s, p0, decode_fuel(s, p0)) == Some(str_rule_out(s, p0)));
            }
            r
        } else {
            proof {
                assert(!tag_char(c));
                assert forall|rv: RawVal, q: int| !enc_raw(rv, s, p0, q) by {
                    if enc_raw(rv, s, p0, q) {
                        lemma_enc_raw_start(rv, s, p0, q);
                    }
                }
                assert(decode_fuel(s, p0) >= 2);
            }
            Err(DecodeError::UnrecognizedTag(c))
        }
    }

    /// The list rule: `l<items>e`.
    #[verifier::loop_isolation(false)]
    pub fn parse_list(cur: &mut Cursor) -> (r: Result<BCObject, DecodeError>)
        requires
            old(cur).wf(),
        ensures
            final(cur).wf(),
            final(cur).text() == old(cur).text(),
            old(cur).at() <= final(cur).at(),
            r matches Ok(v) ==> exists|rv: RawVal|
                (#[trigger] enc_raw(rv, old(cur).text(), old(cur).at(), final(cur).at()))
                    && rv is RList && v@ == cook(rv) && wf_val(v@),
            r is Err ==> no_list_at(old(cur).text(), old(cur).at()),
            old(cur).at() >= old(cur).text().len() ==> r == Err::<BCObject, DecodeError>(
                DecodeError::UnexpectedEnd(ParseContext::List, 0),
            ),
            old(cur).at() < old(cur).text().len() && old(cur).text()[old(cur).at()] != 'l'
                ==> r == Err::<BCObject, DecodeError>(
                DecodeError::UnrecognizedTag(old(cur).text()[old(cur).at()]),
            ),
            old(cur).at() < old(cur).text().len() && old(cur).text()[old(cur).at()] == 'l'
                ==> matches_out(
                decode_out(
                    old(cur).text(),
                    old(cur).at(),
                    decode_fuel(old(cur).text(), old(cur).at()),
                ),
                final(cur).at(),
                r,
            ),
        decreases old(cur).text().len() - old(cur).at(), 0int,
    {
        let ghost s = cur.text();
        let ghost p0 = cur.at();
        let len = cur.input.len();
        if cur.pos >= len {
            proof {
                assert forall|rv: RawVal, q: int| rv is RList implies !enc_raw(rv, s, p0, q) by {
                    if enc_raw(rv, s, p0, q) {
                        lemma_enc_raw_start(rv, s, p0, q);
                    }
                }
            }
            return Err(DecodeError::UnexpectedEnd(ParseContext::List, 0));
        }
        let c0 = cur.input[cur.pos];
        if c0 != 'l' {
            proof {
                assert forall|rv: RawVal, q: int| rv is RList implies !enc_raw(rv, s, p0, q) by {
                    if enc_raw(rv, s, p0, q) {
                        lemma_enc_raw_start(rv, s, p0, q);
                    }
                }
            }
            return Err(DecodeError::UnrecognizedTag(c0));
        }
        cur.pos = cur.pos + 1;
        let mut items: Vec<BCObject> = Vec::new();
        let ghost mut ritems: Seq<RawVal> = Seq::empty();
        proof {
            assert(enc_raw_items(ritems, s, p0 + 1, cur.at()));
            assert(objs_view(items@) =~= cook_items(ritems));
            assert forall|rv: RawVal, q: int|
                rv is RList && #[trigger] enc_raw(rv, s, p0, q) implies list_rest(
                rv,
                q,
                ritems,
                s,
                cur.at(),
            ) by {
                lemma_enc_raw_shape(rv, s, p0, q);
                match rv {
                    RawVal::RList(its) => {
                        assert(its.skip(0) =~= its);
                        assert(its.subrange(0, 0) =~= ritems);
                    },
                    _ => {},
                }
            }
        }
        while cur.pos < len && cur.input[cur.pos] != 'e'
            invariant
                cur.wf(),
                cur.text() == s,
                len == s.len(),
                p0 + 1 <= cur.at() <= len,
                enc_raw_items(ritems, s, p0 + 1, cur.at()),
                objs_view(items@) == cook_items(ritems),
                wf_items(objs_view(items@)),
                list_walk(s, p0 + 1, walk_fuel(s, p0 + 1)) == list_walk(
                    s,
                    cur.at(),
                    walk_fuel(s, cur.at()),
                ),
                forall|rv: RawVal, q: int|
                    rv is RList && #[trigger] enc_raw(rv, s, p0, q) ==> list_rest(
                        rv,
                        q,
                        ritems,
                        s,
                        cur.at(),
                    ),
            decreases len - cur.pos,
        {
            let ghost pos = cur.at();
            let item = match Self::parse(cur) {
                Ok(v) => v,
                Err(e) => {
                    proof {
                        assert forall|rv: RawVal, q: int|
                            rv is RList implies !enc_raw(rv, s, p0, q) by {
                            if enc_raw(rv, s, p0, q) {
                                lemma_enc_raw_start(rv, s, p0, q);
                                match rv {
                                    RawVal::RList(its) => {
                                        let rest = its.skip(ritems.len() as int);
                                        if rest.len() == 0 {
                                            lemma_enc_raw_items_end(rest, s, pos, q - 1);
                                            assert(pos == q - 1);
                                            lemma_enc_raw_shape(rv, s, p0, q);
                                            assert(s[pos] == 'e');
                                            assert(false);
                                        } else {
                                            let m = raw_end(rest[0], s, pos);
                                            assert(enc_raw(rest[0], s, pos, m));
                                            assert(false);
                                        }
                                    },
                                    _ => {},
                                }
                            }
                        }
                        assert(walk_fuel(s, pos) >= 3);
                        assert((walk_fuel(s, pos) - 1) as nat == decode_fuel(s, pos));
                        assert(list_walk(s, pos, walk_fuel(s, pos)) == Some(
                            Err::<int, DecodeError>(e),
                        ));
                        assert((decode_fuel(s, p0) - 1) as nat == walk_fuel(s, p0 + 1));
                    }
                    return Err(e);
                },
            };
            let ghost newpos = cur.at();
            let ghost rv_item = choose|rv: RawVal|
                (#[trigger] enc_raw(rv, s, pos, newpos)) && item@ == cook(rv) && wf_val(item@);
            proof {
                lemma_enc_raw_start(rv_item, s, pos, newpos);
                assert(walk_fuel(s, pos) >= 3);
                assert((walk_fuel(s, pos) - 1) as nat == decode_fuel(s, pos));
                assert(list_walk(s, pos, walk_fuel(s, pos)) == list_walk(
                    s,
                    newpos,
                    (walk_fuel(s, pos) - 1) as nat,
                ));
                lemma_list_walk_some(s, newpos, walk_fuel(s, newpos));
                lemma_list_walk_mono(
                    s,
                    newpos,
                    walk_fuel(s, newpos),
                    (walk_fuel(s, pos) - 1) as nat,
                );
            }
            let ghost olditems = items@;
            items.push(item);
            proof {
                lemma_enc_raw_items_append(ritems, rv_item, s, p0 + 1, pos, newpos);
                lemma_objs_view_push(olditems, item);
                assert(items@ == olditems.push(item));
                lemma_cook_items_push(ritems, rv_item);
                let new_ritems = ritems.push(rv_item);
                assert(objs_view(items@) == objs_view(olditems).push(item@));
                assert(cook_items(new_ritems) == cook_items(ritems).push(cook(rv_item)));
                assert(objs_view(items@) == cook_items(new_ritems));
                assert forall|i: int|
                    0 <= i < objs_view(items@).len() implies wf_val(
                    #[trigger] objs_view(items@)[i],
                ) by {
                    if i < objs_view(items@).len() - 1 {
                        assert(objs_view(items@)[i] == cook_items(ritems)[i]);
                    } else {
                        assert(objs_view(items@)[i] == item@);
                    }
                }
                assert forall|rv: RawVal, q: int|
                    rv is RList && #[trigger] enc_raw(rv, s, p0, q) implies list_rest(
                    rv,
                    q,
                    new_ritems,
                    s,
                    newpos,
                ) by {
                    match rv {
                        RawVal::RList(its) => {
                            let rest = its.skip(ritems.len() as int);
                            if rest.len() == 0 {
                                lemma_enc_raw_items_end(rest, s, pos, q - 1);
                                lemma_enc_raw_shape(rv, s, p0, q);
                                lemma_enc_raw_start(rv, s, p0, q);
                                assert(s[pos] == 'e');
                                assert(false);
                            } else {
                                let m = raw_end(rest[0], s, pos);
                                assert(enc_raw(rest[0], s, pos, m));
                                lemma_enc_raw_unique(rest[0], rv_item, s, pos, m, newpos);
                                assert(its[ritems.len() as int] == rest[0]);
                                assert(its.subrange(0, new_ritems.len() as int)
                                    =~= new_ritems);
                                assert(rest.skip(1) =~= its.skip(new_ritems.len() as int));
                            }
                        },
                        _ => {},
                    }
                }
                ritems = new_ritems;
            }
        }
        if cur.pos >= len {
            proof {
                assert forall|rv: RawVal, q: int| rv is RList implies !enc_raw(rv, s, p0, q) by {
                    if enc_raw(rv, s, p0, q) {
                        lemma_enc_raw_start(rv, s, p0, q);
                        match rv {
                            RawVal::RList(its) => {
                                let rest = its.skip(ritems.len() as int);
                                lemma_enc_raw_items_end(rest, s, cur.at(), q - 1);
                                assert(q - 1 >= cur.at());
                                assert(false);
                            },
                            _ => {},
                        }
                    }
                }
            }
            proof {
                assert(cur.at() == len);
                assert(walk_fuel(s, cur.at()) >= 3);
                assert(list_walk(s, cur.at(), walk_fuel(s, cur.at())) == Some(
                    Err::<int, DecodeError>(DecodeError::UnexpectedEnd(ParseContext::List, 0)),
                ));
                assert((decode_fuel(s, p0) - 1) as nat == walk_fuel(s, p0 + 1));
            }
            return Err(DecodeError::UnexpectedEnd(ParseContext::List, 0));
        }
        proof {
            assert(walk_fuel(s, cur.at()) >= 3);
            assert(list_walk(s, cur.at(), walk_fuel(s, cur.at())) == Some(
                Ok::<int, DecodeError>(cur.at() + 1),
            ));
            assert((decode_fuel(s, p0) - 1) as nat == walk_fuel(s, p0 + 1));
        }
        cur.pos = cur.pos + 1;
        let out = BCObject::List(items);
        proof {
            let rv = RawVal::RList(ritems);
            lemma_enc_raw_shape(rv, s, p0, cur.at());
            assert(enc_raw(rv, s, p0, cur.at()));
            lemma_cook_shape(rv);
            lemma_view_shape(&out);
            lemma_wf_shape(out@);
            assert(out@ == cook(rv) && wf_val(out@));
        }
        Ok(out)
    }
}

impl BCObject {
    /// The dictionary rule: `d(<key><value>)*e`, keys decoded with the
    /// string rule only; the result holds its pairs sorted by key, a later
    /// duplicate overwriting an earlier one.
    #[verifier::loop_isolation(false)]
    pub fn parse_dictionary(cur: &mut Cursor) -> (r: Result<BCObject, DecodeError>)
        requires
            old(cur).wf(),
        ensures
            final(cur).wf(),
            final(cur).text() == old(cur).text(),
            old(cur).at() <= final(cur).at(),
            r matches Ok(v) ==> exists|rv: RawVal|
                (#[trigger] enc_raw(rv, old(cur).text(), old(cur).at(), final(cur).at()))
                    && rv is RDict && v@ == cook(rv) && wf_val(v@),
            r is Err ==> no_dict_at(old(cur).text(), old(cur).at()),
            old(cur).at() >= old(cur).text().len() ==> r == Err::<BCObject, DecodeError>(
                DecodeError::UnexpectedEnd(ParseContext::Dictionary, 0),
            ),
            old(cur).at() < old(cur).text().len() && old(cur).text()[old(cur).at()] != 'd'
                ==> r == Err::<BCObject, DecodeError>(
                DecodeError::UnrecognizedTag(old(cur).text()[old(cur).at()]),
            ),
            old(cur).at() < old(cur).text().len() && old(cur).text()[old(cur).at()] == 'd'
                ==> matches_out(
                decode_out(
                    old(cur).text(),
                    old(cur).at(),
                    decode_fuel(old(cur).text(), old(cur).at()),
                ),
                final(cur).at(),
                r,
            ),
        decreases old(cur).text().len() - old(cur).at(), 0int,
    {
        let ghost s = cur.text();
        let ghost p0 = cur.at();
        let len = cur.input.len();
        if cur.pos >= len {
            proof {
                assert forall|rv: RawVal, q: int| rv is RDict implies !enc_raw(rv, s, p0, q) by {
                    if enc_raw(rv, s, p0, q) {
                        lemma_enc_raw_start(rv, s, p0, q);
                    }
                }
            }
            return Err(DecodeError::UnexpectedEnd(ParseContext::Dictionary, 0));
        }
        let c0 = cur.input[cur.pos];
        if c0 != 'd' {
            proof {
                assert forall|rv: RawVal, q: int| rv is RDict implies !enc_raw(rv, s, p0, q) by {
                    if enc_raw(rv, s, p0, q) {
                        lemma_enc_raw_start(rv, s, p0, q);
                    }
                }
            }
            return Err(DecodeError::UnrecognizedTag(c0));
        }
        cur.pos = cur.pos + 1;
        let mut pairs: Vec<(String, BCObject)> = Vec::new();
        let ghost mut rpairs: Seq<(Seq<char>, RawVal)> = Seq::empty();
        proof {
            assert(enc_raw_pairs(rpairs, s, p0 + 1, cur.at()));
            assert(cook_pairs(rpairs) =~= Seq::<(Seq<char>, BCVal)>::empty());
            assert(pairs_view(pairs@) =~= normalize(cook_pairs(rpairs)));
            assert forall|rv: RawVal, q: int|
                rv is RDict && #[trigger] enc_raw(rv, s, p0, q) implies dict_rest(
                rv,
                q,
                rpairs,
                s,
                cur.at(),
            ) by {
                lemma_enc_raw_shape(rv, s, p0, q);
                match rv {
                    RawVal::RDict(qs) => {
                        assert(qs.skip(0) =~= qs);
                        assert(qs.subrange(0, 0) =~= rpairs);
                    },
                    _ => {},
                }
            }
        }
        while cur.pos < len && cur.input[cur.pos] != 'e'
            invariant
                cur.wf(),
                cur.text() == s,
                len == s.len(),
                p0 + 1 <= cur.at() <= len,
                enc_raw_pairs(rpairs, s, p0 + 1, cur.at()),
                pairs_view(pairs@) == normalize(cook_pairs(rpairs)),
                wf_pairs(pairs_view(pairs@)),
                dict_walk(s, p0 + 1, walk_fuel(s, p0 + 1)) == dict_walk(
                    s,
                    cur.at(),
                    walk_fuel(s, cur.at()),
                ),
                forall|rv: RawVal, q: int|
                    rv is RDict && #[trigger] enc_raw(rv, s, p0, q) ==> dict_rest(
                        rv,
                        q,
                        rpairs,
                        s,
                        cur.at(),
                    ),
            decreases len - cur.pos,
        {
            let ghost pos = cur.at();
            // A key must be a length-prefixed string: its first character is
            // a digit.
            let kc = cur.input[cur.pos];
            proof {
                lemma_char_code(kc);
                lemma_tag_chars();
            }
            let kcu = kc as u32;
            if kcu < 48 || kcu > 57 {
                proof {
                    assert(!is_digit(kc));
                    assert forall|rv: RawVal, q: int|
                        rv is RDict implies !enc_raw(rv, s, p0, q) by {
                        if enc_raw(rv, s, p0, q) {
                            lemma_enc_raw_start(rv, s, p0, q);
                            match rv {
                                RawVal::RDict(qs) => {
                                    let rest = qs.skip(rpairs.len() as int);
                                    if rest.len() == 0 {
                                        lemma_enc_raw_pairs_end(rest, s, pos, q - 1);
                                        lemma_enc_raw_shape(rv, s, p0, q);
                                        assert(s[pos] == 'e');
                                        assert(false);
                                    } else {
                                        let mk = raw_text_end(s, pos);
                                        assert(enc_text(rest[0].0, s, pos, mk));
                                        lemma_enc_text_start(rest[0].0, s, pos, mk);
                                        assert(false);
                                    }
                                },
                                _ => {},
                            }
                        }
                    }
                    assert(walk_fuel(s, pos) >= 3);
                    assert(dict_walk(s, pos, walk_fuel(s, pos)) == Some(
                        Err::<int, DecodeError>(DecodeError::NonStringKey),
                    ));
                    assert((decode_fuel(s, p0) - 1) as nat == walk_fuel(s, p0 + 1));
                }
                return Err(DecodeError::NonStringKey);
            }
            let key = match Self::parse_string(cur) {
                Ok(BCObject::String(k)) => k,
                Ok(_) => {
                    proof {
                        match find_from(s, pos, ':') {
                            Some(_) => {
                                assert(false);
                            },
                            None => {
                                assert(false);
                            },
                        }
                    }
                    return Err(DecodeError::NonStringKey);
                },
                Err(e) => {
                    proof {
                        assert forall|rv: RawVal, q: int|
                            rv is RDict implies !enc_raw(rv, s, p0, q) by {
                            if enc_raw(rv, s, p0, q) {
                                lemma_enc_raw_start(rv, s, p0, q);
                                match rv {
                                    RawVal::RDict(qs) => {
                                        let rest = qs.skip(rpairs.len() as int);
                                        if rest.len() == 0 {
                                            lemma_enc_raw_pairs_end(rest, s, pos, q - 1);
                                            lemma_enc_raw_shape(rv, s, p0, q);
                                            assert(s[pos] == 'e');
                                            assert(false);
                                        } else {
                                            let mk = raw_text_end(s, pos);
                                            assert(enc_text(rest[0].0, s, pos, mk));
                                            lemma_enc_text_start(rest[0].0, s, pos, mk);
                                            match find_from(s, pos, ':') {
                                                Some(j) => {
                                                    assert(false);
                                                },
                                                None => {
                                                    assert(false);
                                                },
                                            }
                                        }
                                    },
                                    _ => {},
                                }
                            }
                        }
                        lemma_str_post_out(s, pos, cur.at(), Err(e));
                        assert(walk_fuel(s, pos) >= 3);
                        assert(dict_walk(s, pos, walk_fuel(s, pos)) == Some(
                            Err::<int, DecodeError>(e),
                        ));
                        assert((decode_fuel(s, p0) - 1) as nat == walk_fuel(s, p0 + 1));
                    }
                    return Err(e);
                },
            };
            let ghost keyend = cur.at();
            proof {
                // The exact string contract pins the key's span.
                match find_from(s, pos, ':') {
                    Some(j) => {
                        assert(key@ == s.subrange(j + 1, keyend));
                    },
                    None => {
                        assert(false);
                    },
                }
                lemma_str_post_out(s, pos, keyend, Ok(BCObject::String(key)));
                assert(str_rule_out(s, pos) == Ok::<int, DecodeError>(keyend));
                lemma_str_rule_out_end(s, pos);
            }
            let val = match Self::parse(cur) {
                Ok(v) => v,
                Err(e) => {
                    proof {
                        assert forall|rv: RawVal, q: int|
                            rv is RDict implies !enc_raw(rv, s, p0, q) by {
                            if enc_raw(rv, s, p0, q) {
                                lemma_enc_raw_start(rv, s, p0, q);
                                match rv {
                                    RawVal::RDict(qs) => {
                                        let rest = qs.skip(rpairs.len() as int);
                                        if rest.len() == 0 {
                                            lemma_enc_raw_pairs_end(rest, s, pos, q - 1);
                                            lemma_enc_raw_shape(rv, s, p0, q);
                                            assert(s[pos] == 'e');
                                            assert(false);
                                        } else {
                                            let mk = raw_text_end(s, pos);
                                            assert(enc_text(rest[0].0, s, pos, mk));
                                            lemma_enc_text_start(rest[0].0, s, pos, mk);
                                            match find_from(s, pos, ':') {
                                                Some(j) => {
                                                    assert(mk == keyend);
                                                    let mv = raw_end(rest[0].1, s, mk);
                                                    assert(enc_raw(rest[0].1, s, keyend, mv));
                                                    assert(false);
                                                },
                                                None => {
                                                    assert(false);
                                                },
                                            }
                                        }
                                    },
                                    _ => {},
                                }
                            }
                        }
                        assert(walk_fuel(s, pos) >= 3);
                        assert((walk_fuel(s, pos) - 1) as nat >= decode_fuel(s, keyend));
                        lemma_decode_out_some(s, keyend, decode_fuel(s, keyend));
                        lemma_decode_out_mono(
                            s,
                            keyend,
                            decode_fuel(s, keyend),
                            (walk_fuel(s, pos) - 1) as nat,
                        );
                        assert(dict_walk(s, pos, walk_fuel(s, pos)) == Some(
                            Err::<int, DecodeError>(e),
                        ));
                        assert((decode_fuel(s, p0) - 1) as nat == walk_fuel(s, p0 + 1));
                    }
                    return Err(e);
                },
            };
            let ghost valend = cur.at();
            let ghost rv_val = choose|rv: RawVal|
                (#[trigger] enc_raw(rv, s, keyend, valend)) && val@ == cook(rv) && wf_val(val@);
            proof {
                lemma_enc_raw_start(rv_val, s, keyend, valend);
                assert(walk_fuel(s, pos) >= 3);
                assert((walk_fuel(s, pos) - 1) as nat >= decode_fuel(s, keyend));
                lemma_decode_out_some(s, keyend, decode_fuel(s, keyend));
                lemma_decode_out_mono(
                    s,
                    keyend,
                    decode_fuel(s, keyend),
                    (walk_fuel(s, pos) - 1) as nat,
                );
                assert(dict_walk(s, pos, walk_fuel(s, pos)) == dict_walk(
                    s,
                    valend,
                    (walk_fuel(s, pos) - 1) as nat,
                ));
                lemma_dict_walk_some(s, valend, walk_fuel(s, valend));
                lemma_dict_walk_mono(
                    s,
                    valend,
                    walk_fuel(s, valend),
                    (walk_fuel(s, pos) - 1) as nat,
                );
            }
            let ghost oldpairs = pairs@;
            dict_insert(&mut pairs, key, val);
            proof {
                let new_rpairs = rpairs.push((key@, rv_val));
                match find_from(s, pos, ':') {
                    Some(j) => {
                        let lt = s.subrange(pos, j);
                        lemma_find_from_range(s, pos, ':');
                        lemma_digits_val_nonneg(lt);
                        assert(pos < j < keyend);
                        assert(enc_text(key@, s, pos, keyend));
                    },
                    None => {
                        assert(false);
                    },
                }
                lemma_enc_raw_pairs_append(rpairs, key@, rv_val, s, p0 + 1, pos, keyend, valend);
                lemma_cook_pairs_push(rpairs, (key@, rv_val));
                lemma_normalize_onto_push(
                    Seq::<(Seq<char>, BCVal)>::empty(),
                    cook_pairs(rpairs),
                    key@,
                    cook(rv_val),
                );
                assert(normalize(cook_pairs(new_rpairs)) == sorted_insert(
                    normalize(cook_pairs(rpairs)),
                    key@,
                    cook(rv_val),
                ));
                assert(val@ == cook(rv_val));
                assert(pairs_view(pairs@) == normalize(cook_pairs(new_rpairs)));
                lemma_sorted_insert_wf(pairs_view(oldpairs), key@, val@);
                assert forall|rv: RawVal, q: int|
                    rv is RDict && #[trigger] enc_raw(rv, s, p0, q) implies dict_rest(
                    rv,
                    q,
                    new_rpairs,
                    s,
                    valend,
                ) by {
                    match rv {
                        RawVal::RDict(qs) => {
                            let rest = qs.skip(rpairs.len() as int);
                            if rest.len() == 0 {
                                lemma_enc_raw_pairs_end(rest, s, pos, q - 1);
                                lemma_enc_raw_shape(rv, s, p0, q);
                                lemma_enc_raw_start(rv, s, p0, q);
                                assert(s[pos] == 'e');
                                assert(false);
                            } else {
                                let mk = raw_text_end(s, pos);
                                assert(enc_text(rest[0].0, s, pos, mk));
                                lemma_enc_text_start(rest[0].0, s, pos, mk);
                                assert(mk == keyend);
                                match find_from(s, pos, ':') {
                                    Some(j) => {
                                        assert(rest[0].0 == s.subrange(j + 1, mk));
                                        assert(rest[0].0 == key@);
                                    },
                                    None => {
                                        assert(false);
                                    },
                                }
                                let mv = raw_end(rest[0].1, s, mk);
                                assert(enc_raw(rest[0].1, s, keyend, mv));
                                lemma_enc_raw_unique(rest[0].1, rv_val, s, keyend, mv, valend);
                                assert(qs[rpairs.len() as int] == rest[0]);
                                assert(rest[0] == (key@, rv_val));
                                assert(qs.subrange(0, new_rpairs.len() as int) =~= new_rpairs);
                                assert(rest.skip(1) =~= qs.skip(new_rpairs.len() as int));
                            }
                        },
                        _ => {},
                    }
                }
                rpairs = new_rpairs;
            }
        }
        if cur.pos >= len {
            proof {
                assert forall|rv: RawVal, q: int| rv is RDict implies !enc_raw(rv, s, p0, q) by {
                    if enc_raw(rv, s, p0, q) {
                        lemma_enc_raw_start(rv, s, p0, q);
                        match rv {
                            RawVal::RDict(qs) => {
                                let rest = qs.skip(rpairs.len() as int);
                                lemma_enc_raw_pairs_end(rest, s, cur.at(), q - 1);
                                assert(q - 1 >= cur.at());
                                assert(false);
                            },
                            _ => {},
                        }
                    }
                }
            }
            proof {
                assert(cur.at() == len);
                assert(walk_fuel(s, cur.at()) >= 3);
                assert(dict_walk(s, cur.at(), walk_fuel(s, cur.at())) == Some(
                    Err::<int, DecodeError>(
                        DecodeError::UnexpectedEnd(ParseContext::Dictionary, 0),
                    ),
                ));
                assert((decode_fuel(s, p0) - 1) as nat == walk_fuel(s, p0 + 1));
            }
            return Err(DecodeError::UnexpectedEnd(ParseContext::Dictionary, 0));
        }
        proof {
            assert(walk_fuel(s, cur.at()) >= 3);
            assert(dict_walk(s, cur.at(), walk_fuel(s, cur.at())) == Some(
                Ok::<int, DecodeError>(cur.at() + 1),
            ));
            assert((decode_fuel(s, p0) - 1) as nat == walk_fuel(s, p0 + 1));
        }
        cur.pos = cur.pos + 1;
        let out = BCObject::Dictionary(pairs);
        proof {
            let rv = RawVal::RDict(rpairs);
            lemma_enc_raw_shape(rv, s, p0, cur.at());
            assert(enc_raw(rv, s, p0, cur.at()));
            lemma_cook_shape(rv);
            lemma_view_shape(&out);
            lemma_wf_shape(out@);
            assert(out@ == cook(rv) && wf_val(out@));
        }
        Ok(out)
    }

    /// Decode one value from the start of `blob`. Characters after the
    /// first complete value are left unread, as the cursor is private here.
    pub fn parse_blob(blob: &str) -> (r: Result<BCObject, DecodeError>)
        ensures
            r matches Ok(v) ==> exists|rv: RawVal, q: int|
                (#[trigger] enc_raw(rv, blob@, 0, q)) && v@ == cook(rv) && wf_val(v@),
            r is Err ==> no_encoding_at(blob@, 0),
            blob@.len() == 0 ==> r == Err::<BCObject, DecodeError>(
                DecodeError::UnexpectedEnd(ParseContext::Dispatch, 0),
            ),
            blob@.len() > 0 && !tag_char(blob@[0]) ==> r == Err::<BCObject, DecodeError>(
                DecodeError::UnrecognizedTag(blob@[0]),
            ),
            blob@.len() > 0 && blob@[0] == 'i' ==> exists|p1: int|
                #[trigger] integer_rule_post(blob@, 0, p1, r),
            blob@.len() > 0 && is_digit(blob@[0]) ==> exists|p1: int|
                #[trigger] string_rule_post(blob@, 0, p1, r),
            exists|p1: int| #[trigger] matches_out(
                decode_out(blob@, 0, decode_fuel(blob@, 0)),
                p1,
                r,
            ),
    {
        let mut cur = Cursor::new(blob);
        let r = Self::parse(&mut cur);
        proof {
            assert(matches_out(decode_out(blob@, 0, decode_fuel(blob@, 0)), cur.at(), r));
            match &r {
                Ok(v) => {
                    let rv = choose|rv: RawVal|
                        (#[trigger] enc_raw(rv, blob@, 0, cur.at())) && v@ == cook(rv)
                            && wf_val(v@);
                    assert(enc_raw(rv, blob@, 0, cur.at()));
                },
                Err(_) => {},
            }
            if blob@.len() > 0 && blob@[0] == 'i' {
                assert(integer_rule_post(blob@, 0, cur.at(), r));
            }
            if blob@.len() > 0 && is_digit(blob@[0]) {
                assert(string_rule_post(blob@, 0, cur.at(), r));
            }
        }
        r
    }
}

// ---------------------------------------------------------------------------
// Structural equality
// ---------------------------------------------------------------------------

impl vstd::std_specs::cmp::PartialEqSpecImpl for BCObject {
    open spec fn obeys_eq_spec() -> bool {
        true
    }

    open spec fn eq_spec(&self, other: &BCObject) -> bool {
        self@ == other@
    }
}

impl PartialEq for BCObject {
    /// Deep equality of two decoded values: exact on text and integers,
    /// order-sensitive on lists, and by sorted key/value pairs on
    /// dictionaries.
    #[verifier::loop_isolation(false)]
    fn eq(&self, other: &Self) -> (r: bool)
        decreases self,
    {
        proof {
            lemma_view_shape(self);
            lemma_view_shape(other);
        }
        match (self, other) {
            (BCObject::String(a), BCObject::String(b)) => {
                let r = a.eq(b);
                proof {
                    assert(self@ == BCVal::Text(a@));
                    assert(other@ == BCVal::Text(b@));
                    assert(r == (self@ == other@));
                }
                r
            },
            (BCObject::Integer(a), BCObject::Integer(b)) => {
                let r = *a == *b;
                proof {
                    assert(r == (self@ == other@));
                }
                r
            },
            (BCObject::List(v1), BCObject::List(v2)) => {
                proof {
                    lemma_objs_view(v1@);
                    lemma_objs_view(v2@);
                }
                if v1.len() != v2.len() {
                    return false;
                }
                let n = v1.len();
                let mut i: usize = 0;
                while i < n
                    invariant
                        0 <= i <= n,
                        n == v1@.len() == v2@.len(),
                        forall|j: int| 0 <= j < i ==> objs_view(v1@)[j] == #[trigger] objs_view(
                            v2@,
                        )[j],
                    decreases n - i,
                {
                    let same = v1[i].eq(&v2[i]);
                    if !same {
                        proof {
                            assert(objs_view(v1@)[i as int] != objs_view(v2@)[i as int]);
                        }
                        return false;
                    }
                    i += 1;
                }
                proof {
                    assert(objs_view(v1@) =~= objs_view(v2@));
                }
                true
            },
            (BCObject::Dictionary(d1), BCObject::Dictionary(d2)) => {
                proof {
                    lemma_pairs_view(d1@);
                    lemma_pairs_view(d2@);
                }
                if d1.len() != d2.len() {
                    return false;
                }
                let n = d1.len();
                let mut i: usize = 0;
                while i < n
                    invariant
                        0 <= i <= n,
                        n == d1@.len() == d2@.len(),
                        forall|j: int| 0 <= j < i ==> pairs_view(d1@)[j] == #[trigger] pairs_view(
                            d2@,
                        )[j],
                    decreases n - i,
                {
                    let keys_same = d1[i].0 == d2[i].0;
                    if !keys_same {
                        proof {
                            assert(pairs_view(d1@)[i as int].0 != pairs_view(d2@)[i as int].0);
                        }
                        return false;
                    }
                    let vals_same = d1[i].1.eq(&d2[i].1);
                    if !vals_same {
                        proof {
                            assert(pairs_view(d1@)[i as int].1 != pairs_view(d2@)[i as int].1);
                        }
                        return false;
                    }
                    i += 1;
                }
                proof {
                    assert(pairs_view(d1@) =~= pairs_view(d2@));
                }
                true
            },
            _ => {
                proof {
                    assert(self@ != other@);
                }
                false
            },
        }
    }
}

impl Eq for BCObject {

}

// ---------------------------------------------------------------------------
// Canonical decimal renderings, and the laws of the grammar
// ---------------------------------------------------------------------------

pub open spec fn digit_char(d: nat) -> char {
    if d == 0 {
        '0'
    } else if d == 1 {
        '1'
    } else if d == 2 {
        '2'
    } else if d == 3 {
        '3'
    } else if d == 4 {
        '4'
    } else if d == 5 {
        '5'
    } else if d == 6 {
        '6'
    } else if d == 7 {
        '7'
    } else if d == 8 {
        '8'
    } else {
        '9'
    }
}

/// Canonical decimal digits of `n`, most significant first.
pub open spec fn dec_digits(n: nat) -> Seq<char>
    decreases n,
{
    if n < 10 {
        seq![digit_char(n)]
    } else {
        dec_digits((n / 10) as nat).push(digit_char((n % 10) as nat))
    }
}

/// Canonical signed decimal text of `n`.
pub open spec fn int_text(n: int) -> Seq<char> {
    if n < 0 {
        seq!['-'] + dec_digits((-n) as nat)
    } else {
        dec_digits(n as nat)
    }
}

pub proof fn lemma_dec_digits(n: nat)
    ensures
        dec_digits(n).len() >= 1,
        all_digits(dec_digits(n)),
        digits_val(dec_digits(n)) == n,
        n >= 1 ==> dec_digits(n)[0] != '0',
        n < 10 ==> dec_digits(n).len() == 1,
    decreases n,
{
    if n < 10 {
        let c = digit_char(n);
        assert(c as int == n + 48);
        assert(is_digit(c));
        let d = seq![c];
        assert(d.drop_last() =~= Seq::<char>::empty());
        assert(d.last() == c);
        assert(digits_val(Seq::<char>::empty()) == 0);
        assert(digits_val(d) == digit_val(c));
        if n >= 1 {
            assert(c as int != 48);
            assert(('0') as int == 48);
        }
    } else {
        lemma_dec_digits((n / 10) as nat);
        let head = dec_digits((n / 10) as nat);
        let c = digit_char((n % 10) as nat);
        assert(c as int == n % 10 + 48);
        assert(is_digit(c));
        let d = head.push(c);
        assert(d.drop_last() =~= head);
        assert(d.last() == c);
        assert(digits_val(d) == digits_val(head) * 10 + digit_val(c));
        assert(digits_val(d) == (n / 10) * 10 + n % 10);
        assert forall|i: int| 0 <= i < d.len() implies is_digit(#[trigger] d[i]) by {
            if i < head.len() {
                assert(d[i] == head[i]);
            }
        }
        assert(d[0] == head[0]);
        assert(n / 10 >= 1);
    }
}

/// Before the first occurrence there is no occurrence.
proof fn lemma_find_from_first(s: Seq<char>, p: int, c: char)
    requires
        0 <= p <= s.len(),
    ensures
        find_from(s, p, c) matches Some(j) ==> forall|k: int| p <= k < j ==> s[k] != c,
    decreases s.len() - p,
{
    if p < s.len() && s[p] != c {
        lemma_find_from_first(s, p + 1, c);
    }
}

/// Law: for every in-range integer, the canonical literal `i<n>e` is the
/// encoding of exactly that integer, so decoding it yields `Integer(n)` by
/// the decoder's contract together with `lemma_enc_raw_unique`.
pub proof fn lemma_integer_literal_decodes(n: int, s: Seq<char>)
    requires
        i64::MIN as int <= n <= i64::MAX as int,
        s == seq!['i'] + int_text(n) + seq!['e'],
    ensures
        enc_raw(RawVal::RInt(n), s, 0, s.len() as int),
        cook(RawVal::RInt(n)) == BCVal::Int(n),
        wf_val(BCVal::Int(n)),
{
    lemma_tag_chars();
    let b = int_text(n);
    let mag: nat = if n < 0 { (-n) as nat } else { n as nat };
    lemma_dec_digits(mag);
    let q = s.len() as int;
    assert(s.len() == b.len() + 2);
    assert(s[0] == 'i');
    assert(s[q - 1] == 'e');
    assert forall|k: int| 0 <= k < b.len() implies b[k] != 'e' by {
        if n < 0 {
            if k == 0 {
                assert(b[0] == '-');
            } else {
                assert(b[k] == dec_digits(mag)[k - 1]);
                assert(is_digit(b[k]));
            }
        } else {
            assert(b[k] == dec_digits(mag)[k]);
            assert(is_digit(b[k]));
        }
    }
    assert forall|k: int| 1 <= k < q - 1 implies s[k] != 'e' by {
        assert(s[k] == b[k - 1]);
    }
    lemma_find_from_step(s, 1, q - 1, 'e');
    assert(find_from(s, q - 1, 'e') == Some(q - 1));
    let body = s.subrange(1, q - 1);
    assert(body =~= b);
    // Canonical form.
    if n < 0 {
        assert(b[0] == '-');
        assert(b[1] == dec_digits(mag)[0]);
        assert(b[1] != '0');
        assert(has_sign(b));
        assert(digits_part(b) =~= dec_digits(mag));
        assert(int_text_val(b) == -digits_val(dec_digits(mag)));
    } else {
        assert(b == dec_digits(mag));
        assert(is_digit(b[0]));
        assert(b[0] as int != 45 && b[0] as int != 43);
        assert(('-') as int == 45 && ('+') as int == 43);
        assert(!has_sign(b));
        assert(digits_part(b) == b);
        if b.len() > 1 {
            assert(mag >= 1) by {
                if mag < 10 {
                    assert(dec_digits(mag).len() == 1);
                }
            }
            assert(b[0] != '0');
        }
        assert(int_text_val(b) == digits_val(dec_digits(mag)));
    }
    assert(canonical_int_body(body));
    assert(int_text_ok(body, i64::MIN as int, i64::MAX as int));
    assert(int_text_val(body) == n);
    lemma_enc_raw_shape(RawVal::RInt(n), s, 0, q);
    lemma_cook_shape(RawVal::RInt(n));
}

/// Law: for every character sequence, prefixing it with its length and a
/// colon gives the encoding of exactly that text, so decoding yields
/// `Text(s)` by the decoder's contract together with `lemma_enc_raw_unique`.
pub proof fn lemma_text_literal_decodes(t: Seq<char>, s: Seq<char>)
    requires
        t.len() <= i64::MAX as int,
        s == dec_digits(t.len() as nat) + seq![':'] + t,
    ensures
        enc_raw(RawVal::RText(t), s, 0, s.len() as int),
        cook(RawVal::RText(t)) == BCVal::Text(t),
        wf_val(BCVal::Text(t)),
{
    lemma_tag_chars();
    let d = dec_digits(t.len() as nat);
    lemma_dec_digits(t.len() as nat);
    let j = d.len() as int;
    let q = s.len() as int;
    assert(s[j] == ':');
    assert forall|k: int| 0 <= k < j implies s[k] != ':' by {
        assert(s[k] == d[k]);
        assert(is_digit(d[k]));
    }
    lemma_find_from_step(s, 0, j, ':');
    assert(find_from(s, j, ':') == Some(j));
    let lt = s.subrange(0, j);
    assert(lt =~= d);
    assert(t =~= s.subrange(j + 1, q));
    lemma_enc_raw_shape(RawVal::RText(t), s, 0, q);
    assert(enc_text(t, s, 0, q));
    lemma_cook_shape(RawVal::RText(t));
}

/// Element count and element values of a cooked item sequence.
pub proof fn lemma_cook_items_view(items: Seq<RawVal>)
    ensures
        cook_items(items).len() == items.len(),
        forall|i: int| 0 <= i < items.len() ==> cook_items(items)[i] == cook(#[trigger] items[i]),
    decreases items.len(),
{
    if items.len() > 0 {
        lemma_cook_items_view(items.skip(1));
        let sv = seq![cook(items[0])] + cook_items(items.skip(1));
        assert(cook_items(items) == sv);
        assert forall|i: int|
            0 <= i < items.len() implies cook_items(items)[i] == cook(items[i]) by {
            if i > 0 {
                assert(items.skip(1)[i - 1] == items[i]);
                assert(sv[i] == cook_items(items.skip(1))[i - 1]);
            } else {
                assert(sv[0] == cook(items[0]));
            }
        }
    }
}

/// Law: wrapping back-to-back item encodings as `l...e` encodes exactly the
/// list of those items, in their order; decoding such text therefore yields
/// that list, by the decoder's contract and `lemma_enc_raw_unique`.
pub proof fn lemma_list_wrap_decodes(items: Seq<RawVal>, s: Seq<char>)
    requires
        2 <= s.len(),
        s[0] == 'l',
        s[s.len() - 1] == 'e',
        enc_raw_items(items, s, 1, s.len() - 1),
    ensures
        enc_raw(RawVal::RList(items), s, 0, s.len() as int),
        cook(RawVal::RList(items)) == BCVal::ListV(cook_items(items)),
        cook_items(items).len() == items.len(),
        forall|i: int| 0 <= i < items.len() ==> cook_items(items)[i] == cook(#[trigger] items[i]),
{
    lemma_enc_raw_shape(RawVal::RList(items), s, 0, s.len() as int);
    lemma_cook_shape(RawVal::RList(items));
    lemma_cook_items_view(items);
}

/// Law: wrapping key/value pair encodings as `d...e`, in any writing order,
/// encodes the dictionary whose canonical form is `normalize` of the cooked
/// pairs: keys sorted, a later duplicate winning. Decoding such text yields
/// that canonical dictionary, by the decoder's contract and
/// `lemma_enc_raw_unique`.
pub proof fn lemma_dict_wrap_decodes(qs: Seq<(Seq<char>, RawVal)>, s: Seq<char>)
    requires
        2 <= s.len(),
        s[0] == 'd',
        s[s.len() - 1] == 'e',
        enc_raw_pairs(qs, s, 1, s.len() - 1),
    ensures
        enc_raw(RawVal::RDict(qs), s, 0, s.len() as int),
        cook(RawVal::RDict(qs)) == BCVal::DictV(normalize(cook_pairs(qs))),
{
    lemma_enc_raw_shape(RawVal::RDict(qs), s, 0, s.len() as int);
    lemma_cook_shape(RawVal::RDict(qs));
}

/// Law, one truncation case: an integer literal with its final `e` removed
/// is rejected by the integer rule with `UnexpectedEnd`, never decoded.
pub proof fn lemma_integer_truncation(
    n: int,
    s: Seq<char>,
    p1: int,
    r: Result<BCObject, DecodeError>,
)
    requires
        enc_raw(RawVal::RInt(n), s, 0, s.len() as int),
        integer_rule_post(s.drop_last(), 0, p1, r),
    ensures
        r == Err::<BCObject, DecodeError>(DecodeError::UnexpectedEnd(ParseContext::Integer, 0)),
{
    let q = s.len() as int;
    let u = s.drop_last();
    lemma_enc_raw_shape(RawVal::RInt(n), s, 0, q);
    lemma_find_from_first(s, 1, 'e');
    assert(u[0] == 'i');
    assert forall|k: int| 1 <= k < u.len() implies u[k] != 'e' by {
        assert(u[k] == s[k]);
    }
    lemma_find_from_step(u, 1, u.len() as int, 'e');
    assert(find_from(u, u.len() as int, 'e') is None);
}

/// Law, the other exact truncation case: a text literal with its final
/// character removed is rejected by the string rule with `UnexpectedEnd`,
/// one character still owed.
pub proof fn lemma_text_truncation(
    t: Seq<char>,
    s: Seq<char>,
    p1: int,
    r: Result<BCObject, DecodeError>,
)
    requires
        t.len() >= 1,
        enc_raw(RawVal::RText(t), s, 0, s.len() as int),
        string_rule_post(s.drop_last(), 0, p1, r),
    ensures
        r == Err::<BCObject, DecodeError>(DecodeError::UnexpectedEnd(ParseContext::Text, 1)),
{
    let q = s.len() as int;
    let u = s.drop_last();
    lemma_enc_raw_shape(RawVal::RText(t), s, 0, q);
    match find_from(s, 0, ':') {
        Some(j) => {
            lemma_find_from_first(s, 0, ':');
            lemma_find_from_range(s, 0, ':');
            assert(t.len() == q - j - 1);
            assert(j < u.len());
            assert forall|k: int| 0 <= k < j implies u[k] != ':' by {
                assert(u[k] == s[k]);
            }
            assert(u[j] == s[j]);
            assert(u[j] == ':');
            lemma_find_from_step(u, 0, j, ':');
            assert(find_from(u, j, ':') == Some(j));
            assert(u.subrange(0, j) =~= s.subrange(0, j));
            lemma_digits_val_nonneg(s.subrange(0, j));
        },
        None => {
            assert(false);
        },
    }
}

// ---------------------------------------------------------------------------
// Truncation: a proper prefix of an encoding encodes nothing
// ---------------------------------------------------------------------------

proof fn lemma_find_from_prefix(u: Seq<char>, s: Seq<char>, p: int, c: char)
    requires
        0 <= p <= u.len(),
        u.len() <= s.len(),
        u == s.subrange(0, u.len() as int),
    ensures
        find_from(u, p, c) matches Some(j) ==> find_from(s, p, c) == Some(j),
    decreases u.len() - p,
{
    if p < u.len() {
        assert(u[p] == s[p]);
        if u[p] != c {
            lemma_find_from_prefix(u, s, p + 1, c);
        }
    }
}

proof fn lemma_enc_text_extend(k: Seq<char>, u: Seq<char>, s: Seq<char>, p: int, q: int)
    requires
        enc_text(k, u, p, q),
        u.len() <= s.len(),
        u == s.subrange(0, u.len() as int),
    ensures
        enc_text(k, s, p, q),
{
    lemma_enc_text_start(k, u, p, q);
    match find_from(u, p, ':') {
        Some(j) => {
            lemma_find_from_prefix(u, s, p, ':');
            assert(u.subrange(p, j) =~= s.subrange(p, j));
            assert(u.subrange(j + 1, q) =~= s.subrange(j + 1, q));
        },
        None => {},
    }
}

/// An encoding found in a prefix of the text is an encoding in the text.
proof fn lemma_enc_raw_extend(rv: RawVal, u: Seq<char>, s: Seq<char>, p: int, q: int)
    requires
        enc_raw(rv, u, p, q),
        u.len() <= s.len(),
        u == s.subrange(0, u.len() as int),
    ensures
        enc_raw(rv, s, p, q),
    decreases rv, 1int,
{
    lemma_enc_raw_start(rv, u, p, q);
    lemma_enc_raw_shape(rv, u, p, q);
    lemma_enc_raw_shape(rv, s, p, q);
    assert forall|k: int| 0 <= k < u.len() implies u[k] == s[k] by {}
    match rv {
        RawVal::RText(k) => {
            lemma_enc_text_extend(k, u, s, p, q);
        },
        RawVal::RInt(_) => {
            lemma_find_from_prefix(u, s, p + 1, 'e');
            assert(u.subrange(p + 1, q - 1) =~= s.subrange(p + 1, q - 1));
        },
        RawVal::RList(items) => {
            lemma_enc_raw_items_extend(items, u, s, p + 1, q - 1);
        },
        RawVal::RDict(qs) => {
            lemma_enc_raw_pairs_extend(qs, u, s, p + 1, q - 1);
        },
    }
}

proof fn lemma_enc_raw_items_extend(items: Seq<RawVal>, u: Seq<char>, s: Seq<char>, p: int, q: int)
    requires
        enc_raw_items(items, u, p, q),
        u.len() <= s.len(),
        u == s.subrange(0, u.len() as int),
    ensures
        enc_raw_items(items, s, p, q),
    decreases items, 0int,
{
    if items.len() > 0 {
        let m = raw_end(items[0], u, p);
        lemma_enc_raw_extend(items[0], u, s, p, m);
        lemma_enc_raw_start(items[0], s, p, m);
        assert(m == raw_end(items[0], s, p));
        lemma_enc_raw_items_extend(items.skip(1), u, s, m, q);
    }
}

proof fn lemma_enc_raw_pairs_extend(
    qs: Seq<(Seq<char>, RawVal)>,
    u: Seq<char>,
    s: Seq<char>,
    p: int,
    q: int,
)
    requires
        enc_raw_pairs(qs, u, p, q),
        u.len() <= s.len(),
        u == s.subrange(0, u.len() as int),
    ensures
        enc_raw_pairs(qs, s, p, q),
    decreases qs, 0int,
{
    if qs.len() > 0 {
        let mk = raw_text_end(u, p);
        let mv = raw_end(qs[0].1, u, mk);
        lemma_enc_text_extend(qs[0].0, u, s, p, mk);
        lemma_enc_text_start(qs[0].0, s, p, mk);
        assert(mk == raw_text_end(s, p));
        lemma_enc_raw_extend(qs[0].1, u, s, mk, mv);
        lemma_enc_raw_start(qs[0].1, s, mk, mv);
        assert(mv == raw_end(qs[0].1, s, mk));
        lemma_enc_raw_pairs_extend(qs.skip(1), u, s, mv, q);
    }
}

/// Law: removing the final character of any well-formed encoding leaves
/// text in which no value's encoding starts, so a decode of it fails — it
/// never yields a different value. Which failure it is, the exact integer
/// and string rule contracts pin for their two forms.
pub proof fn lemma_truncation_never_value(rv: RawVal, s: Seq<char>)
    requires
        enc_raw(rv, s, 0, s.len() as int),
        s.len() >= 1,
    ensures
        no_encoding_at(s.drop_last(), 0),
{
    let u = s.drop_last();
    assert(u =~= s.subrange(0, u.len() as int));
    assert forall|rv2: RawVal, q: int| !enc_raw(rv2, u, 0, q) by {
        if enc_raw(rv2, u, 0, q) {
            lemma_enc_raw_start(rv2, u, 0, q);
            lemma_enc_raw_extend(rv2, u, s, 0, q);
            lemma_enc_raw_unique(rv2, rv, s, 0, q, s.len() as int);
            assert(false);
        }
    }
}

// ---------------------------------------------------------------------------
// Dictionaries as mappings: writing order does not matter
// ---------------------------------------------------------------------------

/// The value under `k` in a pair sequence, first occurrence.
pub open spec fn assoc(ps: Seq<(Seq<char>, BCVal)>, k: Seq<char>) -> Option<BCVal>
    decreases ps.len(),
{
    if ps.len() == 0 {
        None
    } else if ps[0].0 == k {
        Some(ps[0].1)
    } else {
        assoc(ps.skip(1), k)
    }
}

/// The value a run of writes leaves under `k`: the latest write wins.
pub open spec fn written(qs: Seq<(Seq<char>, BCVal)>, k: Seq<char>) -> Option<BCVal>
    decreases qs.len(),
{
    if qs.len() == 0 {
        None
    } else {
        match written(qs.skip(1), k) {
            Some(v) => Some(v),
            None => if qs[0].0 == k {
                Some(qs[0].1)
            } else {
                None
            },
        }
    }
}

proof fn lemma_assoc_insert(ps: Seq<(Seq<char>, BCVal)>, k0: Seq<char>, v0: BCVal, k: Seq<char>)
    ensures
        assoc(sorted_insert(ps, k0, v0), k) == (if k == k0 {
            Some(v0)
        } else {
            assoc(ps, k)
        }),
    decreases ps.len(),
{
    let out = sorted_insert(ps, k0, v0);
    if ps.len() == 0 {
        assert(out[0] == (k0, v0));
        assert(out.skip(1) =~= Seq::<(Seq<char>, BCVal)>::empty());
    } else if lex_lt(ps[0].0, k0) {
        lemma_lex_irrefl(k0);
        assert(out[0] == ps[0]);
        assert(out.skip(1) =~= sorted_insert(ps.skip(1), k0, v0));
        lemma_assoc_insert(ps.skip(1), k0, v0, k);
    } else if ps[0].0 == k0 {
        assert(out[0] == (k0, v0));
        assert(out.skip(1) =~= ps.skip(1));
        if k != k0 {
            assert(assoc(ps, k) == assoc(ps.skip(1), k));
        }
    } else {
        assert(out[0] == (k0, v0));
        assert(out.skip(1) =~= ps);
    }
}

proof fn lemma_normalize_onto_assoc(
    base: Seq<(Seq<char>, BCVal)>,
    qs: Seq<(Seq<char>, BCVal)>,
    k: Seq<char>,
)
    ensures
        assoc(normalize_onto(base, qs), k) == (match written(qs, k) {
            Some(v) => Some(v),
            None => assoc(base, k),
        }),
    decreases qs.len(),
{
    if qs.len() > 0 {
        let base2 = sorted_insert(base, qs[0].0, qs[0].1);
        lemma_normalize_onto_assoc(base2, qs.skip(1), k);
        lemma_assoc_insert(base, qs[0].0, qs[0].1, k);
    }
}

/// What the canonical form holds under each key: exactly the last write.
pub proof fn lemma_normalize_written(qs: Seq<(Seq<char>, BCVal)>, k: Seq<char>)
    ensures
        assoc(normalize(qs), k) == written(qs, k),
{
    lemma_normalize_onto_assoc(Seq::empty(), qs, k);
}

proof fn lemma_normalize_onto_wf(base: Seq<(Seq<char>, BCVal)>, qs: Seq<(Seq<char>, BCVal)>)
    requires
        wf_pairs(base),
        forall|i: int| 0 <= i < qs.len() ==> wf_val(#[trigger] qs[i].1),
    ensures
        wf_pairs(normalize_onto(base, qs)),
    decreases qs.len(),
{
    if qs.len() > 0 {
        lemma_sorted_insert_wf(base, qs[0].0, qs[0].1);
        assert forall|i: int|
            0 <= i < qs.skip(1).len() implies wf_val(#[trigger] qs.skip(1)[i].1) by {
            assert(qs.skip(1)[i] == qs[i + 1]);
        }
        lemma_normalize_onto_wf(sorted_insert(base, qs[0].0, qs[0].1), qs.skip(1));
    }
}

/// The canonical form of well-formed writes is well formed: sorted keys,
/// no duplicates, well-formed values.
pub proof fn lemma_normalize_wf(qs: Seq<(Seq<char>, BCVal)>)
    requires
        forall|i: int| 0 <= i < qs.len() ==> wf_val(#[trigger] qs[i].1),
    ensures
        wf_pairs(normalize(qs)),
{
    lemma_normalize_onto_wf(Seq::empty(), qs);
}

proof fn lemma_assoc_absent(ps: Seq<(Seq<char>, BCVal)>, k: Seq<char>)
    requires
        forall|i: int| 0 <= i < ps.len() ==> (#[trigger] ps[i].0) != k,
    ensures
        assoc(ps, k) is None,
    decreases ps.len(),
{
    if ps.len() > 0 {
        assert forall|i: int| 0 <= i < ps.skip(1).len() implies (#[trigger] ps.skip(1)[i].0)
            != k by {
            assert(ps.skip(1)[i] == ps[i + 1]);
        }
        lemma_assoc_absent(ps.skip(1), k);
    }
}

/// Two sorted, duplicate-free pair sequences with the same lookups are the
/// same sequence.
proof fn lemma_sorted_same_assoc(ps1: Seq<(Seq<char>, BCVal)>, ps2: Seq<(Seq<char>, BCVal)>)
    requires
        wf_pairs(ps1),
        wf_pairs(ps2),
        forall|k: Seq<char>| #[trigger] assoc(ps1, k) == assoc(ps2, k),
    ensures
        ps1 == ps2,
    decreases ps1.len(),
{
    if ps1.len() == 0 && ps2.len() == 0 {
        assert(ps1 =~= ps2);
    } else if ps1.len() == 0 {
        assert(assoc(ps2, ps2[0].0) is Some);
        assert(assoc(ps1, ps2[0].0) is None);
        assert(false);
    } else if ps2.len() == 0 {
        assert(assoc(ps1, ps1[0].0) is Some);
        assert(assoc(ps2, ps1[0].0) is None);
        assert(false);
    } else {
        let k1 = ps1[0].0;
        let k2 = ps2[0].0;
        if k1 != k2 {
            lemma_lex_total(k1, k2);
            if lex_lt(k1, k2) {
                assert(assoc(ps1, k1) == Some(ps1[0].1));
                assert forall|i: int|
                    0 <= i < ps2.len() implies (#[trigger] ps2[i].0) != k1 by {
                    if i > 0 {
                        assert(lex_lt(ps2[0].0, ps2[i].0));
                        if ps2[i].0 == k1 {
                            lemma_lex_trans(k1, k2, k1);
                            lemma_lex_irrefl(k1);
                        }
                    }
                }
                lemma_assoc_absent(ps2, k1);
                assert(false);
            } else {
                assert(assoc(ps2, k2) == Some(ps2[0].1));
                assert forall|i: int|
                    0 <= i < ps1.len() implies (#[trigger] ps1[i].0) != k2 by {
                    if i > 0 {
                        assert(lex_lt(ps1[0].0, ps1[i].0));
                        if ps1[i].0 == k2 {
                            lemma_lex_trans(k2, k1, k2);
                            lemma_lex_irrefl(k2);
                        }
                    }
                }
                lemma_assoc_absent(ps1, k2);
                assert(false);
            }
        }
        assert(k1 == k2);
        assert(assoc(ps1, k1) == Some(ps1[0].1));
        assert(assoc(ps2, k1) == Some(ps2[0].1));
        assert(ps1[0] == ps2[0]);
        let r1 = ps1.skip(1);
        let r2 = ps2.skip(1);
        assert forall|i: int| 0 <= i < r1.len() implies wf_val(#[trigger] r1[i].1) by {
            assert(r1[i] == ps1[i + 1]);
        }
        assert forall|i: int, j: int|
            0 <= i < j < r1.len() implies #[trigger] lex_lt(r1[i].0, r1[j].0) by {
            assert(r1[i] == ps1[i + 1]);
            assert(r1[j] == ps1[j + 1]);
            assert(lex_lt(ps1[i + 1].0, ps1[j + 1].0));
        }
        assert forall|i: int| 0 <= i < r2.len() implies wf_val(#[trigger] r2[i].1) by {
            assert(r2[i] == ps2[i + 1]);
        }
        assert forall|i: int, j: int|
            0 <= i < j < r2.len() implies #[trigger] lex_lt(r2[i].0, r2[j].0) by {
            assert(r2[i] == ps2[i + 1]);
            assert(r2[j] == ps2[j + 1]);
            assert(lex_lt(ps2[i + 1].0, ps2[j + 1].0));
        }
        assert forall|k: Seq<char>| #[trigger] assoc(r1, k) == assoc(r2, k) by {
            if k == k1 {
                assert forall|i: int| 0 <= i < r1.len() implies (#[trigger] r1[i].0) != k by {
                    assert(r1[i] == ps1[i + 1]);
                    assert(lex_lt(ps1[0].0, ps1[i + 1].0));
                    if ps1[i + 1].0 == k {
                        lemma_lex_irrefl(k);
                    }
                }
                assert forall|i: int| 0 <= i < r2.len() implies (#[trigger] r2[i].0) != k by {
                    assert(r2[i] == ps2[i + 1]);
                    assert(lex_lt(ps2[0].0, ps2[i + 1].0));
                    if ps2[i + 1].0 == k {
                        lemma_lex_irrefl(k);
                    }
                }
                lemma_assoc_absent(r1, k);
                lemma_assoc_absent(r2, k);
            } else {
                assert(assoc(ps1, k) == assoc(r1, k));
                assert(assoc(ps2, k) == assoc(r2, k));
            }
        }
        lemma_sorted_same_assoc(r1, r2);
        assert forall|i: int| 0 <= i < ps1.len() implies ps1[i] == ps2[i] by {
            if i > 0 {
                assert(r1[i - 1] == ps1[i]);
                assert(r2[i - 1] == ps2[i]);
            }
        }
        assert(ps1.len() == ps2.len());
        assert(ps1 =~= ps2);
    }
}

/// Law: two runs of writes with well-formed values that leave the same
/// value under every key — the same mapping, in any writing order — have
/// the same canonical dictionary.
pub proof fn lemma_dict_order_insensitive(
    qs1: Seq<(Seq<char>, BCVal)>,
    qs2: Seq<(Seq<char>, BCVal)>,
)
    requires
        forall|i: int| 0 <= i < qs1.len() ==> wf_val(#[trigger] qs1[i].1),
        forall|i: int| 0 <= i < qs2.len() ==> wf_val(#[trigger] qs2[i].1),
        forall|k: Seq<char>| #[trigger] written(qs1, k) == written(qs2, k),
    ensures
        normalize(qs1) == normalize(qs2),
{
    lemma_normalize_wf(qs1);
    lemma_normalize_wf(qs2);
    assert forall|k: Seq<char>| #[trigger] assoc(normalize(qs1), k) == assoc(
        normalize(qs2),
        k,
    ) by {
        lemma_normalize_written(qs1, k);
        lemma_normalize_written(qs2, k);
    }
    lemma_sorted_same_assoc(normalize(qs1), normalize(qs2));
}

// ---------------------------------------------------------------------------
// The outcome of a decode step: where it stops, or exactly how it fails
// ---------------------------------------------------------------------------

/// The integer rule's outcome at `p`: the position after its `e`, or its
/// exact error.
pub open spec fn int_rule_out(s: Seq<char>, p: int) -> Result<int, DecodeError> {
    if p >= s.len() {
        Err(DecodeError::UnexpectedEnd(ParseContext::Integer, 0))
    } else if s[p] != 'i' {
        Err(DecodeError::UnrecognizedTag(s[p]))
    } else {
        match find_from(s, p + 1, 'e') {
            None => Err(DecodeError::UnexpectedEnd(ParseContext::Integer, 0)),
            Some(j) => {
                let body = s.subrange(p + 1, j);
                if !canonical_int_body(body) || !int_text_ok(
                    body,
                    i64::MIN as int,
                    i64::MAX as int,
                ) {
                    Err(DecodeError::MalformedInteger)
                } else {
                    Ok(j + 1)
                }
            },
        }
    }
}

/// The string rule's outcome at `p`: the position after its data, or its
/// exact error.
pub open spec fn str_rule_out(s: Seq<char>, p: int) -> Result<int, DecodeError> {
    match find_from(s, p, ':') {
        None => Err(DecodeError::UnexpectedEnd(ParseContext::Text, 0)),
        Some(j) => {
            let lt = s.subrange(p, j);
            if !(lt.len() > 0 && all_digits(lt) && digits_val(lt) <= i64::MAX as int) {
                Err(DecodeError::MalformedLength)
            } else if j + 1 + digits_val(lt) > s.len() {
                Err(
                    DecodeError::UnexpectedEnd(
                        ParseContext::Text,
                        (j + 1 + digits_val(lt) - s.len()) as u64,
                    ),
                )
            } else {
                Ok(j + 1 + digits_val(lt))
            }
        },
    }
}

/// Fuel that always suffices for a decode starting at `p`.
pub open spec fn decode_fuel(s: Seq<char>, p: int) -> nat {
    (2 * (s.len() - p) + 2) as nat
}

/// Fuel that always suffices for walking container entries from `q`.
pub open spec fn walk_fuel(s: Seq<char>, q: int) -> nat {
    (2 * (s.len() - q) + 3) as nat
}

/// The outcome of decoding one value at `p`: `Some(Ok(end))` with the
/// position just past the value, or `Some(Err(e))` with the exact error the
/// decoder reports. `None` only where the fuel ran out, which
/// `lemma_decode_out_some` rules out at `decode_fuel`.
pub open spec fn decode_out(s: Seq<char>, p: int, fuel: nat) -> Option<
    Result<int, DecodeError>,
>
    decreases fuel, 1int,
{
    if fuel == 0 {
        None
    } else if p >= s.len() {
        Some(Err(DecodeError::UnexpectedEnd(ParseContext::Dispatch, 0)))
    } else if s[p] == 'i' {
        Some(int_rule_out(s, p))
    } else if s[p] == 'l' {
        list_walk(s, p + 1, (fuel - 1) as nat)
    } else if s[p] == 'd' {
        dict_walk(s, p + 1, (fuel - 1) as nat)
    } else if is_digit(s[p]) {
        Some(str_rule_out(s, p))
    } else {
        Some(Err(DecodeError::UnrecognizedTag(s[p])))
    }
}

/// Walking list items from `q` until the closing `e`.
pub open spec fn list_walk(s: Seq<char>, q: int, fuel: nat) -> Option<Result<int, DecodeError>>
    decreases fuel, 0int,
{
    if fuel == 0 {
        None
    } else if q >= s.len() {
        Some(Err(DecodeError::UnexpectedEnd(ParseContext::List, 0)))
    } else if s[q] == 'e' {
        Some(Ok(q + 1))
    } else {
        match decode_out(s, q, (fuel - 1) as nat) {
            None => None,
            Some(Err(e)) => Some(Err(e)),
            Some(Ok(m)) => list_walk(s, m, (fuel - 1) as nat),
        }
    }
}

/// Walking dictionary pairs from `q` until the closing `e`.
pub open spec fn dict_walk(s: Seq<char>, q: int, fuel: nat) -> Option<Result<int, DecodeError>>
    decreases fuel, 0int,
{
    if fuel == 0 {
        None
    } else if q >= s.len() {
        Some(Err(DecodeError::UnexpectedEnd(ParseContext::Dictionary, 0)))
    } else if s[q] == 'e' {
        Some(Ok(q + 1))
    } else if !is_digit(s[q]) {
        Some(Err(DecodeError::NonStringKey))
    } else {
        match str_rule_out(s, q) {
            Err(e) => Some(Err(e)),
            Ok(mk) => match decode_out(s, mk, (fuel - 1) as nat) {
                None => None,
                Some(Err(e)) => Some(Err(e)),
                Some(Ok(mv)) => dict_walk(s, mv, (fuel - 1) as nat),
            },
        }
    }
}

/// More fuel changes nothing once the outcome is decided.
proof fn lemma_decode_out_mono(s: Seq<char>, p: int, f1: nat, f2: nat)
    requires
        decode_out(s, p, f1) is Some,
        f1 <= f2,
    ensures
        decode_out(s, p, f2) == decode_out(s, p, f1),
    decreases f1, 1int,
{
    if p < s.len() && s[p] == 'l' {
        lemma_list_walk_mono(s, p + 1, (f1 - 1) as nat, (f2 - 1) as nat);
    } else if p < s.len() && s[p] == 'd' {
        lemma_dict_walk_mono(s, p + 1, (f1 - 1) as nat, (f2 - 1) as nat);
    }
}

proof fn lemma_list_walk_mono(s: Seq<char>, q: int, f1: nat, f2: nat)
    requires
        list_walk(s, q, f1) is Some,
        f1 <= f2,
    ensures
        list_walk(s, q, f2) == list_walk(s, q, f1),
    decreases f1, 0int,
{
    if q < s.len() && s[q] != 'e' {
        match decode_out(s, q, (f1 - 1) as nat) {
            None => {},
            Some(Err(_)) => {
                lemma_decode_out_mono(s, q, (f1 - 1) as nat, (f2 - 1) as nat);
            },
            Some(Ok(m)) => {
                lemma_decode_out_mono(s, q, (f1 - 1) as nat, (f2 - 1) as nat);
                lemma_list_walk_mono(s, m, (f1 - 1) as nat, (f2 - 1) as nat);
            },
        }
    }
}

proof fn lemma_dict_walk_mono(s: Seq<char>, q: int, f1: nat, f2: nat)
    requires
        dict_walk(s, q, f1) is Some,
        f1 <= f2,
    ensures
        dict_walk(s, q, f2) == dict_walk(s, q, f1),
    decreases f1, 0int,
{
    if q < s.len() && s[q] != 'e' && is_digit(s[q]) {
        match str_rule_out(s, q) {
            Err(_) => {},
            Ok(mk) => {
                match decode_out(s, mk, (f1 - 1) as nat) {
                    None => {},
                    Some(Err(_)) => {
                        lemma_decode_out_mono(s, mk, (f1 - 1) as nat, (f2 - 1) as nat);
                    },
                    Some(Ok(mv)) => {
                        lemma_decode_out_mono(s, mk, (f1 - 1) as nat, (f2 - 1) as nat);
                        lemma_dict_walk_mono(s, mv, (f1 - 1) as nat, (f2 - 1) as nat);
                    },
                }
            },
        }
    }
}

/// A successful step lands past where it started, within the text.
proof fn lemma_str_rule_out_end(s: Seq<char>, p: int)
    requires
        0 <= p <= s.len(),
    ensures
        str_rule_out(s, p) matches Ok(m) ==> p < m <= s.len(),
{
    match find_from(s, p, ':') {
        Some(j) => {
            lemma_find_from_range(s, p, ':');
            let lt = s.subrange(p, j);
            if lt.len() > 0 && all_digits(lt) && digits_val(lt) <= i64::MAX as int {
                lemma_digits_val_nonneg(lt);
            }
        },
        None => {},
    }
}

/// The fuel expressions are enough: at them, the outcome is decided, and a
/// successful step consumes at least one character.
pub proof fn lemma_decode_out_some(s: Seq<char>, p: int, fuel: nat)
    requires
        0 <= p,
        fuel >= 1,
        fuel >= 2 * (s.len() - p) + 2,
    ensures
        decode_out(s, p, fuel) is Some,
        decode_out(s, p, fuel) matches Some(Ok(m)) ==> p < m <= s.len(),
    decreases fuel, 1int,
{
    if p >= s.len() {
    } else if s[p] == 'i' {
        match find_from(s, p + 1, 'e') {
            Some(j) => {
                lemma_find_from_range(s, p + 1, 'e');
            },
            None => {},
        }
    } else if s[p] == 'l' {
        lemma_list_walk_some(s, p + 1, (fuel - 1) as nat);
    } else if s[p] == 'd' {
        lemma_dict_walk_some(s, p + 1, (fuel - 1) as nat);
    } else if is_digit(s[p]) {
        lemma_str_rule_out_end(s, p);
    }
}

proof fn lemma_list_walk_some(s: Seq<char>, q: int, fuel: nat)
    requires
        0 <= q,
        fuel >= 1,
        fuel >= 2 * (s.len() - q) + 3,
    ensures
        list_walk(s, q, fuel) is Some,
        list_walk(s, q, fuel) matches Some(Ok(m)) ==> q < m <= s.len(),
    decreases fuel, 0int,
{
    if q < s.len() && s[q] != 'e' {
        lemma_decode_out_some(s, q, (fuel - 1) as nat);
        match decode_out(s, q, (fuel - 1) as nat) {
            Some(Ok(m)) => {
                lemma_list_walk_some(s, m, (fuel - 1) as nat);
            },
            _ => {},
        }
    }
}

proof fn lemma_dict_walk_some(s: Seq<char>, q: int, fuel: nat)
    requires
        0 <= q,
        fuel >= 1,
        fuel >= 2 * (s.len() - q) + 3,
    ensures
        dict_walk(s, q, fuel) is Some,
        dict_walk(s, q, fuel) matches Some(Ok(m)) ==> q < m <= s.len(),
    decreases fuel, 0int,
{
    if q < s.len() && s[q] != 'e' && is_digit(s[q]) {
        lemma_str_rule_out_end(s, q);
        match str_rule_out(s, q) {
            Ok(mk) => {
                lemma_decode_out_some(s, mk, (fuel - 1) as nat);
                match decode_out(s, mk, (fuel - 1) as nat) {
                    Some(Ok(mv)) => {
                        lemma_dict_walk_some(s, mv, (fuel - 1) as nat);
                    },
                    _ => {},
                }
            },
            Err(_) => {},
        }
    }
}

/// The integer rule's exact contract, read as an outcome.
proof fn lemma_int_post_out(s: Seq<char>, p0: int, p1: int, r: Result<BCObject, DecodeError>)
    requires
        integer_rule_post(s, p0, p1, r),
    ensures
        r matches Err(e) ==> int_rule_out(s, p0) == Err::<int, DecodeError>(e),
        r is Ok ==> int_rule_out(s, p0) == Ok::<int, DecodeError>(p1),
{
}

/// The string rule's exact contract, read as an outcome.
proof fn lemma_str_post_out(s: Seq<char>, p0: int, p1: int, r: Result<BCObject, DecodeError>)
    requires
        string_rule_post(s, p0, p1, r),
    ensures
        r matches Err(e) ==> str_rule_out(s, p0) == Err::<int, DecodeError>(e),
        r is Ok ==> str_rule_out(s, p0) == Ok::<int, DecodeError>(p1),
{
}

/// What an exec rule's result must look like beside the spec outcome.
pub open spec fn matches_out(
    out: Option<Result<int, DecodeError>>,
    p1: int,
    r: Result<BCObject, DecodeError>,
) -> bool {
    match r {
        Ok(_) => out == Some(Ok::<int, DecodeError>(p1)),
        Err(e) => out == Some(Err::<int, DecodeError>(e)),
    }
}

} // verus!
