//! Text helpers: equality and order of names, infix search, decimal numbers.
//!
//! Names are ordered as Rust orders strings: byte by byte over their UTF-8
//! encoding. Everything else here speaks of a string as its sequence of
//! characters.

use vstd::prelude::*;
use vstd::utf8::encode_utf8;
use vstd::utf8::encode_utf8_decode_utf8;

verus! {

/// `k` is the first position at which `a` and `b` part, and `a` comes first
/// there: either `a` ends at `k` and `b` goes on, or `a` holds the smaller
/// byte.
pub open spec fn parts_below(a: Seq<u8>, b: Seq<u8>, k: int) -> bool {
    &&& 0 <= k <= a.len()
    &&& k < b.len()
    &&& forall|j: int| 0 <= j < k ==> a[j] == b[j]
    &&& (k == a.len() || a[k] < b[k])
}

/// Lexicographic order of byte sequences.
pub open spec fn bytes_lt(a: Seq<u8>, b: Seq<u8>) -> bool {
    exists|k: int| parts_below(a, b, k)
}

/// The order of names: that of their UTF-8 encodings.
pub open spec fn name_lt(a: Seq<char>, b: Seq<char>) -> bool {
    bytes_lt(encode_utf8(a), encode_utf8(b))
}

/// How one name stands to another.
#[derive(Clone, Copy, Debug, PartialEq, Eq, Structural)]
pub enum NameOrder {
    Before,
    Same,
    After,
}

pub proof fn lemma_bytes_lt_irreflexive(a: Seq<u8>)
    ensures
        !bytes_lt(a, a),
{
}

pub proof fn lemma_bytes_lt_transitive(a: Seq<u8>, b: Seq<u8>, c: Seq<u8>)
    requires
        bytes_lt(a, b),
        bytes_lt(b, c),
    ensures
        bytes_lt(a, c),
{
    let k1 = choose|k: int| parts_below(a, b, k);
    let k2 = choose|k: int| parts_below(b, c, k);
    let k = if k1 <= k2 { k1 } else { k2 };
    assert(parts_below(a, c, k));
}

pub proof fn lemma_bytes_lt_asymmetric(a: Seq<u8>, b: Seq<u8>)
    requires
        bytes_lt(a, b),
    ensures
        !bytes_lt(b, a),
{
    if bytes_lt(b, a) {
        lemma_bytes_lt_transitive(a, b, a);
    }
}

/// Two names with the same encoding are the same name.
pub proof fn lemma_encoding_injective(a: Seq<char>, b: Seq<char>)
    requires
        encode_utf8(a) == encode_utf8(b),
    ensures
        a == b,
{
    encode_utf8_decode_utf8(a);
    encode_utf8_decode_utf8(b);
}

/// The order of names is strict: no name comes before itself.
pub proof fn lemma_name_lt_irreflexive(a: Seq<char>)
    ensures
        !name_lt(a, a),
{
}

/// The order of names is transitive.
pub proof fn lemma_name_lt_transitive(a: Seq<char>, b: Seq<char>, c: Seq<char>)
    requires
        name_lt(a, b),
        name_lt(b, c),
    ensures
        name_lt(a, c),
{
    lemma_bytes_lt_transitive(encode_utf8(a), encode_utf8(b), encode_utf8(c));
}

/// The order of names is total: of two different names one comes first.
pub proof fn lemma_name_lt_total(a: Seq<char>, b: Seq<char>)
    ensures
        name_lt(a, b) || a == b || name_lt(b, a),
        !(name_lt(a, b) && name_lt(b, a)),
        !(name_lt(a, b) && a == b),
{
    let x = encode_utf8(a);
    let y = encode_utf8(b);
    if name_lt(a, b) {
        lemma_bytes_lt_asymmetric(x, y);
    }
    if !name_lt(a, b) && !name_lt(b, a) {
        lemma_common_prefix(x, y, 0);
        assert(x =~= y);
        lemma_encoding_injective(a, b);
    }
}

/// Two byte sequences of which neither comes first agree from `k` on, if
/// they agree below `k`.
proof fn lemma_common_prefix(x: Seq<u8>, y: Seq<u8>, k: int)
    requires
        !bytes_lt(x, y),
        !bytes_lt(y, x),
        0 <= k <= x.len(),
        k <= y.len(),
        forall|j: int| 0 <= j < k ==> x[j] == y[j],
    ensures
        x.len() == y.len(),
        forall|j: int| 0 <= j < x.len() ==> x[j] == y[j],
    decreases x.len() - k,
{
    if k == x.len() {
        if k < y.len() {
            assert(parts_below(x, y, k));
        }
    } else if k == y.len() {
        assert(parts_below(y, x, k));
    } else {
        if x[k] < y[k] {
            assert(parts_below(x, y, k));
        } else if y[k] < x[k] {
            assert(parts_below(y, x, k));
        }
        lemma_common_prefix(x, y, k + 1);
    }
}

fn bytes_order(x: &[u8], y: &[u8]) -> (r: NameOrder)
    ensures
        (r is Before) == bytes_lt(x@, y@),
        (r is Same) == (x@ == y@),
        (r is After) == bytes_lt(y@, x@),
{
    let mut i: usize = 0;
    while i < x.len() && i < y.len()
        invariant
            i <= x.len(),
            i <= y.len(),
            forall|j: int| 0 <= j < i ==> x@[j] == y@[j],
        decreases x.len() - i,
    {
        if x[i] < y[i] {
            proof {
                assert(parts_below(x@, y@, i as int));
                lemma_bytes_lt_asymmetric(x@, y@);
            }
            return NameOrder::Before;
        }
        if y[i] < x[i] {
            proof {
                assert(parts_below(y@, x@, i as int));
                lemma_bytes_lt_asymmetric(y@, x@);
            }
            return NameOrder::After;
        }
        i += 1;
    }
    if i < y.len() {
        proof {
            assert(parts_below(x@, y@, i as int));
            lemma_bytes_lt_asymmetric(x@, y@);
        }
        NameOrder::Before
    } else if i < x.len() {
        proof {
            assert(parts_below(y@, x@, i as int));
            lemma_bytes_lt_asymmetric(y@, x@);
        }
        NameOrder::After
    } else {
        proof {
            assert(x@ =~= y@);
            lemma_bytes_lt_irreflexive(x@);
        }
        NameOrder::Same
    }
}

/// Where `a` stands to `b` in the order of names.
pub fn name_order(a: &str, b: &str) -> (r: NameOrder)
    ensures
        (r is Before) == name_lt(a@, b@),
        (r is Same) == (a@ == b@),
        (r is After) == name_lt(b@, a@),
{
    proof {
        if encode_utf8(a@) == encode_utf8(b@) {
            lemma_encoding_injective(a@, b@);
        }
    }
    bytes_order(a.as_bytes(), b.as_bytes())
}

/// Whether two string slices hold the same text.
pub fn str_eq(a: &str, b: &str) -> (r: bool)
    ensures
        r == (a@ == b@),
{
    match name_order(a, b) {
        NameOrder::Same => true,
        _ => false,
    }
}

/// The view of a list of strings.
pub open spec fn texts_view(texts: Seq<String>) -> Seq<Seq<char>> {
    Seq::new(texts.len(), |i: int| texts[i]@)
}

/// The characters of a string, in order.
pub fn to_chars(s: &str) -> (v: Vec<char>)
    ensures
        v@ == s@,
{
    broadcast use vstd::string::group_string_axioms;

    let mut v: Vec<char> = Vec::new();
    for c in it: s.chars()
        invariant
            it.seq() == s@,
            v@ == it.seq().take(it.index() as int),
    {
        v.push(c);
    }
    assert(v@ =~= s@);
    v
}

/// `needle` stands in `hay` at position `at`.
pub open spec fn occurs_at(hay: Seq<char>, needle: Seq<char>, at: int) -> bool {
    &&& 0 <= at
    &&& at + needle.len() <= hay.len()
    &&& hay.subrange(at, at + needle.len()) == needle
}

/// `needle` stands somewhere in `hay`.
pub open spec fn is_infix(hay: Seq<char>, needle: Seq<char>) -> bool {
    exists|at: int| occurs_at(hay, needle, at)
}

fn matches_at(hay: &Vec<char>, needle: &Vec<char>, at: usize) -> (r: bool)
    requires
        at + needle.len() <= hay.len(),
    ensures
        r == occurs_at(hay@, needle@, at as int),
{
    let mut j: usize = 0;
    while j < needle.len()
        invariant
            j <= needle.len(),
            at + needle.len() <= hay.len(),
            forall|k: int| 0 <= k < j ==> hay@[at + k] == needle@[k],
        decreases needle.len() - j,
    {
        if hay[at + j] != needle[j] {
            assert(hay@.subrange(at as int, at + needle.len())[j as int] != needle@[j as int]);
            return false;
        }
        j += 1;
    }
    assert(hay@.subrange(at as int, at + needle.len()) =~= needle@);
    true
}

/// Whether `needle` stands somewhere in `hay`.
pub fn contains(hay: &str, needle: &str) -> (r: bool)
    ensures
        r == is_infix(hay@, needle@),
{
    let h = to_chars(hay);
    let n = to_chars(needle);
    if n.len() > h.len() {
        return false;
    }
    let last: usize = h.len() - n.len();
    let mut at: usize = 0;
    loop
        invariant
            at <= last,
            last == h.len() - n.len(),
            n.len() <= h.len(),
            h@ == hay@,
            n@ == needle@,
            forall|k: int| 0 <= k < at ==> !occurs_at(h@, n@, k),
        decreases last - at,
    {
        if matches_at(&h, &n, at) {
            return true;
        }
        if at == last {
            return false;
        }
        at += 1;
    }
}

/// `path[from..to]` is one of the segments into which the slashes cut the
/// path: it holds no slash, and it goes from the start of the path or from
/// behind a slash to the end of the path or to the next slash.
pub open spec fn is_segment(path: Seq<char>, from: int, to: int) -> bool {
    &&& 0 <= from <= to <= path.len()
    &&& (from == 0 || path[from - 1] == '/')
    &&& (to == path.len() || path[to] == '/')
    &&& forall|k: int| from <= k < to ==> path[k] != '/'
}

/// One of the segments of the path is `name`.
pub open spec fn has_segment(path: Seq<char>, name: Seq<char>) -> bool {
    exists|from: int, to: int| is_segment(path, from, to) && path.subrange(from, to) == name
}

/// Whether one of the segments into which the slashes cut `path` is
/// `name`.
pub fn contains_segment(path: &str, name: &str) -> (r: bool)
    ensures
        r == has_segment(path@, name@),
{
    let p = to_chars(path);
    let n = to_chars(name);
    let mut start: usize = 0;
    let mut i: usize = 0;
    loop
        invariant
            start <= i <= p.len(),
            p@ == path@,
            n@ == name@,
            start == 0 || p@[start - 1] == '/',
            forall|k: int| start <= k < i ==> p@[k] != '/',
            forall|from: int, to: int|
                is_segment(p@, from, to) && to < i ==> p@.subrange(from, to) != n@,
        decreases p.len() - i,
    {
        let at_end = i == p.len();
        if at_end || p[i] == '/' {
            assert(is_segment(p@, start as int, i as int));
            assert forall|from: int| is_segment(p@, from, i as int) implies from == start by {
                if from < start {
                    assert(p@[start - 1] == '/');
                } else if from > start {
                    assert(p@[from - 1] == '/');
                }
            }
            if i - start == n.len() && matches_at(&p, &n, start) {
                return true;
            }
            if at_end {
                return false;
            }
            start = i + 1;
        } else {
            assert forall|from: int| !is_segment(p@, from, i as int) by {}
        }
        i += 1;
    }
}

/// What cuts a text into stretches.
#[derive(Clone, Copy, Debug, PartialEq, Eq, Structural)]
pub enum Separator {
    /// The line feed, which cuts a text into lines.
    Newline,
    /// ASCII white space, which cuts a line into fields: space, tab, line
    /// feed, form feed and carriage return.
    Whitespace,
}

impl Separator {
    /// The character is a separator of this kind.
    pub open spec fn cuts(self, c: char) -> bool {
        match self {
            Separator::Newline => c == '\n',
            Separator::Whitespace => c == ' ' || c == '\t' || c == '\n' || c == '\x0c' || c
                == '\r',
        }
    }

    /// Whether the character is a separator of this kind.
    pub fn is_cut(self, c: char) -> (r: bool)
        ensures
            r == self.cuts(c),
    {
        match self {
            Separator::Newline => c == '\n',
            Separator::Whitespace => c == ' ' || c == '\t' || c == '\n' || c == '\x0c' || c
                == '\r',
        }
    }
}

/// `text[from..to]` is one of the stretches into which the separators cut
/// the text, and it begins with `prefix`.
pub open spec fn is_stretch(
    text: Seq<char>,
    sep: Separator,
    prefix: Seq<char>,
    from: int,
    to: int,
) -> bool {
    &&& 0 <= from <= to <= text.len()
    &&& (from == 0 || sep.cuts(text[from - 1]))
    &&& (to == text.len() || sep.cuts(text[to]))
    &&& forall|k: int| from <= k < to ==> !sep.cuts(text[k])
    &&& occurs_at(text.subrange(from, to), prefix, 0)
}

/// `text[from..to]` is the first stretch that begins with `prefix`.
pub open spec fn is_first_stretch(
    text: Seq<char>,
    sep: Separator,
    prefix: Seq<char>,
    from: int,
    to: int,
) -> bool {
    &&& is_stretch(text, sep, prefix, from, to)
    &&& forall|a: int, b: int| is_stretch(text, sep, prefix, a, b) ==> from <= a
}

/// What follows `prefix` in the first of the stretches of `text` that
/// begins with `prefix`.
pub open spec fn after_first(text: Seq<char>, sep: Separator, prefix: Seq<char>) -> Option<
    Seq<char>,
> {
    if exists|from: int, to: int| is_first_stretch(text, sep, prefix, from, to) {
        let (from, to) = choose|from: int, to: int| is_first_stretch(text, sep, prefix, from, to);
        Some(text.subrange(from + prefix.len(), to))
    } else {
        None
    }
}

/// A stretch ends where the next separator stands: two stretches that
/// begin at one place are one.
proof fn lemma_stretch_end(
    text: Seq<char>,
    sep: Separator,
    prefix: Seq<char>,
    from: int,
    a: int,
    b: int,
)
    requires
        is_stretch(text, sep, prefix, from, a),
        is_stretch(text, sep, prefix, from, b),
    ensures
        a == b,
{
    if a < b {
        assert(sep.cuts(text[a]));
    } else if b < a {
        assert(sep.cuts(text[b]));
    }
}

/// What follows `prefix` in the first of the stretches of `text` that
/// begins with `prefix`.
pub fn strip_first(text: &Vec<char>, sep: Separator, prefix: &str) -> (r: Option<Vec<char>>)
    ensures
        match r {
            Some(rest) => after_first(text@, sep, prefix@) == Some(rest@),
            None => after_first(text@, sep, prefix@) is None,
        },
{
    let p = to_chars(prefix);
    let mut start: usize = 0;
    let mut i: usize = 0;
    loop
        invariant
            start <= i <= text.len(),
            p@ == prefix@,
            start == 0 || sep.cuts(text@[start - 1]),
            forall|k: int| start <= k < i ==> !sep.cuts(text@[k]),
            forall|a: int, b: int| b < i ==> !is_stretch(text@, sep, p@, a, b),
        decreases text.len() - i,
    {
        let at_end = i == text.len();
        if at_end || sep.is_cut(text[i]) {
            assert forall|a: int| is_stretch(text@, sep, p@, a, i as int) implies a == start by {
                if a < start {
                    assert(sep.cuts(text@[start - 1]));
                } else if a > start {
                    assert(sep.cuts(text@[a - 1]));
                }
            }
            if i - start >= p.len() && matches_at(text, &p, start) {
                let rest = copy_chars(text, start + p.len(), i);
                proof {
                    let run = text@.subrange(start as int, i as int);
                    assert(run.subrange(0, p@.len() as int) =~= text@.subrange(
                        start as int,
                        start + p@.len(),
                    ));
                    assert(is_stretch(text@, sep, p@, start as int, i as int));
                    assert forall|a: int, b: int|
                        is_stretch(text@, sep, p@, a, b) implies start <= a by {
                        if a < start {
                            assert(sep.cuts(text@[start - 1]));
                            assert(b < i);
                        }
                    }
                    assert(is_first_stretch(text@, sep, p@, start as int, i as int));
                    let (from, to) = choose|from: int, to: int|
                        is_first_stretch(text@, sep, p@, from, to);
                    assert(from == start);
                    lemma_stretch_end(text@, sep, p@, from, to, i as int);
                }
                return Some(rest);
            } else {
                proof {
                    if is_stretch(text@, sep, p@, start as int, i as int) {
                        let run = text@.subrange(start as int, i as int);
                        assert(run.subrange(0, p@.len() as int) =~= text@.subrange(
                            start as int,
                            start + p@.len(),
                        ));
                    }
                }
            }
            if at_end {
                assert forall|a: int, b: int| !is_stretch(text@, sep, p@, a, b) by {}
                return None;
            }
            start = i + 1;
        } else {
            assert forall|a: int| !is_stretch(text@, sep, p@, a, i as int) by {}
        }
        i += 1;
    }
}

/// The characters `v[from..to]`.
fn copy_chars(v: &Vec<char>, from: usize, to: usize) -> (r: Vec<char>)
    requires
        from <= to <= v.len(),
    ensures
        r@ == v@.subrange(from as int, to as int),
{
    let mut r: Vec<char> = Vec::new();
    let mut i: usize = from;
    while i < to
        invariant
            from <= i <= to,
            to <= v.len(),
            r@ == v@.subrange(from as int, i as int),
        decreases to - i,
    {
        r.push(v[i]);
        assert(v@.subrange(from as int, i + 1) =~= v@.subrange(from as int, i as int).push(
            v@[i as int],
        ));
        i += 1;
    }
    r
}

/// The string made of the characters of `v`.
pub fn from_chars(v: &Vec<char>) -> (s: String)
    ensures
        s@ == v@,
{
    let s = string_of(v, 0, v.len());
    assert(v@.subrange(0, v@.len() as int) =~= v@);
    s
}

/// The string made of the characters `v[from..to]`.
fn string_of(v: &Vec<char>, from: usize, to: usize) -> (s: String)
    requires
        from <= to <= v.len(),
    ensures
        s@ == v@.subrange(from as int, to as int),
{
    let mut s = String::new();
    let mut i: usize = from;
    while i < to
        invariant
            from <= i <= to,
            to <= v.len(),
            s@ == v@.subrange(from as int, i as int),
        decreases to - i,
    {
        push_char(&mut s, v[i]);
        assert(v@.subrange(from as int, i + 1) =~= v@.subrange(from as int, i as int).push(
            v@[i as int],
        ));
        i += 1;
    }
    s
}

/// `String::push`: the character is added at the end.
#[verifier::external_body]
pub(crate) fn push_char(s: &mut String, c: char)
    ensures
        final(s)@ == old(s)@.push(c),
{
    s.push(c)
}

/// The digit that `c` writes in base ten, where it is one.
pub open spec fn digit_value(c: char) -> Option<int> {
    if '0' <= c && c <= '9' {
        Some(c as int - '0' as int)
    } else {
        None
    }
}

/// Every character of `s` is a digit of base ten.
pub open spec fn all_digits(s: Seq<char>) -> bool {
    forall|i: int| 0 <= i < s.len() ==> digit_value(#[trigger] s[i]) is Some
}

/// The number that the digits `s` write in base ten.
pub open spec fn decimal_value(s: Seq<char>) -> int
    decreases s.len(),
{
    if s.len() == 0 {
        0
    } else {
        10 * decimal_value(s.drop_last()) + match digit_value(s.last()) {
            Some(d) => d,
            None => 0,
        }
    }
}

/// The digits of a decimal numeral: the text without one leading `+`.
pub open spec fn numeral_digits(s: Seq<char>) -> Seq<char> {
    if s.len() > 0 && s[0] == '+' {
        s.drop_first()
    } else {
        s
    }
}

/// The number that `s` writes: an optional `+`, then one or more decimal
/// digits and nothing else, the value within `u64`.
pub open spec fn decimal_u64(s: Seq<char>) -> Option<u64> {
    let digits = numeral_digits(s);
    if digits.len() > 0 && all_digits(digits) && decimal_value(digits) <= u64::MAX {
        Some(decimal_value(digits) as u64)
    } else {
        None
    }
}

proof fn lemma_decimal_value_grows(s: Seq<char>, n: int)
    requires
        0 <= n <= s.len(),
    ensures
        0 <= decimal_value(s.take(n)) <= decimal_value(s),
    decreases s.len() - n,
{
    lemma_decimal_value_nonnegative(s.take(n));
    if n < s.len() {
        assert(s.take(n + 1).drop_last() =~= s.take(n));
        lemma_decimal_value_grows(s, n + 1);
    } else {
        assert(s.take(n) =~= s);
    }
}

proof fn lemma_decimal_value_nonnegative(s: Seq<char>)
    ensures
        0 <= decimal_value(s),
    decreases s.len(),
{
    if s.len() > 0 {
        lemma_decimal_value_nonnegative(s.drop_last());
    }
}

/// Reads a decimal numeral as a `u64`.
pub fn parse_u64(s: &str) -> (r: Option<u64>)
    ensures
        r == decimal_u64(s@),
{
    let v = to_chars(s);
    let start: usize = if v.len() > 0 && v[0] == '+' { 1 } else { 0 };
    let ghost digits = numeral_digits(s@);
    assert(digits =~= v@.subrange(start as int, v.len() as int));
    if start == v.len() {
        return None;
    }
    let mut acc: u64 = 0;
    let mut i: usize = start;
    while i < v.len()
        invariant
            start <= i <= v.len(),
            start < v.len(),
            digits == numeral_digits(s@),
            digits == v@.subrange(start as int, v.len() as int),
            all_digits(digits.take(i - start)),
            acc == decimal_value(digits.take(i - start)),
        decreases v.len() - i,
    {
        let c = v[i];
        let ghost here = digits.take(i - start + 1);
        assert(here.drop_last() =~= digits.take(i - start));
        assert(here.last() == c);
        if !(c >= '0' && c <= '9') {
            assert(digits[i - start] == c);
            assert(digit_value(digits[i - start]) is None);
            return None;
        }
        let d: u64 = (c as u32 - '0' as u32) as u64;
        assert(d == digit_value(c)->0);
        if acc > (u64::MAX - d) / 10 {
            proof {
                assert(decimal_value(here) > u64::MAX);
                lemma_decimal_value_grows(digits, i - start + 1);
            }
            return None;
        }
        acc = acc * 10 + d;
        assert forall|j: int| 0 <= j < here.len() implies digit_value(
            #[trigger] here[j],
        ) is Some by {
            if j < here.len() - 1 {
                assert(here[j] == digits.take(i - start)[j]);
            }
        }
        i += 1;
    }
    assert(digits.take(i - start) =~= digits);
    Some(acc)
}

} // verus!
