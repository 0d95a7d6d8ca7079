//! Text helpers over character sequences: splitting on whitespace or on
//! a separator, searching, slicing, and the few calls into std whose
//! behaviour this library relies on.
use vstd::prelude::*;
use vstd::string::*;

verus! {

/// Whether `c` has Unicode's White_Space property.
pub uninterp spec fn white_space(c: char) -> bool;

/// The lowercase form of a text, as std computes it.
pub uninterp spec fn lower_of(s: Seq<char>) -> Seq<char>;

/// Relies on `char::is_whitespace`: true exactly for White_Space characters.
#[verifier::external_body]
fn is_blank(c: char) -> (r: bool)
    ensures
        r == white_space(c),
{
    c.is_whitespace()
}

/// Relies on `str::to_lowercase`: the result depends on the characters alone.
#[verifier::external_body]
pub(crate) fn lowercase(s: &str) -> (r: String)
    ensures
        r@ == lower_of(s@),
{
    s.to_lowercase()
}

/// The value of a sequence of decimal digits.
pub open spec fn digits_value(d: Seq<char>) -> int
    decreases d.len(),
{
    if d.len() == 0 {
        0
    } else {
        10 * digits_value(d.drop_last()) + (d.last() as int - '0' as int)
    }
}

pub open spec fn is_digit(c: char) -> bool {
    '0' <= c && c <= '9'
}

/// The digits of a numeral, after an optional sign.
pub open spec fn unsigned_part(s: Seq<char>) -> Seq<char> {
    if s.len() > 0 && (s[0] == '+' || s[0] == '-') {
        s.skip(1)
    } else {
        s
    }
}

/// The value that a numeral denotes.
pub open spec fn numeral_value(s: Seq<char>) -> int {
    if s.len() > 0 && s[0] == '-' {
        -digits_value(unsigned_part(s))
    } else {
        digits_value(unsigned_part(s))
    }
}

/// A numeral: an optional `+` or `-`, then one or more decimal digits,
/// denoting a value that fits in an `i64`.
pub open spec fn is_i64_numeral(s: Seq<char>) -> bool {
    let d = unsigned_part(s);
    &&& d.len() > 0
    &&& forall|k: int| 0 <= k < d.len() ==> is_digit(#[trigger] d[k])
    &&& i64::MIN <= numeral_value(s) <= i64::MAX
}

/// Relies on `i64`'s `FromStr`: it accepts an optional sign followed by
/// decimal digits whose value fits, and nothing else.
#[verifier::external_body]
pub(crate) fn parse_i64(s: &str) -> (r: Option<i64>)
    ensures
        r is Some <==> is_i64_numeral(s@),
        r matches Some(v) ==> v as int == numeral_value(s@),
{
    s.parse::<i64>().ok()
}

/// The characters of `s`, in order.
pub fn chars_of(s: &str) -> (r: Vec<char>)
    ensures
        r@ == s@,
{
    let mut r: Vec<char> = Vec::new();
    for c in it: s.chars()
        invariant
            r@ == it.seq().take(it.index() as int),
    {
        r.push(c);
    }
    r
}

/// The characters of `s` from `from` up to `to`, as a new string.
pub fn slice_text(s: &str, from: usize, to: usize) -> (r: String)
    requires
        from <= to <= s@.len(),
    ensures
        r@ == s@.subrange(from as int, to as int),
{
    s.substring_char(from, to).to_owned()
}

pub open spec fn texts(v: Seq<String>) -> Seq<Seq<char>> {
    v.map_values(|s: String| s@)
}

/// The words of a text: its maximal runs of characters that are not
/// white space, in order. A character that is not white space extends the
/// word that the previous character belongs to, or starts a new one.
pub open spec fn words(s: Seq<char>) -> Seq<Seq<char>>
    decreases s.len(),
{
    if s.len() == 0 {
        Seq::empty()
    } else {
        let prev = words(s.drop_last());
        let c = s.last();
        if white_space(c) {
            prev
        } else if s.len() > 1 && !white_space(s[s.len() - 2]) {
            prev.drop_last().push(prev.last().push(c))
        } else {
            prev.push(seq![c])
        }
    }
}

/// The pieces of a text between occurrences of `sep`, empty ones included.
pub open spec fn pieces(s: Seq<char>, sep: char) -> Seq<Seq<char>>
    decreases s.len(),
{
    if s.len() == 0 {
        seq![Seq::empty()]
    } else {
        let prev = pieces(s.drop_last(), sep);
        if s.last() == sep {
            prev.push(Seq::empty())
        } else {
            prev.drop_last().push(prev.last().push(s.last()))
        }
    }
}

/// The first index, at or after `i`, at which `c` stands in `s`.
pub open spec fn index_from(s: Seq<char>, c: char, i: nat) -> Option<nat>
    decreases s.len() - i,
{
    if i >= s.len() {
        None
    } else if s[i as int] == c {
        Some(i)
    } else {
        index_from(s, c, i + 1)
    }
}

/// A text split at the first occurrence of `c`: what precedes it, and what
/// follows it if it occurs.
pub open spec fn split_first(s: Seq<char>, c: char) -> (Seq<char>, Option<Seq<char>>) {
    match index_from(s, c, 0) {
        Some(k) => (s.take(k as int), Some(s.skip(k + 1 as int))),
        None => (s, None),
    }
}

proof fn lemma_index_from_bounds(s: Seq<char>, c: char, i: nat)
    ensures
        index_from(s, c, i) matches Some(k) ==> i <= k < s.len() && s[k as int] == c,
    decreases s.len() - i,
{
    if i < s.len() && s[i as int] != c {
        lemma_index_from_bounds(s, c, i + 1);
    }
}

/// The first index of `c` in `v`.
pub fn find_char(v: &Vec<char>, c: char) -> (r: Option<usize>)
    ensures
        match r {
            Some(k) => index_from(v@, c, 0) == Some(k as nat),
            None => index_from(v@, c, 0) is None,
        },
{
    let mut i: usize = 0;
    while i < v.len()
        invariant
            i <= v@.len(),
            index_from(v@, c, 0) == index_from(v@, c, i as nat),
        decreases v@.len() - i,
    {
        if v[i] == c {
            return Some(i);
        }
        i = i + 1;
    }
    None
}

/// The text split at the first occurrence of `c`.
pub fn split_at_first(s: &str, c: char) -> (r: (String, Option<String>))
    ensures
        r.0@ == split_first(s@, c).0,
        text_opt(r.1) == split_first(s@, c).1,
{
    let v = chars_of(s);
    let n = v.len();
    match find_char(&v, c) {
        Some(k) => {
            proof {
                lemma_index_from_bounds(s@, c, 0);
            }
            (slice_text(s, 0, k), Some(slice_text(s, k + 1, n)))
        },
        None => (slice_text(s, 0, n), None),
    }
}

/// The text of an optional string.
pub open spec fn text_opt(o: Option<String>) -> Option<Seq<char>> {
    match o {
        Some(s) => Some(s@),
        None => None,
    }
}

/// `prefix` followed by `t`, as a new string.
pub fn concat_text(prefix: &str, t: &str) -> (r: String)
    ensures
        r@ == prefix@ + t@,
{
    let mut m = String::from_str(prefix);
    m.append(t);
    m
}

/// The words of `s`, as `str::split_whitespace` gives them.
pub fn split_words(s: &str) -> (r: Vec<String>)
    ensures
        texts(r@) == words(s@),
{
    let v = chars_of(s);
    let n = v.len();
    let mut out: Vec<String> = Vec::new();
    let mut start: usize = 0;
    let mut in_word = false;
    for i in 0..n
        invariant
            n == v@.len(),
            v@ == s@,
            in_word ==> start < i && !white_space(v@[i - 1]) && words(v@.take(i as int))
                == texts(out@).push(v@.subrange(start as int, i as int)),
            !in_word ==> (i == 0 || white_space(v@[i - 1])) && words(v@.take(i as int)) == texts(
                out@,
            ),
    {
        let c = v[i];
        let blank = is_blank(c);
        proof {
            assert(v@.take(i + 1).drop_last() =~= v@.take(i as int));
            assert(v@.take(i + 1).last() == c);
        }
        if blank {
            if in_word {
                let w = slice_text(s, start, i);
                let ghost before = out@;
                out.push(w);
                proof {
                    assert(texts(out@) =~= texts(before).push(w@));
                }
                in_word = false;
            }
        } else {
            if !in_word {
                start = i;
                in_word = true;
                assert(v@.subrange(start as int, i + 1) =~= seq![c]);
            } else {
                assert(v@.subrange(start as int, i + 1) =~= v@.subrange(start as int, i as int).push(c));
            }
        }
    }
    proof {
        assert(v@.take(n as int) =~= v@);
    }
    if in_word {
        let w = slice_text(s, start, n);
        let ghost before = out@;
        out.push(w);
        proof {
            assert(texts(out@) =~= texts(before).push(w@));
        }
    }
    out
}

/// The pieces of `s` between occurrences of `sep`, as `str::split` gives them.
pub fn split_pieces(s: &str, sep: char) -> (r: Vec<String>)
    ensures
        texts(r@) == pieces(s@, sep),
{
    let v = chars_of(s);
    let n = v.len();
    let mut out: Vec<String> = Vec::new();
    let mut start: usize = 0;
    proof {
        assert(v@.take(0) =~= Seq::<char>::empty());
        assert(v@.subrange(0, 0) =~= Seq::<char>::empty());
    }
    for i in 0..n
        invariant
            n == v@.len(),
            v@ == s@,
            start <= i,
            pieces(v@.take(i as int), sep) == texts(out@).push(v@.subrange(start as int, i as int)),
    {
        let c = v[i];
        proof {
            assert(v@.take(i + 1).drop_last() =~= v@.take(i as int));
            assert(v@.take(i + 1).last() == c);
        }
        if c == sep {
            let w = slice_text(s, start, i);
            let ghost before = out@;
            out.push(w);
            start = i + 1;
            proof {
                assert(texts(out@) =~= texts(before).push(w@));
                assert(v@.subrange(start as int, i + 1) =~= Seq::<char>::empty());
            }
        } else {
            assert(v@.subrange(start as int, i + 1) =~= v@.subrange(start as int, i as int).push(c));
        }
    }
    proof {
        assert(v@.take(n as int) =~= v@);
    }
    let w = slice_text(s, start, n);
    let ghost before = out@;
    out.push(w);
    proof {
        assert(texts(out@) =~= texts(before).push(w@));
    }
    out
}

} // verus!
