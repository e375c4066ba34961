use vstd::prelude::*;
use crate::decimal::{decimal, lemma_parsed_in_bounds, parse_bounded, parse_unsigned, to_decimal};

verus! {

/// Whether `i` is the first position of `c` in `s`.
pub open spec fn is_first(s: Seq<char>, c: char, i: int) -> bool {
    &&& 0 <= i < s.len()
    &&& s[i] == c
    &&& forall|k: int| 0 <= k < i ==> s[k] != c
}

/// Whether `i` is the last position of `c` in `s`.
pub open spec fn is_last(s: Seq<char>, c: char, i: int) -> bool {
    &&& 0 <= i < s.len()
    &&& s[i] == c
    &&& forall|k: int| i < k < s.len() ==> s[k] != c
}

/// The parts of `s` before and after the first `c`, if `c` occurs.
pub open spec fn split_at_first(s: Seq<char>, c: char) -> Option<(Seq<char>, Seq<char>)> {
    if exists|i: int| is_first(s, c, i) {
        let i = choose|i: int| is_first(s, c, i);
        Some((s.subrange(0, i), s.subrange(i + 1, s.len() as int)))
    } else {
        None
    }
}

/// The parts of `s` before and after the last `c`, if `c` occurs.
pub open spec fn split_at_last(s: Seq<char>, c: char) -> Option<(Seq<char>, Seq<char>)> {
    if exists|i: int| is_last(s, c, i) {
        let i = choose|i: int| is_last(s, c, i);
        Some((s.subrange(0, i), s.subrange(i + 1, s.len() as int)))
    } else {
        None
    }
}

/// The bound that a range's end point gives: its value, or zero where it does not parse.
pub open spec fn bound_or_zero(s: Seq<char>, max: int) -> int {
    match parse_unsigned(s, max) {
        Some(v) => v,
        None => 0,
    }
}

/// The number of integers from `lo` to `hi`, both included.
pub open spec fn span(lo: int, hi: int) -> nat {
    if lo <= hi {
        (hi - lo + 1) as nat
    } else {
        0
    }
}

/// The ports from `lo` to `hi`, both included, in increasing order.
pub open spec fn ports_between(lo: int, hi: int) -> Seq<u16> {
    Seq::new(span(lo, hi), |k: int| (lo + k) as u16)
}

/// The addresses `base.lo` to `base.hi`, in increasing order of the last octet.
pub open spec fn addresses_between(base: Seq<char>, lo: int, hi: int) -> Seq<Seq<char>> {
    Seq::new(span(lo, hi), |k: int| base + seq!['.'] + decimal((lo + k) as nat))
}

/// The ports that a port specifier names, where `trimmed` is the whole specifier
/// with surrounding whitespace removed: `a-b` gives the ports from `a` to `b`
/// (an end point that does not parse counts as zero); otherwise the trimmed text
/// is one port, or names none where it does not parse.
pub open spec fn port_range(s: Seq<char>, trimmed: Seq<char>) -> Seq<u16> {
    match split_at_first(s, '-') {
        Some((a, b)) => ports_between(bound_or_zero(a, 65535), bound_or_zero(b, 65535)),
        None => single_port_of(trimmed),
    }
}

/// The one port that `s` names, or none where `s` does not parse as a port.
pub open spec fn single_port_of(s: Seq<char>) -> Seq<u16> {
    match parse_unsigned(s, 65535) {
        Some(p) => seq![p as u16],
        None => seq![],
    }
}

/// The addresses that an address specifier names: `base.a-b` gives
/// `base.a` to `base.b` (an end point that does not parse as an octet counts
/// as zero); anything else is one address, the text itself.
pub open spec fn ip_range(s: Seq<char>) -> Seq<Seq<char>> {
    match split_at_last(s, '.') {
        Some((base, tail)) => match split_at_first(tail, '-') {
            Some((a, b)) => addresses_between(base, bound_or_zero(a, 255), bound_or_zero(b, 255)),
            None => seq![s],
        },
        None => seq![s],
    }
}

/// The text of each string.
pub open spec fn texts(v: Seq<String>) -> Seq<Seq<char>> {
    v.map_values(|x: String| x@)
}

/// Names `trimmed_of`: what `str::trim` returns for a text.
pub uninterp spec fn trimmed_of(s: Seq<char>) -> Seq<char>;

/// Relies on `str::trim`: the text without leading and trailing whitespace,
/// which depends on the characters alone.
#[verifier::external_body]
fn trim_text(s: &str) -> (r: &str)
    ensures
        r@ == trimmed_of(s@),
{
    s.trim()
}

/// Splitting at a known first occurrence.
pub proof fn lemma_split_first_at(s: Seq<char>, c: char, i: int)
    requires
        is_first(s, c, i),
    ensures
        split_at_first(s, c) == Some((s.subrange(0, i), s.subrange(i + 1, s.len() as int))),
{
    let j = choose|j: int| is_first(s, c, j);
    assert(is_first(s, c, j));
    if j < i {
        assert(s[j] != c);
    } else if i < j {
        assert(s[i] != c);
    }
}

/// Splitting at a known last occurrence.
pub proof fn lemma_split_last_at(s: Seq<char>, c: char, i: int)
    requires
        is_last(s, c, i),
    ensures
        split_at_last(s, c) == Some((s.subrange(0, i), s.subrange(i + 1, s.len() as int))),
{
    let j = choose|j: int| is_last(s, c, j);
    assert(is_last(s, c, j));
    if j < i {
        assert(s[i] != c);
    } else if i < j {
        assert(s[j] != c);
    }
}

/// Finds the first `c` in `s`.
fn find_first(s: &str, c: char) -> (r: Option<usize>)
    ensures
        r matches Some(i) ==> is_first(s@, c, i as int),
        r is None ==> split_at_first(s@, c) is None,
{
    let len = s.unicode_len();
    let mut i: usize = 0;
    while i < len
        invariant
            i <= len,
            len == s@.len(),
            forall|k: int| 0 <= k < i ==> s@[k] != c,
        decreases len - i,
    {
        if s.get_char(i) == c {
            return Some(i);
        }
        i = i + 1;
    }
    assert(!exists|j: int| is_first(s@, c, j)) by {
        if exists|j: int| is_first(s@, c, j) {
            let j = choose|j: int| is_first(s@, c, j);
            assert(s@[j] != c);
        }
    }
    None
}

/// Finds the last `c` in `s`.
fn find_last(s: &str, c: char) -> (r: Option<usize>)
    ensures
        r matches Some(i) ==> is_last(s@, c, i as int),
        r is None ==> split_at_last(s@, c) is None,
{
    let len = s.unicode_len();
    let mut i: usize = len;
    while i > 0
        invariant
            i <= len,
            len == s@.len(),
            forall|k: int| i <= k < len ==> s@[k] != c,
        decreases i,
    {
        if s.get_char(i - 1) == c {
            return Some(i - 1);
        }
        i = i - 1;
    }
    assert(!exists|j: int| is_last(s@, c, j)) by {
        if exists|j: int| is_last(s@, c, j) {
            let j = choose|j: int| is_last(s@, c, j);
            assert(s@[j] != c);
        }
    }
    None
}

/// Splits `s` around its first `c`.
fn split_first<'a>(s: &'a str, c: char) -> (r: Option<(&'a str, &'a str)>)
    ensures
        r matches Some(p) ==> split_at_first(s@, c) == Some((p.0@, p.1@)),
        r is None ==> split_at_first(s@, c) is None,
{
    match find_first(s, c) {
        Some(i) => {
            proof {
                lemma_split_first_at(s@, c, i as int);
            }
            let len = s.unicode_len();
            Some((s.substring_char(0, i), s.substring_char(i + 1, len)))
        },
        None => None,
    }
}

/// Splits `s` around its last `c`.
fn split_last<'a>(s: &'a str, c: char) -> (r: Option<(&'a str, &'a str)>)
    ensures
        r matches Some(p) ==> split_at_last(s@, c) == Some((p.0@, p.1@)),
        r is None ==> split_at_last(s@, c) is None,
{
    match find_last(s, c) {
        Some(i) => {
            proof {
                lemma_split_last_at(s@, c, i as int);
            }
            let len = s.unicode_len();
            Some((s.substring_char(0, i), s.substring_char(i + 1, len)))
        },
        None => None,
    }
}

/// Parses a range's end point, taking zero where it does not parse.
fn bound(s: &str, max: u16) -> (r: u16)
    ensures
        r as int == bound_or_zero(s@, max as int),
{
    match parse_bounded(s, max) {
        Some(v) => v,
        None => 0,
    }
}

/// The ports from `lo` to `hi`, both included.
fn ports_from_to(lo: u16, hi: u16) -> (r: Vec<u16>)
    ensures
        r@ == ports_between(lo as int, hi as int),
{
    let mut r: Vec<u16> = Vec::new();
    if lo <= hi {
        let mut p: u32 = lo as u32;
        while p <= hi as u32
            invariant
                lo <= hi,
                lo <= p <= hi as u32 + 1,
                r@ =~= ports_between(lo as int, hi as int).subrange(0, p - lo),
            decreases hi as u32 + 1 - p,
        {
            r.push(p as u16);
            p = p + 1;
        }
        assert(r@ =~= ports_between(lo as int, hi as int));
    } else {
        assert(r@ =~= ports_between(lo as int, hi as int));
    }
    r
}

/// The addresses `base.lo` to `base.hi`, both included.
fn addresses_from_to(base: &str, lo: u16, hi: u16) -> (r: Vec<String>)
    ensures
        texts(r@) == addresses_between(base@, lo as int, hi as int),
{
    let mut r: Vec<String> = Vec::new();
    if lo <= hi {
        let mut o: u32 = lo as u32;
        while o <= hi as u32
            invariant
                lo <= hi,
                lo <= o <= hi as u32 + 1,
                texts(r@) =~= addresses_between(base@, lo as int, hi as int).subrange(0, o - lo),
            decreases hi as u32 + 1 - o,
        {
            proof {
                reveal_strlit(".");
            }
            let mut a = String::from_str(base);
            a.append(".");
            a.append(to_decimal(o as u16).as_str());
            assert(a@ =~= base@ + seq!['.'] + decimal(o as nat));
            let ghost before = r@;
            r.push(a);
            assert(texts(r@) =~= texts(before).push(a@));
            o = o + 1;
        }
        assert(texts(r@) =~= addresses_between(base@, lo as int, hi as int));
    } else {
        assert(texts(r@) =~= addresses_between(base@, lo as int, hi as int));
    }
    r
}

/// The port of a specifier that names one port: none where `trimmed` does not
/// parse as a port.
pub fn single_port(trimmed: &str) -> (r: Vec<u16>)
    ensures
        r@ == single_port_of(trimmed@),
{
    match parse_bounded(trimmed, 65535) {
        Some(p) => {
            let r = vec![p];
            assert(r@ =~= seq![p]);
            r
        },
        None => Vec::new(),
    }
}

/// Expands a port specifier: a range `a-b`, or a single port.
pub fn parse_port_range(input: &str) -> (r: Vec<u16>)
    ensures
        r@ == port_range(input@, trimmed_of(input@)),
{
    match split_first(input, '-') {
        Some((a, b)) => ports_from_to(bound(a, 65535), bound(b, 65535)),
        None => single_port(trim_text(input)),
    }
}

/// Expands an address specifier: `base.a-b` names a range of last octets;
/// anything else is one address.
pub fn parse_ip_range(input: &str) -> (r: Vec<String>)
    ensures
        texts(r@) == ip_range(input@),
{
    if let Some((base, tail)) = split_last(input, '.') {
        if let Some((a, b)) = split_first(tail, '-') {
            return addresses_from_to(base, bound(a, 255), bound(b, 255));
        }
    }
    let r = vec![String::from_str(input)];
    assert(texts(r@) =~= seq![input@]);
    r
}

/// A port specifier `a-b` whose end points parse, with `a <= b`, names exactly
/// `b - a + 1` ports, strictly increasing from `a` to `b`.
pub proof fn law_ascending_port_range(a: Seq<char>, b: Seq<char>, lo: int, hi: int)
    requires
        !a.contains('-'),
        parse_unsigned(a, 65535) == Some(lo),
        parse_unsigned(b, 65535) == Some(hi),
        lo <= hi,
    ensures
        ({
            let s = a + seq!['-'] + b;
            let r = port_range(s, trimmed_of(s));
            &&& r.len() == hi - lo + 1
            &&& r[0] == lo
            &&& r[r.len() - 1] == hi
            &&& forall|i: int, j: int| 0 <= i < j < r.len() ==> r[i] < r[j]
        }),
{
    lemma_split_port_spec(a, b);
    lemma_parsed_in_bounds(a, 65535);
    lemma_parsed_in_bounds(b, 65535);
}

/// A port specifier `a-b` whose end points parse, with `a > b`, names no port.
pub proof fn law_descending_port_range(a: Seq<char>, b: Seq<char>, lo: int, hi: int)
    requires
        !a.contains('-'),
        parse_unsigned(a, 65535) == Some(lo),
        parse_unsigned(b, 65535) == Some(hi),
        lo > hi,
    ensures
        ({
            let s = a + seq!['-'] + b;
            port_range(s, trimmed_of(s)).len() == 0
        }),
{
    lemma_split_port_spec(a, b);
}

proof fn lemma_split_port_spec(a: Seq<char>, b: Seq<char>)
    requires
        !a.contains('-'),
    ensures
        split_at_first(a + seq!['-'] + b, '-') == Some((a, b)),
{
    let s = a + seq!['-'] + b;
    assert forall|k: int| 0 <= k < a.len() implies s[k] != '-' by {
        assert(s[k] == a[k]);
    }
    assert(is_first(s, '-', a.len() as int));
    lemma_split_first_at(s, '-', a.len() as int);
    assert(s.subrange(0, a.len() as int) =~= a);
    assert(s.subrange(a.len() as int + 1, s.len() as int) =~= b);
}

/// An address specifier `base.a-b` whose end points parse as octets, with
/// `a <= b`, names exactly `b - a + 1` addresses, each of them `base.` followed
/// by its last octet.
pub proof fn law_address_range(base: Seq<char>, a: Seq<char>, b: Seq<char>, lo: int, hi: int)
    requires
        !a.contains('-'),
        !a.contains('.'),
        !b.contains('.'),
        parse_unsigned(a, 255) == Some(lo),
        parse_unsigned(b, 255) == Some(hi),
        lo <= hi,
    ensures
        ({
            let r = ip_range(base + seq!['.'] + a + seq!['-'] + b);
            &&& r.len() == hi - lo + 1
            &&& forall|i: int| 0 <= i < r.len() ==> (#[trigger] r[i]).subrange(0, base.len() as int + 1)
                == base + seq!['.']
            &&& forall|i: int| 0 <= i < r.len() ==> #[trigger] r[i] == base + seq!['.'] + decimal(
                (lo + i) as nat,
            )
        }),
{
    let tail = a + seq!['-'] + b;
    let s = base + seq!['.'] + a + seq!['-'] + b;
    assert(s =~= base + seq!['.'] + tail);
    assert forall|k: int| base.len() < k < s.len() implies s[k] != '.' by {
        assert(s[k] == tail[k - base.len() - 1]);
        let t = k - base.len() - 1;
        if t < a.len() {
            assert(tail[t] == a[t]);
        } else if t > a.len() {
            assert(tail[t] == b[t - a.len() - 1]);
        }
    }
    assert(is_last(s, '.', base.len() as int));
    lemma_split_last_at(s, '.', base.len() as int);
    assert(s.subrange(0, base.len() as int) =~= base);
    assert(s.subrange(base.len() as int + 1, s.len() as int) =~= tail);
    lemma_split_port_spec(a, b);
    let r = ip_range(s);
    assert forall|i: int| 0 <= i < r.len() implies (#[trigger] r[i]).subrange(0, base.len() as int + 1)
        == base + seq!['.'] by {
        assert(r[i].subrange(0, base.len() as int + 1) =~= base + seq!['.']);
    }
}

} // verus!
