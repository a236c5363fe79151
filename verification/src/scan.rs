//! Byte-level scanning helpers for the Unicode data files: whitespace
//! trimming, prefix/suffix tests, and subslice extraction.

use vstd::prelude::*;

verus! {

/// ASCII whitespace as it occurs in the data files: space, tab, and the
/// line-ending control characters.
pub open spec fn is_ws(b: u8) -> bool {
    b == 0x20 || b == 0x09 || b == 0x0a || b == 0x0b || b == 0x0c || b == 0x0d
}

fn is_ws_byte(b: u8) -> (r: bool)
    ensures
        r == is_ws(b),
{
    b == 0x20 || b == 0x09 || b == 0x0a || b == 0x0b || b == 0x0c || b == 0x0d
}

/// The sequence with leading whitespace removed.
pub open spec fn trim_start_spec(s: Seq<u8>) -> Seq<u8>
    decreases s.len(),
{
    if s.len() > 0 && is_ws(s[0]) {
        trim_start_spec(s.drop_first())
    } else {
        s
    }
}

/// The sequence with trailing whitespace removed.
pub open spec fn trim_end_spec(s: Seq<u8>) -> Seq<u8>
    decreases s.len(),
{
    if s.len() > 0 && is_ws(s[s.len() - 1]) {
        trim_end_spec(s.drop_last())
    } else {
        s
    }
}

/// The sequence with whitespace removed from both ends.
pub open spec fn trim_spec(s: Seq<u8>) -> Seq<u8> {
    trim_end_spec(trim_start_spec(s))
}

/// `p` is an initial segment of `s`.
pub open spec fn has_prefix(s: Seq<u8>, p: Seq<u8>) -> bool {
    s.len() >= p.len() && s.take(p.len() as int) == p
}

/// `p` is a final segment of `s`.
pub open spec fn has_suffix(s: Seq<u8>, p: Seq<u8>) -> bool {
    s.len() >= p.len() && s.skip(s.len() - p.len()) == p
}

/// Copies `v[lo..hi]` into a fresh vector.
pub fn subvec(v: &Vec<u8>, lo: usize, hi: usize) -> (r: Vec<u8>)
    requires
        lo <= hi <= v@.len(),
    ensures
        r@ == v@.subrange(lo as int, hi as int),
{
    let mut r: Vec<u8> = Vec::new();
    let mut i: usize = lo;
    while i < hi
        invariant
            lo <= i <= hi <= v@.len(),
            r@ == v@.subrange(lo as int, i as int),
        decreases hi - i,
    {
        r.push(v[i]);
        proof {
            assert(v@.subrange(lo as int, i + 1) =~= v@.subrange(lo as int, i as int).push(
                v@[i as int],
            ));
        }
        i = i + 1;
    }
    r
}

pub fn bytes_eq(a: &Vec<u8>, b: &Vec<u8>) -> (r: bool)
    ensures
        r == (a@ == b@),
{
    if a.len() != b.len() {
        proof {
            assert(a@ != b@);
        }
        return false;
    }
    let mut i: usize = 0;
    while i < a.len()
        invariant
            i <= a@.len(),
            a@.len() == b@.len(),
            forall|j: int| 0 <= j < i ==> a@[j] == b@[j],
        decreases a@.len() - i,
    {
        if a[i] != b[i] {
            proof {
                assert(a@ != b@);
            }
            return false;
        }
        i = i + 1;
    }
    proof {
        assert(a@ =~= b@);
    }
    true
}

pub fn starts_with(v: &Vec<u8>, p: &Vec<u8>) -> (r: bool)
    ensures
        r == has_prefix(v@, p@),
{
    if v.len() < p.len() {
        return false;
    }
    let mut i: usize = 0;
    while i < p.len()
        invariant
            i <= p@.len() <= v@.len(),
            forall|j: int| 0 <= j < i ==> v@[j] == p@[j],
        decreases p@.len() - i,
    {
        if v[i] != p[i] {
            proof {
                assert(v@.take(p@.len() as int)[i as int] != p@[i as int]);
            }
            return false;
        }
        i = i + 1;
    }
    proof {
        assert(v@.take(p@.len() as int) =~= p@);
    }
    true
}

pub fn ends_with(v: &Vec<u8>, p: &Vec<u8>) -> (r: bool)
    ensures
        r == has_suffix(v@, p@),
{
    if v.len() < p.len() {
        return false;
    }
    let base: usize = v.len() - p.len();
    let mut i: usize = 0;
    while i < p.len()
        invariant
            i <= p@.len() <= v@.len(),
            v@.len() <= usize::MAX,
            base == v@.len() - p@.len(),
            forall|j: int| 0 <= j < i ==> v@[base + j] == p@[j],
        decreases p@.len() - i,
    {
        if v[base + i] != p[i] {
            proof {
                assert(v@.skip(v@.len() - p@.len())[i as int] != p@[i as int]);
            }
            return false;
        }
        i = i + 1;
    }
    proof {
        assert(v@.skip(v@.len() - p@.len()) =~= p@);
    }
    true
}

/// The sequence with every leading repetition of `p` removed.
pub open spec fn strip_prefix_rep(s: Seq<u8>, p: Seq<u8>) -> Seq<u8>
    decreases s.len(),
{
    if p.len() > 0 && has_prefix(s, p) {
        strip_prefix_rep(s.skip(p.len() as int), p)
    } else {
        s
    }
}

/// The sequence with every trailing repetition of `p` removed.
pub open spec fn strip_suffix_rep(s: Seq<u8>, p: Seq<u8>) -> Seq<u8>
    decreases s.len(),
{
    if p.len() > 0 && has_suffix(s, p) {
        strip_suffix_rep(s.take(s.len() - p.len()), p)
    } else {
        s
    }
}

/// Removes every leading repetition of `p`.
pub fn strip_prefix_all(v: &Vec<u8>, p: &Vec<u8>) -> (r: Vec<u8>)
    requires
        p@.len() > 0,
    ensures
        r@ == strip_prefix_rep(v@, p@),
{
    let mut cur = subvec(v, 0, v.len());
    proof {
        assert(v@.subrange(0, v@.len() as int) =~= v@);
    }
    while starts_with(&cur, p)
        invariant
            p@.len() > 0,
            strip_prefix_rep(v@, p@) == strip_prefix_rep(cur@, p@),
        decreases cur@.len(),
    {
        let next = subvec(&cur, p.len(), cur.len());
        proof {
            assert(next@ =~= cur@.skip(p@.len() as int));
        }
        cur = next;
    }
    cur
}

/// Removes every trailing repetition of `p`.
pub fn strip_suffix_all(v: &Vec<u8>, p: &Vec<u8>) -> (r: Vec<u8>)
    requires
        p@.len() > 0,
    ensures
        r@ == strip_suffix_rep(v@, p@),
{
    let mut cur = subvec(v, 0, v.len());
    proof {
        assert(v@.subrange(0, v@.len() as int) =~= v@);
    }
    while ends_with(&cur, p)
        invariant
            p@.len() > 0,
            strip_suffix_rep(v@, p@) == strip_suffix_rep(cur@, p@),
        decreases cur@.len(),
    {
        let next = subvec(&cur, 0, cur.len() - p.len());
        proof {
            assert(next@ =~= cur@.take(cur@.len() - p@.len()));
        }
        cur = next;
    }
    cur
}

/// Index of the first occurrence of `b` in `s`, or `s.len()` if absent.
pub open spec fn find_byte(s: Seq<u8>, b: u8) -> nat
    decreases s.len(),
{
    if s.len() == 0 {
        0
    } else if s[0] == b {
        0
    } else {
        1 + find_byte(s.drop_first(), b)
    }
}

pub proof fn lemma_find_byte(s: Seq<u8>, b: u8)
    ensures
        find_byte(s, b) <= s.len(),
        forall|j: int| 0 <= j < find_byte(s, b) ==> s[j] != b,
        find_byte(s, b) < s.len() ==> s[find_byte(s, b) as int] == b,
    decreases s.len(),
{
    if s.len() > 0 && s[0] != b {
        lemma_find_byte(s.drop_first(), b);
        assert forall|j: int| 0 <= j < find_byte(s, b) implies s[j] != b by {
            if j > 0 {
                assert(s.drop_first()[j - 1] != b);
            }
        }
    }
}

/// Position of the first occurrence of `b`, or the length if absent.
pub fn find_byte_at(v: &Vec<u8>, b: u8) -> (r: usize)
    ensures
        r == find_byte(v@, b),
{
    proof {
        assert(v@.skip(0) =~= v@);
    }
    let mut i: usize = 0;
    while i < v.len()
        invariant
            i <= v@.len(),
            find_byte(v@, b) == i + find_byte(v@.skip(i as int), b),
        decreases v@.len() - i,
    {
        if v[i] == b {
            proof {
                assert(find_byte(v@.skip(i as int), b) == 0);
            }
            return i;
        }
        proof {
            assert(v@.skip(i as int).drop_first() =~= v@.skip(i + 1));
        }
        i = i + 1;
    }
    proof {
        assert(find_byte(v@.skip(i as int), b) == 0);
    }
    i
}

/// Index of the first occurrence of `..`, or `s.len()` if absent (an
/// occurrence fits only when the result is at most `s.len() - 2`).
pub open spec fn find_dots(s: Seq<u8>) -> nat
    decreases s.len(),
{
    if s.len() < 2 {
        s.len()
    } else if s[0] == 0x2e && s[1] == 0x2e {
        0
    } else {
        1 + find_dots(s.drop_first())
    }
}

pub proof fn lemma_find_dots(s: Seq<u8>)
    ensures
        find_dots(s) <= s.len(),
    decreases s.len(),
{
    if s.len() >= 2 && !(s[0] == 0x2e && s[1] == 0x2e) {
        lemma_find_dots(s.drop_first());
    }
}

/// Position of the first `..`, or the length if absent.
pub fn find_dots_at(v: &Vec<u8>) -> (r: usize)
    ensures
        r == find_dots(v@),
        r + 2 <= v@.len() || r == v@.len(),
{
    proof {
        assert(v@.skip(0) =~= v@);
        lemma_find_dots(v@);
    }
    let n = v.len();
    let mut i: usize = 0;
    while n - i > 1
        invariant
            i <= v@.len(),
            n == v@.len(),
            find_dots(v@) == i + find_dots(v@.skip(i as int)),
        decreases v@.len() - i,
    {
        if v[i] == 0x2e && v[i + 1] == 0x2e {
            proof {
                assert(find_dots(v@.skip(i as int)) == 0);
            }
            return i;
        }
        proof {
            assert(v@.skip(i as int).drop_first() =~= v@.skip(i + 1));
        }
        i = i + 1;
    }
    proof {
        assert(v@.skip(i as int).len() < 2);
        assert(find_dots(v@.skip(i as int)) == v@.len() - i);
    }
    v.len()
}

/// Removes leading and trailing whitespace, returning a fresh vector.
pub fn trim(v: &Vec<u8>) -> (r: Vec<u8>)
    ensures
        r@ == trim_spec(v@),
{
    proof {
        assert(v@.skip(0) =~= v@);
    }
    let mut lo: usize = 0;
    while lo < v.len() && is_ws_byte(v[lo])
        invariant
            lo <= v@.len(),
            trim_start_spec(v@) == trim_start_spec(v@.skip(lo as int)),
        decreases v@.len() - lo,
    {
        proof {
            assert(v@.skip(lo as int).drop_first() =~= v@.skip(lo + 1));
        }
        lo = lo + 1;
    }
    proof {
        assert(trim_start_spec(v@.skip(lo as int)) == v@.skip(lo as int));
    }
    let ghost u = v@.skip(lo as int);
    proof {
        assert(u.take(v@.len() - lo) =~= u);
    }
    let mut hi: usize = v.len();
    while hi > lo && is_ws_byte(v[hi - 1])
        invariant
            lo <= hi <= v@.len(),
            u == v@.skip(lo as int),
            trim_end_spec(u) == trim_end_spec(u.take(hi - lo)),
        decreases hi,
    {
        proof {
            assert(u.take(hi - lo).drop_last() =~= u.take(hi - 1 - lo as int));
        }
        hi = hi - 1;
    }
    proof {
        assert(trim_end_spec(u.take(hi - lo)) == u.take(hi - lo));
        assert(v@.subrange(lo as int, hi as int) =~= u.take(hi - lo));
    }
    subvec(v, lo, hi)
}

/// The views of a sequence of byte vectors.
pub open spec fn views_of(rs: Seq<Vec<u8>>) -> Seq<Seq<u8>> {
    Seq::new(rs.len(), |k: int| rs[k]@)
}

/// Length of the maximal whitespace-free prefix.
pub open spec fn token_len(s: Seq<u8>) -> nat
    decreases s.len(),
{
    if s.len() == 0 || is_ws(s[0]) {
        0
    } else {
        1 + token_len(s.drop_first())
    }
}

pub proof fn lemma_token_len_bound(s: Seq<u8>)
    ensures
        token_len(s) <= s.len(),
    decreases s.len(),
{
    if s.len() > 0 && !is_ws(s[0]) {
        lemma_token_len_bound(s.drop_first());
    }
}

/// The maximal whitespace-free runs of `s`, in order.
pub open spec fn tokens_spec(s: Seq<u8>) -> Seq<Seq<u8>>
    decreases s.len(),
    via tokens_spec_dec
{
    if s.len() == 0 {
        Seq::empty()
    } else if is_ws(s[0]) {
        tokens_spec(s.drop_first())
    } else {
        seq![s.take(token_len(s) as int)] + tokens_spec(s.skip(token_len(s) as int))
    }
}

#[via_fn]
proof fn tokens_spec_dec(s: Seq<u8>) {
    lemma_token_len_bound(s);
}

/// Splits on runs of whitespace, returning the tokens in order.
pub fn split_ws(v: &Vec<u8>) -> (r: Vec<Vec<u8>>)
    ensures
        views_of(r@) == tokens_spec(v@),
{
    proof {
        assert(v@.skip(0) =~= v@);
    }
    let n = v.len();
    let mut r: Vec<Vec<u8>> = Vec::new();
    let mut i: usize = 0;
    proof {
        assert(views_of(r@) =~= Seq::<Seq<u8>>::empty());
        assert(views_of(r@) + tokens_spec(v@) =~= tokens_spec(v@));
    }
    while i < n
        invariant
            i <= n == v@.len(),
            views_of(r@) + tokens_spec(v@.skip(i as int)) == tokens_spec(v@),
        decreases v@.len() - i,
    {
        if is_ws_byte(v[i]) {
            proof {
                assert(v@.skip(i as int).drop_first() =~= v@.skip(i + 1));
            }
            i = i + 1;
        } else {
            let ghost rest = v@.skip(i as int);
            let mut j: usize = i;
            while j < n && !is_ws_byte(v[j])
                invariant
                    i <= j <= n == v@.len(),
                    rest == v@.skip(i as int),
                    token_len(rest) == (j - i) + token_len(v@.skip(j as int)),
                decreases v@.len() - j,
            {
                proof {
                    assert(v@.skip(j as int).drop_first() =~= v@.skip(j + 1));
                }
                j = j + 1;
            }
            proof {
                assert(token_len(v@.skip(j as int)) == 0);
                assert(token_len(rest) == j - i);
            }
            let tok = subvec(v, i, j);
            proof {
                lemma_token_len_bound(rest);
                assert(rest.take(token_len(rest) as int) =~= v@.subrange(i as int, j as int));
                assert(rest.skip(token_len(rest) as int) =~= v@.skip(j as int));
                assert(tokens_spec(rest) == seq![tok@] + tokens_spec(v@.skip(j as int)));
                assert(views_of(r@.push(tok)) =~= views_of(r@) + seq![tok@]);
                assert((views_of(r@) + seq![tok@]) + tokens_spec(v@.skip(j as int)) =~= views_of(
                    r@,
                ) + (seq![tok@] + tokens_spec(v@.skip(j as int))));
            }
            r.push(tok);
            i = j;
        }
    }
    proof {
        assert(tokens_spec(v@.skip(i as int)) =~= Seq::<Seq<u8>>::empty());
        assert(views_of(r@) + Seq::<Seq<u8>>::empty() =~= views_of(r@));
    }
    r
}

/// Removes one trailing carriage return, as a line split keeps none.
pub open spec fn strip_cr(l: Seq<u8>) -> Seq<u8> {
    if l.len() > 0 && l[l.len() - 1] == 0x0d {
        l.drop_last()
    } else {
        l
    }
}

/// The lines of `s`: segments split at newlines, each with a trailing
/// carriage return removed; a final segment without a newline is kept as it
/// stands, and a trailing newline opens no empty final line.
pub open spec fn split_lines(s: Seq<u8>) -> Seq<Seq<u8>>
    decreases s.len(),
    via split_lines_dec
{
    if s.len() == 0 {
        Seq::empty()
    } else {
        let n = find_byte(s, 0x0a);
        if n < s.len() {
            seq![strip_cr(s.take(n as int))] + split_lines(s.skip(n as int + 1))
        } else {
            seq![s]
        }
    }
}

#[via_fn]
proof fn split_lines_dec(s: Seq<u8>) {
    lemma_find_byte(s, 0x0a);
}

/// Splits into lines as [`split_lines`] describes.
pub fn split_to_lines(v: &Vec<u8>) -> (r: Vec<Vec<u8>>)
    ensures
        views_of(r@) == split_lines(v@),
{
    proof {
        assert(v@.skip(0) =~= v@);
    }
    let n = v.len();
    let mut r: Vec<Vec<u8>> = Vec::new();
    let mut pos: usize = 0;
    proof {
        assert(views_of(r@) + split_lines(v@) =~= split_lines(v@));
    }
    while pos < n
        invariant
            pos <= n == v@.len(),
            views_of(r@) + split_lines(v@.skip(pos as int)) == split_lines(v@),
        decreases v@.len() - pos,
    {
        let ghost rest = v@.skip(pos as int);
        let mut j: usize = pos;
        while j < n && v[j] != 0x0a
            invariant
                pos <= j <= n == v@.len(),
                rest == v@.skip(pos as int),
                find_byte(rest, 0x0a) == (j - pos) + find_byte(v@.skip(j as int), 0x0a),
            decreases v@.len() - j,
        {
            proof {
                assert(v@.skip(j as int).drop_first() =~= v@.skip(j + 1));
            }
            j = j + 1;
        }
        let mut line = subvec(v, pos, j);
        proof {
            assert(find_byte(v@.skip(j as int), 0x0a) == 0);
            assert(find_byte(rest, 0x0a) == j - pos);
            assert(rest.take((j - pos) as int) =~= v@.subrange(pos as int, j as int));
        }
        if j < n {
            // the segment ends at a newline: drop a trailing carriage return
            if line.len() > 0 && line[line.len() - 1] == 0x0d {
                let shorter = subvec(&line, 0, line.len() - 1);
                proof {
                    assert(shorter@ =~= line@.drop_last());
                }
                line = shorter;
            }
            proof {
                assert(line@ == strip_cr(rest.take((j - pos) as int)));
                assert(rest.skip((j - pos) + 1) =~= v@.skip(j + 1));
                assert(split_lines(rest) == seq![line@] + split_lines(v@.skip(j + 1)));
                assert(views_of(r@.push(line)) =~= views_of(r@) + seq![line@]);
                assert((views_of(r@) + seq![line@]) + split_lines(v@.skip(j + 1)) =~= views_of(r@)
                    + (seq![line@] + split_lines(v@.skip(j + 1))));
            }
            r.push(line);
            pos = j + 1;
        } else {
            proof {
                assert(rest.take((j - pos) as int) =~= rest);
                assert(split_lines(rest) == seq![rest]);
                assert(v@.skip(j as int).len() == 0);
                assert(split_lines(v@.skip(j as int)) =~= Seq::<Seq<u8>>::empty());
                assert(views_of(r@.push(line)) =~= views_of(r@) + seq![line@]);
                assert((views_of(r@) + seq![line@]) + Seq::<Seq<u8>>::empty() =~= views_of(r@)
                    + seq![line@]);
            }
            r.push(line);
            pos = j;
        }
    }
    proof {
        assert(split_lines(v@.skip(pos as int)) =~= Seq::<Seq<u8>>::empty());
        assert(views_of(r@) + Seq::<Seq<u8>>::empty() =~= views_of(r@));
    }
    r
}

pub open spec fn is_hex_digit(b: u8) -> bool {
    (0x30 <= b <= 0x39) || (0x41 <= b <= 0x46) || (0x61 <= b <= 0x66)
}

pub open spec fn hex_digit_val(b: u8) -> int {
    if 0x30 <= b <= 0x39 {
        b - 0x30
    } else if 0x41 <= b <= 0x46 {
        b - 0x41 + 10
    } else {
        b - 0x61 + 10
    }
}

/// The number the digits denote, most significant first.
pub open spec fn hex_value(s: Seq<u8>) -> int
    decreases s.len(),
{
    if s.len() == 0 {
        0
    } else {
        hex_value(s.drop_last()) * 16 + hex_digit_val(s.last())
    }
}

pub open spec fn all_hex(s: Seq<u8>) -> bool {
    forall|j: int| 0 <= j < s.len() ==> is_hex_digit(#[trigger] s[j])
}

/// The digit segment of a token: everything after an optional plus sign.
pub open spec fn hex_digits_of(tok: Seq<u8>) -> Seq<u8> {
    if tok.len() > 0 && tok[0] == 0x2b {
        tok.drop_first()
    } else {
        tok
    }
}

/// The number a token denotes: an optional plus sign, then hex digits,
/// rejected when empty, non-digit, or over the `u32` range.
pub open spec fn parse_hex_spec(tok: Seq<u8>) -> Option<u32> {
    let d = hex_digits_of(tok);
    if d.len() == 0 || !all_hex(d) || hex_value(d) > u32::MAX {
        None
    } else {
        Some(hex_value(d) as u32)
    }
}

proof fn lemma_hex_extend(d: Seq<u8>, i: int)
    requires
        0 <= i <= d.len(),
        hex_value(d.take(i)) >= 0,
        forall|j: int| i <= j < d.len() ==> is_hex_digit(#[trigger] d[j]),
    ensures
        hex_value(d) >= hex_value(d.take(i)),
    decreases d.len() - i,
{
    if i < d.len() {
        assert(d.take(i + 1).drop_last() =~= d.take(i));
        assert(hex_value(d.take(i + 1)) == hex_value(d.take(i)) * 16 + hex_digit_val(d[i]));
        assert(hex_digit_val(d[i]) >= 0);
        assert(hex_value(d.take(i)) * 16 >= hex_value(d.take(i))) by (nonlinear_arith)
            requires
                hex_value(d.take(i)) >= 0,
        ;
        lemma_hex_extend(d, i + 1);
    } else {
        assert(d.take(i) =~= d);
    }
}

fn is_hex_digit_byte(b: u8) -> (r: bool)
    ensures
        r == is_hex_digit(b),
{
    (0x30 <= b && b <= 0x39) || (0x41 <= b && b <= 0x46) || (0x61 <= b && b <= 0x66)
}

/// Parses a hexadecimal token as [`parse_hex_spec`] describes.
pub fn parse_hex(tok: &Vec<u8>) -> (r: Option<u32>)
    ensures
        r == parse_hex_spec(tok@),
{
    let n = tok.len();
    let start: usize = if n > 0 && tok[0] == 0x2b {
        1
    } else {
        0
    };
    let ghost d = hex_digits_of(tok@);
    proof {
        assert(d =~= tok@.skip(start as int));
    }
    if start == n {
        return None;
    }
    let mut acc: u64 = 0;
    let mut i: usize = start;
    proof {
        assert(d.take(0) =~= Seq::<u8>::empty());
    }
    while i < n
        invariant
            start <= i <= n == tok@.len(),
            d == tok@.skip(start as int),
            d == hex_digits_of(tok@),
            forall|j: int| start <= j < i ==> is_hex_digit(#[trigger] tok@[j]),
            acc == hex_value(d.take(i - start)),
            acc <= u32::MAX,
        decreases n - i,
    {
        let b = tok[i];
        if !is_hex_digit_byte(b) {
            proof {
                assert(d[i - start] == tok@[i as int]);
                assert(!is_hex_digit(d[i - start]));
                assert(!all_hex(d));
                assert(parse_hex_spec(tok@) is None);
            }
            return None;
        }
        let dv: u64 = if b <= 0x39 {
            (b - 0x30) as u64
        } else if b <= 0x46 {
            (b - 0x41 + 10) as u64
        } else {
            (b - 0x61 + 10) as u64
        };
        proof {
            assert(dv == hex_digit_val(b));
            assert(d.take(i - start + 1).drop_last() =~= d.take(i - start));
            assert(d.take(i - start + 1).last() == tok@[i as int]);
        }
        acc = acc * 16 + dv;
        i = i + 1;
        if acc > 0xffff_ffff {
            proof {
                if all_hex(d) {
                    assert forall|j: int| i - start <= j < d.len() implies is_hex_digit(
                        #[trigger] d[j],
                    ) by {}
                    lemma_hex_extend(d, i - start);
                    assert(hex_value(d) > u32::MAX);
                }
                assert(parse_hex_spec(tok@) is None);
            }
            return None;
        }
    }
    proof {
        assert(d.take(i - start) =~= d);
        assert forall|j: int| 0 <= j < d.len() implies is_hex_digit(#[trigger] d[j]) by {
            assert(d[j] == tok@[start + j]);
        }
        assert(all_hex(d));
    }
    Some(acc as u32)
}

/// A Unicode scalar value: in range and not a surrogate.
pub open spec fn is_scalar_value(u: u32) -> bool {
    u < 0xd800 || (0xe000 <= u && u <= 0x10ffff)
}

/// Relies on `char::from_u32`: `Some` exactly for arguments in the Unicode
/// scalar range (at most 0x10FFFF and not a surrogate), and the returned
/// character has the argument as its code.
#[verifier::external_body]
pub fn char_from_u32(u: u32) -> (r: Option<char>)
    ensures
        r is Some <==> is_scalar_value(u),
        r matches Some(c) ==> c as u32 == u,
{
    char::from_u32(u)
}

} // verus!
