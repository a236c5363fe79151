//! The table builder: parses the property data file into the set of
//! modifier-base code points, then classifies every fully-qualified
//! sequence of the test data file into the group table.

use crate::classify::Class;
use crate::classify::ClassOut;
use crate::classify::SubMarkers;
use crate::classify::ascii_seq;
use crate::classify::char_set;
use crate::classify::classify;
use crate::classify::classify_seq;
use crate::classify::lit_bytes;
use crate::keys::GKey;
use crate::scan::find_byte;
use crate::scan::find_byte_at;
use crate::scan::find_dots;
use crate::scan::find_dots_at;
use crate::scan::has_prefix;
use crate::scan::has_suffix;
use crate::scan::is_scalar_value;
use crate::scan::char_from_u32;
use crate::scan::parse_hex;
use crate::scan::parse_hex_spec;
use crate::scan::split_lines;
use crate::scan::split_to_lines;
use crate::scan::split_ws;
use crate::scan::strip_prefix_all;
use crate::scan::strip_prefix_rep;
use crate::scan::strip_suffix_all;
use crate::scan::strip_suffix_rep;
use crate::scan::subvec;
use crate::scan::tokens_spec;
use crate::scan::trim;
use crate::scan::trim_spec;
use crate::scan::views_of;
use crate::scan::starts_with;
use crate::scan::ends_with;
use crate::table::GroupTable;
use crate::table::table_insert;
use vstd::prelude::*;

verus! {

/// Why the builder rejects its input data.
#[derive(Debug, Clone, Copy, PartialEq, Eq)]
pub enum DataError {
    /// A code-point token is not a hexadecimal number in `u32` range.
    BadNumber,
    /// A numeric token is outside the Unicode scalar range.
    BadScalar,
    /// A line carries the qualification marker but no code points.
    EmptySequence,
    /// A family-subgroup sequence of a shape the classifier does not know.
    UnfamiliarFamily,
}

pub open spec fn header_marker() -> Seq<u8> {
    ascii_seq("# subgroup: "@)
}

pub open spec fn fq_marker() -> Seq<u8> {
    ascii_seq("; fully-qualified"@)
}

pub open spec fn mb_marker() -> Seq<u8> {
    ascii_seq("; Emoji_Modifier_Base"@)
}

/// A line that announces the subgroup in force for the lines below it.
pub open spec fn is_header_line(l: Seq<u8>) -> bool {
    has_prefix(l, header_marker())
}

pub open spec fn header_value(l: Seq<u8>) -> Seq<u8> {
    strip_prefix_rep(l, header_marker())
}

/// The subgroup in force after all of `lines`: the value of the last
/// header line, or empty before any header.
pub open spec fn subgroup_after(lines: Seq<Seq<u8>>) -> Seq<u8>
    decreases lines.len(),
{
    if lines.len() == 0 {
        Seq::empty()
    } else if is_header_line(lines.last()) {
        header_value(lines.last())
    } else {
        subgroup_after(lines.drop_last())
    }
}

/// The subgroup in force at line `i`: set by the headers strictly above.
pub open spec fn subgroup_at(lines: Seq<Seq<u8>>, i: int) -> Seq<u8> {
    subgroup_after(lines.take(i))
}

/// The line up to its first comment sign, trimmed.
pub open spec fn data_part(l: Seq<u8>) -> Seq<u8> {
    trim_spec(l.take(find_byte(l, 0x23) as int))
}

/// A data line: marked fully-qualified, with content before the comment.
pub open spec fn is_fq_line(l: Seq<u8>) -> bool {
    data_part(l).len() > 0 && has_suffix(data_part(l), fq_marker())
}

/// The code-point tokens of a data line, as one byte sequence.
pub open spec fn fq_payload(l: Seq<u8>) -> Seq<u8> {
    trim_spec(strip_suffix_rep(data_part(l), fq_marker()))
}

/// One code-point token: a hexadecimal scalar value.
pub open spec fn parse_cp(tok: Seq<u8>) -> Result<char, DataError> {
    match parse_hex_spec(tok) {
        Option::None => Result::Err(DataError::BadNumber),
        Option::Some(u) => if is_scalar_value(u) {
            Result::Ok(u as char)
        } else {
            Result::Err(DataError::BadScalar)
        },
    }
}

/// All tokens of a line, left to right; the first failure wins.
pub open spec fn parse_tokens(toks: Seq<Seq<u8>>) -> Result<Seq<char>, DataError>
    decreases toks.len(),
{
    if toks.len() == 0 {
        Result::Ok(Seq::empty())
    } else {
        match parse_cp(toks[0]) {
            Result::Err(e) => Result::Err(e),
            Result::Ok(c) => match parse_tokens(toks.drop_first()) {
                Result::Err(e) => Result::Err(e),
                Result::Ok(rest) => Result::Ok(seq![c] + rest),
            },
        }
    }
}

/// What one line of the test data file contributes.
pub enum LineView {
    /// No sequence: blank, header, comment, not fully qualified, or one
    /// of the excluded sequences.
    Skip,
    /// The sequence joins the group with this key.
    Entry(GKey, Seq<char>),
    /// The build fails on this line.
    Fault(DataError),
}

/// What a line contributes, given the subgroup in force and the
/// modifier-base set.
pub open spec fn line_view(sub: Seq<u8>, mb: Set<char>, l: Seq<u8>) -> LineView {
    if !is_fq_line(l) {
        LineView::Skip
    } else {
        match parse_tokens(tokens_spec(fq_payload(l))) {
            Result::Err(e) => LineView::Fault(e),
            Result::Ok(s) => if s.len() == 0 {
                LineView::Fault(DataError::EmptySequence)
            } else {
                match classify(sub, mb, s) {
                    Class::Drop => LineView::Skip,
                    Class::Grouped(k) => LineView::Entry(k, s),
                    Class::Unfamiliar => LineView::Fault(DataError::UnfamiliarFamily),
                }
            },
        }
    }
}

/// What line `i` of the test data contributes.
pub open spec fn entry_at(lines: Seq<Seq<u8>>, mb: Set<char>, i: int) -> LineView {
    line_view(subgroup_at(lines, i), mb, lines[i])
}

/// Some line of the test data contributes sequence `s` under key `k`.
pub open spec fn is_entry(lines: Seq<Seq<u8>>, mb: Set<char>, k: GKey, s: Seq<char>) -> bool {
    exists|i: int| 0 <= i < lines.len() && entry_at(lines, mb, i) == LineView::Entry(k, s)
}

pub open spec fn fault_of(v: LineView) -> Option<DataError> {
    match v {
        LineView::Fault(e) => Option::Some(e),
        _ => Option::None,
    }
}

/// The fault line `i` of the test data raises, if any.
pub open spec fn fault_at(lines: Seq<Seq<u8>>, mb: Set<char>, i: int) -> Option<DataError> {
    fault_of(entry_at(lines, mb, i))
}

/// A property line announcing the Emoji_Modifier_Base property.
pub open spec fn is_mb_line(l: Seq<u8>) -> bool {
    data_part(l).len() > 0 && has_suffix(data_part(l), mb_marker())
}

pub open spec fn mb_payload(l: Seq<u8>) -> Seq<u8> {
    trim_spec(strip_suffix_rep(data_part(l), mb_marker()))
}

/// The inclusive code-point range a property line contributes: a single
/// point, a `lo..hi` range, nothing, or a parse fault.
pub open spec fn mb_entry(l: Seq<u8>) -> Result<Option<(u32, u32)>, DataError> {
    if !is_mb_line(l) {
        Result::Ok(Option::None)
    } else {
        let d = mb_payload(l);
        if find_dots(d) + 2 <= d.len() {
            match parse_cp(d.take(find_dots(d) as int)) {
                Result::Err(e) => Result::Err(e),
                Result::Ok(lo) => match parse_cp(d.skip(find_dots(d) as int + 2)) {
                    Result::Err(e) => Result::Err(e),
                    Result::Ok(hi) => Result::Ok(Option::Some((lo as u32, hi as u32))),
                },
            }
        } else {
            match parse_cp(d) {
                Result::Err(e) => Result::Err(e),
                Result::Ok(c) => Result::Ok(Option::Some((c as u32, c as u32))),
            }
        }
    }
}

pub open spec fn mb_range_at(lines: Seq<Seq<u8>>, i: int) -> Option<(u32, u32)> {
    match mb_entry(lines[i]) {
        Result::Ok(r) => r,
        Result::Err(_) => Option::None,
    }
}

pub open spec fn mb_fault_at(lines: Seq<Seq<u8>>, i: int) -> Option<DataError> {
    match mb_entry(lines[i]) {
        Result::Err(e) => Option::Some(e),
        Result::Ok(_) => Option::None,
    }
}

pub open spec fn in_mb_range(r: Option<(u32, u32)>, c: char) -> bool {
    match r {
        Option::Some((lo, hi)) => lo <= c as u32 && c as u32 <= hi,
        Option::None => false,
    }
}

/// Some property line among the first `n` covers code point `c`.
pub open spec fn mb_upto(lines: Seq<Seq<u8>>, n: int, c: char) -> bool {
    exists|i: int| 0 <= i < n && in_mb_range(#[trigger] mb_range_at(lines, i), c)
}

/// The modifier-base set the property data defines: every code point a
/// property line covers, plus the two person-with-headwear glyphs absent
/// from some data revisions.
pub open spec fn mb_set(lines: Seq<Seq<u8>>) -> Set<char> {
    Set::new(
        |c: char| c == '\u{1f9de}' || c == '\u{1f9df}' || mb_upto(lines, lines.len() as int, c),
    )
}

proof fn lemma_push_contains(s: Seq<char>, x: char)
    ensures
        forall|c: char| #[trigger] s.push(x).contains(c) <==> (s.contains(c) || c == x),
{
    assert forall|c: char| #[trigger] s.push(x).contains(c) <==> (s.contains(c) || c == x) by {
        if s.push(x).contains(c) {
            let j = choose|j: int| 0 <= j < s.push(x).len() && s.push(x)[j] == c;
            if j < s.len() {
                assert(s[j] == c);
                assert(s.contains(c));
            } else {
                assert(c == x);
            }
        }
        if c == x {
            assert(s.push(x)[s.len() as int] == c);
        }
        if s.contains(c) {
            let j = choose|j: int| 0 <= j < s.len() && s[j] == c;
            assert(s.push(x)[j] == c);
        }
    }
}

/// Parses one code-point token as [`parse_cp`] describes.
pub fn parse_char(tok: &Vec<u8>) -> (r: Result<char, DataError>)
    ensures
        r == parse_cp(tok@),
{
    match parse_hex(tok) {
        Option::None => Result::Err(DataError::BadNumber),
        Option::Some(u) => match char_from_u32(u) {
            Option::None => Result::Err(DataError::BadScalar),
            Option::Some(c) => {
                proof {
                    vstd::utf8::char_u32_cast(c, u);
                }
                Result::Ok(c)
            },
        },
    }
}

/// Parses every token of a line as [`parse_tokens`] describes.
fn parse_seq_tokens(toks: &Vec<Vec<u8>>) -> (r: Result<Vec<char>, DataError>)
    ensures
        r matches Ok(v) ==> parse_tokens(views_of(toks@)) == Result::<Seq<char>, DataError>::Ok(
            v@,
        ),
        r matches Err(e) ==> parse_tokens(views_of(toks@)) == Result::<Seq<char>, DataError>::Err(
            e,
        ),
{
    let ghost tv = views_of(toks@);
    proof {
        assert(tv.skip(0) =~= tv);
    }
    let n = toks.len();
    let mut acc: Vec<char> = Vec::new();
    let mut i: usize = 0;
    proof {
        assert(acc@ + Seq::<char>::empty() =~= acc@);
    }
    while i < n
        invariant
            i <= n == toks@.len(),
            tv == views_of(toks@),
            parse_tokens(tv) == (match parse_tokens(tv.skip(i as int)) {
                Result::<Seq<char>, DataError>::Ok(rest) => Result::<Seq<char>, DataError>::Ok(
                    acc@ + rest,
                ),
                Result::<Seq<char>, DataError>::Err(e) => Result::<Seq<char>, DataError>::Err(e),
            }),
        decreases n - i,
    {
        let ghost rest = tv.skip(i as int);
        proof {
            assert(rest[0] == tv[i as int]);
            assert(tv[i as int] == toks@[i as int]@);
            assert(rest.drop_first() =~= tv.skip(i as int + 1));
        }
        match parse_char(&toks[i]) {
            Result::Err(e) => {
                proof {
                    assert(parse_tokens(rest) == Result::<Seq<char>, DataError>::Err(e));
                }
                return Result::Err(e);
            },
            Result::Ok(c) => {
                proof {
                    assert(parse_cp(rest[0]) == Result::<char, DataError>::Ok(c));
                    assert forall|r2: Seq<char>|
                        parse_tokens(tv.skip(i as int + 1)) == Result::<Seq<char>, DataError>::Ok(
                            r2,
                        ) implies acc@ + (seq![c] + r2) =~= acc@.push(c) + r2 by {}
                }
                acc.push(c);
            },
        }
        i = i + 1;
    }
    proof {
        assert(tv.skip(i as int).len() == 0);
        assert(parse_tokens(tv.skip(i as int)) == Result::<Seq<char>, DataError>::Ok(
            Seq::<char>::empty(),
        ));
        assert(acc@ + Seq::<char>::empty() =~= acc@);
    }
    Result::Ok(acc)
}

proof fn lemma_first_mb_fault(pl: Seq<Seq<u8>>, k: int, e: DataError)
    requires
        0 <= k < pl.len(),
        mb_fault_at(pl, k) == Option::Some(e),
        forall|j: int| 0 <= j < k ==> mb_fault_at(pl, j) is None,
    ensures
        exists|i: int|
            0 <= i < pl.len() && #[trigger] mb_fault_at(pl, i) == Option::Some(e) && (forall|
                j: int,
            |
                0 <= j < i ==> mb_fault_at(pl, j) is None),
{
    assert(0 <= k < pl.len() && mb_fault_at(pl, k) == Option::Some(e) && (forall|j: int|
        0 <= j < k ==> mb_fault_at(pl, j) is None));
}

/// Parses one property line as [`mb_entry`] describes.
fn mb_line_exec(l: &Vec<u8>, marker: &Vec<u8>) -> (r: Result<Option<(u32, u32)>, DataError>)
    requires
        marker@ == mb_marker(),
        marker@.len() > 0,
    ensures
        r == mb_entry(l@),
        r matches Ok(p) ==> (p matches Some(b) ==> b.1 <= 0x10ffff),
{
    let cut = find_byte_at(l, 0x23);
    proof {
        crate::scan::lemma_find_byte(l@, 0x23);
    }
    let head = subvec(l, 0, cut);
    let dp = trim(&head);
    proof {
        assert(dp@ == data_part(l@));
    }
    if dp.len() > 0 && ends_with(&dp, marker) {
        let stripped = strip_suffix_all(&dp, marker);
        let d = trim(&stripped);
        proof {
            assert(d@ == mb_payload(l@));
            crate::scan::lemma_find_dots(d@);
        }
        let p = find_dots_at(&d);
        if p < d.len() {
            let left = subvec(&d, 0, p);
            let right = subvec(&d, p + 2, d.len());
            proof {
                assert(left@ == d@.take(find_dots(d@) as int));
                assert(right@ =~= d@.skip(find_dots(d@) as int + 2));
            }
            let lo_c = match parse_char(&left) {
                Result::Err(e) => {
                    return Result::Err(e);
                },
                Result::Ok(c) => c,
            };
            let hi_c = match parse_char(&right) {
                Result::Err(e) => {
                    return Result::Err(e);
                },
                Result::Ok(c) => c,
            };
            proof {
                vstd::utf8::char_is_scalar(hi_c);
            }
            Result::Ok(Option::Some((lo_c as u32, hi_c as u32)))
        } else {
            let c = match parse_char(&d) {
                Result::Err(e) => {
                    return Result::Err(e);
                },
                Result::Ok(c) => c,
            };
            proof {
                vstd::utf8::char_is_scalar(c);
            }
            Result::Ok(Option::Some((c as u32, c as u32)))
        }
    } else {
        Result::Ok(Option::None)
    }
}

/// Parses the property data into the modifier-base code points.
///
/// On success the vector holds exactly the code points of [`mb_set`]; on
/// failure the error is the fault of the first offending line.
pub fn emoji_modifier_bases(property_data: &Vec<u8>) -> (r: Result<Vec<char>, DataError>)
    ensures
        ({
            let pl = split_lines(property_data@);
            &&& (r matches Ok(v) ==> ((forall|c: char|
                v@.contains(c) <==> mb_set(pl).contains(c)) && (forall|i: int|
                0 <= i < pl.len() ==> mb_fault_at(pl, i) is None)))
            &&& (r matches Err(e) ==> exists|i: int|
                0 <= i < pl.len() && #[trigger] mb_fault_at(pl, i) == Option::Some(e) && (forall|
                    j: int,
                |
                    0 <= j < i ==> mb_fault_at(pl, j) is None))
        }),
{
    let lines = split_to_lines(property_data);
    let ghost pl = split_lines(property_data@);
    proof {
        reveal_strlit("; Emoji_Modifier_Base");
    }
    let marker = lit_bytes("; Emoji_Modifier_Base");
    let mut v: Vec<char> = Vec::new();
    v.push('\u{1f9de}');
    v.push('\u{1f9df}');
    proof {
        lemma_push_contains(Seq::<char>::empty(), '\u{1f9de}');
        lemma_push_contains(Seq::<char>::empty().push('\u{1f9de}'), '\u{1f9df}');
    }
    let n = lines.len();
    let mut k: usize = 0;
    while k < n
        invariant
            k <= n == lines@.len(),
            views_of(lines@) == pl,
            pl == split_lines(property_data@),
            pl.len() == lines@.len(),
            marker@ == mb_marker(),
            marker@.len() > 0,
            forall|c: char|
                v@.contains(c) <==> (c == '\u{1f9de}' || c == '\u{1f9df}' || mb_upto(
                    pl,
                    k as int,
                    c,
                )),
            forall|j: int| 0 <= j < k ==> mb_fault_at(pl, j) is None,
        decreases n - k,
    {
        let l = &lines[k];
        proof {
            assert(l@ == pl[k as int]);
        }
        let entry = mb_line_exec(l, &marker);
        let mut lo: u32 = 0;
        let mut hi: u32 = 0;
        let mut have_range = false;
        match entry {
            Result::Err(e) => {
                proof {
                    assert(mb_fault_at(pl, k as int) == Option::Some(e));
                    lemma_first_mb_fault(pl, k as int, e);
                }
                return Result::Err(e);
            },
            Result::Ok(Option::None) => {},
            Result::Ok(Option::Some(b)) => {
                lo = b.0;
                hi = b.1;
                have_range = true;
            },
        }
        proof {
            if have_range {
                assert(mb_range_at(pl, k as int) == Option::Some((lo, hi)));
            } else {
                assert(mb_range_at(pl, k as int) == Option::<(u32, u32)>::None);
            }
            assert(mb_fault_at(pl, k as int) is None);
        }
        if have_range {
            let ghost base = v@;
            let mut u: u32 = lo;
            while u <= hi
                invariant
                    lo <= u,
                    u == lo || u <= hi + 1,
                    hi <= 0x10ffff,
                    forall|c: char|
                        #[trigger] v@.contains(c) <==> (base.contains(c) || (lo <= c as u32 && (
                        c as u32) < u)),
                decreases hi + 1 - u,
            {
                match char_from_u32(u) {
                    Option::Some(c_new) => {
                        let ghost prev = v@;
                        v.push(c_new);
                        proof {
                            lemma_push_contains(prev, c_new);
                            assert forall|c: char|
                                #[trigger] v@.contains(c) <==> (base.contains(c) || (lo
                                <= c as u32 && (c as u32) < u + 1)) by {
                                assert(v@.contains(c) <==> (prev.contains(c) || c == c_new));
                                assert(prev.contains(c) <==> (base.contains(c) || (lo <= c as u32
                                    && (c as u32) < u)));
                                if c as u32 == u {
                                    vstd::utf8::char_u32_cast(c, c as u32);
                                    assert((u as char) == c);
                                    vstd::utf8::char_u32_cast(c_new, u);
                                    assert((u as char) == c_new);
                                    assert(c == c_new);
                                }
                                if c == c_new {
                                    assert(c as u32 == u);
                                }
                            }
                        }
                    },
                    Option::None => {
                        proof {
                            assert(!is_scalar_value(u));
                            assert forall|c: char|
                                #[trigger] v@.contains(c) <==> (base.contains(c) || (lo
                                <= c as u32 && (c as u32) < u + 1)) by {
                                vstd::utf8::char_is_scalar(c);
                                assert(vstd::utf8::is_scalar(c as u32));
                                assert((c as u32) != u);
                            }
                        }
                    },
                }
                u = u + 1;
            }
            proof {
                assert forall|c: char|
                    v@.contains(c) <==> (c == '\u{1f9de}' || c == '\u{1f9df}' || mb_upto(
                        pl,
                        k as int + 1,
                        c,
                    )) by {
                    if in_mb_range(mb_range_at(pl, k as int), c) {
                        assert(mb_upto(pl, k as int + 1, c));
                    }
                    if mb_upto(pl, k as int + 1, c) && !mb_upto(pl, k as int, c) {
                        let i = choose|i: int|
                            0 <= i < k as int + 1 && in_mb_range(
                                #[trigger] mb_range_at(pl, i),
                                c,
                            );
                        assert(i == k as int);
                    }
                    if mb_upto(pl, k as int, c) {
                        assert(mb_upto(pl, k as int + 1, c));
                    }
                }
            }
        } else {
            proof {
                assert forall|c: char| mb_upto(pl, k as int + 1, c) implies mb_upto(
                    pl,
                    k as int,
                    c,
                ) by {
                    let i = choose|i: int|
                        0 <= i < k as int + 1 && in_mb_range(#[trigger] mb_range_at(pl, i), c);
                    assert(i < k as int);
                }
                assert forall|c: char| mb_upto(pl, k as int, c) implies mb_upto(
                    pl,
                    k as int + 1,
                    c,
                ) by {}
            }
        }
        k = k + 1;
    }
    proof {
        assert forall|c: char| v@.contains(c) <==> mb_set(pl).contains(c) by {}
    }
    Result::Ok(v)
}

/// What the builder establishes of its table: well-formed, and holding a
/// pair exactly when some line of the test data contributes it.
pub open spec fn built_from(t: GroupTable, tl: Seq<Seq<u8>>, mb: Set<char>) -> bool {
    &&& t.wf()
    &&& forall|k: GKey, s: Seq<char>| t.contains_entry(k, s) <==> is_entry(tl, mb, k, s)
}

/// A header line holds no sequence: its data part is empty.
proof fn lemma_header_not_data(l: Seq<u8>)
    requires
        is_header_line(l),
    ensures
        !is_fq_line(l),
{
    reveal_strlit("# subgroup: ");
    assert(header_marker().len() == 12);
    assert(l.take(12)[0] == l[0]);
    assert(header_marker()[0] == 35);
    assert(l[0] == 35);
    assert(find_byte(l, 0x23) == 0);
    assert(l.take(0) =~= Seq::<u8>::empty());
    assert(data_part(l).len() == 0);
}

proof fn lemma_first_fault(tl: Seq<Seq<u8>>, mb: Set<char>, k: int, e: DataError)
    requires
        0 <= k < tl.len(),
        fault_at(tl, mb, k) == Option::Some(e),
        forall|j: int| 0 <= j < k ==> fault_at(tl, mb, j) is None,
    ensures
        exists|i: int|
            0 <= i < tl.len() && #[trigger] fault_at(tl, mb, i) == Option::Some(e) && (forall|
                j: int,
            |
                0 <= j < i ==> fault_at(tl, mb, j) is None),
{
    assert(0 <= k < tl.len() && fault_at(tl, mb, k) == Option::Some(e) && (forall|j: int|
        0 <= j < k ==> fault_at(tl, mb, j) is None));
}

/// Extracts and parses the sequence of a data line: `None` when the line
/// is no data line, otherwise the parsed code points or the parse fault.
fn fq_line_exec(l: &Vec<u8>, fq: &Vec<u8>) -> (r: Option<Result<Vec<char>, DataError>>)
    requires
        fq@ == fq_marker(),
        fq@.len() > 0,
    ensures
        r is None <==> !is_fq_line(l@),
        r matches Some(p) ==> (p matches Ok(v) ==> parse_tokens(tokens_spec(fq_payload(l@)))
            == Result::<Seq<char>, DataError>::Ok(v@)),
        r matches Some(p) ==> (p matches Err(e) ==> parse_tokens(tokens_spec(fq_payload(l@)))
            == Result::<Seq<char>, DataError>::Err(e)),
{
    let cut = find_byte_at(l, 0x23);
    proof {
        crate::scan::lemma_find_byte(l@, 0x23);
    }
    let head = subvec(l, 0, cut);
    let dp = trim(&head);
    proof {
        assert(dp@ == data_part(l@));
    }
    if dp.len() > 0 && ends_with(&dp, fq) {
        let stripped = strip_suffix_all(&dp, fq);
        let pay = trim(&stripped);
        proof {
            assert(pay@ == fq_payload(l@));
        }
        let toks = split_ws(&pay);
        match parse_seq_tokens(&toks) {
            Result::Ok(v) => Option::Some(Result::Ok(v)),
            Result::Err(e) => Option::Some(Result::Err(e)),
        }
    } else {
        Option::None
    }
}

/// Builds the group table from the two data files.
///
/// On success the table holds sequence `s` under key `k` exactly when some
/// line of the test data contributes that pair, groups and members in their
/// canonical order; on failure the error is the fault of the first
/// offending line, property data first.
pub fn group_emoji(test_data: &Vec<u8>, property_data: &Vec<u8>) -> (r: Result<
    GroupTable,
    DataError,
>)
    ensures
        ({
            let tl = split_lines(test_data@);
            let pl = split_lines(property_data@);
            let mb = mb_set(pl);
            &&& (r matches Ok(t) ==> (built_from(t, tl, mb) && (forall|i: int|
                0 <= i < pl.len() ==> mb_fault_at(pl, i) is None) && (forall|i: int|
                0 <= i < tl.len() ==> fault_at(tl, mb, i) is None)))
            &&& (r matches Err(e) ==> ((exists|i: int|
                0 <= i < pl.len() && #[trigger] mb_fault_at(pl, i) == Option::Some(e) && (forall|
                    j: int,
                |
                    0 <= j < i ==> mb_fault_at(pl, j) is None)) || ((forall|i: int|
                0 <= i < pl.len() ==> mb_fault_at(pl, i) is None) && (exists|i: int|
                0 <= i < tl.len() && #[trigger] fault_at(tl, mb, i) == Option::Some(e) && (forall|
                    j: int,
                |
                    0 <= j < i ==> fault_at(tl, mb, j) is None)))))
        }),
{
    let ghost tl = split_lines(test_data@);
    let ghost pl = split_lines(property_data@);
    let ghost mb = mb_set(pl);
    let mb_vec = match emoji_modifier_bases(property_data) {
        Result::Err(e) => {
            return Result::Err(e);
        },
        Result::Ok(v) => v,
    };
    proof {
        assert forall|c: char| char_set(mb_vec@).contains(c) == mb.contains(c) by {
            assert(char_set(mb_vec@).contains(c) == mb_vec@.contains(c));
        }
        assert(char_set(mb_vec@) =~= mb);
    }
    let marks = SubMarkers::new();
    proof {
        reveal_strlit("# subgroup: ");
        reveal_strlit("; fully-qualified");
    }
    let header = lit_bytes("# subgroup: ");
    let fq = lit_bytes("; fully-qualified");
    let lines = split_to_lines(test_data);
    let mut sub: Vec<u8> = Vec::new();
    let mut table = GroupTable { groups: Vec::new() };
    let n = lines.len();
    proof {
        assert(views_of(lines@).len() == lines@.len());
        assert(tl.take(0) =~= Seq::<Seq<u8>>::empty());
        assert(sub@ =~= subgroup_after(tl.take(0)));
    }
    let mut k: usize = 0;
    while k < n
        invariant
            k <= n == lines@.len(),
            views_of(lines@) == tl,
            tl == split_lines(test_data@),
            pl == split_lines(property_data@),
            mb == mb_set(pl),
            tl.len() == n,
            marks.wf(),
            header@ == header_marker(),
            header@.len() > 0,
            fq@ == fq_marker(),
            fq@.len() > 0,
            char_set(mb_vec@) == mb,
            forall|i: int| 0 <= i < pl.len() ==> mb_fault_at(pl, i) is None,
            sub@ == subgroup_at(tl, k as int),
            table.wf(),
            forall|kk: GKey, ss: Seq<char>|
                table.contains_entry(kk, ss) <==> (exists|i: int|
                    0 <= i < k && #[trigger] entry_at(tl, mb, i) == LineView::Entry(kk, ss)),
            forall|i: int| 0 <= i < k ==> fault_at(tl, mb, i) is None,
        decreases n - k,
    {
        let l = &lines[k];
        proof {
            assert(l@ == tl[k as int]);
            assert(tl.take(k + 1).drop_last() =~= tl.take(k as int));
            assert(tl.take(k + 1).last() == tl[k as int]);
        }
        if starts_with(l, &header) {
            sub = strip_prefix_all(l, &header);
            proof {
                assert(is_header_line(tl[k as int]));
                assert(subgroup_after(tl.take(k + 1)) == header_value(tl[k as int]));
                assert(sub@ == subgroup_at(tl, k + 1));
                lemma_header_not_data(tl[k as int]);
                assert(entry_at(tl, mb, k as int) == LineView::Skip);
                assert(fault_at(tl, mb, k as int) is None);
                assert forall|kk: GKey, ss: Seq<char>|
                    table.contains_entry(kk, ss) <==> (exists|i: int|
                        0 <= i < k + 1 && #[trigger] entry_at(tl, mb, i) == LineView::Entry(
                            kk,
                            ss,
                        )) by {
                    if exists|i: int|
                        0 <= i < k + 1 && #[trigger] entry_at(tl, mb, i) == LineView::Entry(
                            kk,
                            ss,
                        ) {
                        let i = choose|i: int|
                            0 <= i < k + 1 && #[trigger] entry_at(tl, mb, i) == LineView::Entry(
                                kk,
                                ss,
                            );
                        assert(i < k);
                    }
                }
            }
        } else {
            proof {
                assert(!is_header_line(tl[k as int]));
                assert(subgroup_after(tl.take(k + 1)) == subgroup_after(tl.take(k as int)));
                assert(sub@ == subgroup_at(tl, k + 1));
            }
            let step = fq_line_exec(l, &fq);
            let mut skipped = true;
            match step {
                Option::None => {
                    proof {
                        assert(entry_at(tl, mb, k as int) == LineView::Skip);
                    }
                },
                Option::Some(Result::Err(e)) => {
                    proof {
                        assert(fault_at(tl, mb, k as int) == Option::Some(e));
                        lemma_first_fault(tl, mb, k as int, e);
                    }
                    return Result::Err(e);
                },
                Option::Some(Result::Ok(sv)) => {
                    if sv.len() == 0 {
                        proof {
                            assert(fault_at(tl, mb, k as int) == Option::Some(
                                DataError::EmptySequence,
                            ));
                            lemma_first_fault(tl, mb, k as int, DataError::EmptySequence);
                        }
                        return Result::Err(DataError::EmptySequence);
                    }
                    match classify_seq(&marks, &sub, &mb_vec, &sv) {
                        ClassOut::Drop => {
                            proof {
                                assert(classify(subgroup_at(tl, k as int), mb, sv@)
                                    == Class::Drop);
                                assert(entry_at(tl, mb, k as int) == LineView::Skip);
                            }
                        },
                        ClassOut::Unfamiliar => {
                            proof {
                                assert(fault_at(tl, mb, k as int) == Option::Some(
                                    DataError::UnfamiliarFamily,
                                ));
                                lemma_first_fault(tl, mb, k as int, DataError::UnfamiliarFamily);
                            }
                            return Result::Err(DataError::UnfamiliarFamily);
                        },
                        ClassOut::Grouped(key) => {
                            skipped = false;
                            let ghost kv = key@;
                            let ghost svv = sv@;
                            proof {
                                assert(entry_at(tl, mb, k as int) == LineView::Entry(kv, svv));
                                assert(fault_at(tl, mb, k as int) is None);
                            }
                            let ghost tbl0 = table;
                            table_insert(&mut table, key, sv);
                            proof {
                                assert forall|kk: GKey, ss: Seq<char>|
                                    table.contains_entry(kk, ss) <==> (exists|i: int|
                                        0 <= i < k + 1 && #[trigger] entry_at(tl, mb, i)
                                            == LineView::Entry(kk, ss)) by {
                                    if table.contains_entry(kk, ss) {
                                        if tbl0.contains_entry(kk, ss) {
                                            let i = choose|i: int|
                                                0 <= i < k && #[trigger] entry_at(tl, mb, i)
                                                    == LineView::Entry(kk, ss);
                                            assert(0 <= i < k + 1 && entry_at(tl, mb, i)
                                                == LineView::Entry(kk, ss));
                                        } else {
                                            assert(kk == kv && ss == svv);
                                            assert(entry_at(tl, mb, k as int) == LineView::Entry(
                                                kk,
                                                ss,
                                            ));
                                        }
                                    }
                                    if exists|i: int|
                                        0 <= i < k + 1 && #[trigger] entry_at(tl, mb, i)
                                            == LineView::Entry(kk, ss) {
                                        let i = choose|i: int|
                                            0 <= i < k + 1 && #[trigger] entry_at(tl, mb, i)
                                                == LineView::Entry(kk, ss);
                                        if i == k {
                                            assert(kk == kv && ss == svv);
                                            assert(table.contains_entry(kk, ss));
                                        } else {
                                            assert(tbl0.contains_entry(kk, ss));
                                            assert(table.contains_entry(kk, ss));
                                        }
                                    }
                                }
                            }
                        },
                    }
                },
            }
            proof {
                if skipped {
                    assert(entry_at(tl, mb, k as int) == LineView::Skip);
                    assert forall|kk: GKey, ss: Seq<char>|
                        table.contains_entry(kk, ss) <==> (exists|i: int|
                            0 <= i < k + 1 && #[trigger] entry_at(tl, mb, i) == LineView::Entry(
                                kk,
                                ss,
                            )) by {
                        if exists|i: int|
                            0 <= i < k + 1 && #[trigger] entry_at(tl, mb, i) == LineView::Entry(
                                kk,
                                ss,
                            ) {
                            let i = choose|i: int|
                                0 <= i < k + 1 && #[trigger] entry_at(tl, mb, i)
                                    == LineView::Entry(kk, ss);
                            assert(i < k);
                        }
                    }
                }
            }
        }
        k = k + 1;
    }
    proof {
        assert forall|kk: GKey, ss: Seq<char>|
            table.contains_entry(kk, ss) <==> is_entry(tl, mb, kk, ss) by {}
    }
    Result::Ok(table)
}

/// Grouping completeness, inward: every sequence a data line contributes
/// stands in the table, in the group keyed by its classification. No
/// qualifying sequence is dropped silently.
pub proof fn lemma_grouping_complete(
    t: GroupTable,
    tl: Seq<Seq<u8>>,
    mb: Set<char>,
    i: int,
    k: GKey,
    s: Seq<char>,
)
    requires
        built_from(t, tl, mb),
        0 <= i < tl.len(),
        entry_at(tl, mb, i) == LineView::Entry(k, s),
    ensures
        t.contains_entry(k, s),
{
    assert(is_entry(tl, mb, k, s));
}

/// Grouping completeness, outward: every member of every group was
/// contributed by some data line that classified it under that group's
/// key. With [`crate::table::lemma_key_unique`], a sequence stands in two
/// groups only when two lines classified it under two distinct keys.
pub proof fn lemma_member_classified(
    t: GroupTable,
    tl: Seq<Seq<u8>>,
    mb: Set<char>,
    j: int,
    s: Seq<char>,
)
    requires
        built_from(t, tl, mb),
        0 <= j < t.groups@.len(),
        crate::table::member_of(t.groups@[j].members@, s),
    ensures
        is_entry(tl, mb, t.groups@[j].key@, s),
{
    assert(t.contains_entry(t.groups@[j].key@, s));
}

/// Group non-emptiness: every group of a well-formed table has at least
/// one member.
pub proof fn lemma_group_nonempty(t: GroupTable, j: int)
    requires
        t.wf(),
        0 <= j < t.groups@.len(),
    ensures
        t.groups@[j].members@.len() > 0,
{
}

/// Modifier-base coverage: when a data line holds a sequence that
/// classifies as a modifier-base group of code point `c` — as every
/// sequence does whose first code point is `c`, is in the modifier-base
/// set, and matches no earlier rule — the table keys a group by
/// `ModifierBase(c)`.
pub proof fn lemma_modifier_base_coverage(
    t: GroupTable,
    tl: Seq<Seq<u8>>,
    mb: Set<char>,
    i: int,
    s: Seq<char>,
    c: char,
)
    requires
        built_from(t, tl, mb),
        0 <= i < tl.len(),
        entry_at(tl, mb, i) == LineView::Entry(GKey::ModifierBase(c), s),
    ensures
        exists|j: int|
            0 <= j < t.groups@.len() && (#[trigger] t.groups@[j]).key@ == GKey::ModifierBase(c),
{
    assert(is_entry(tl, mb, GKey::ModifierBase(c), s));
    assert(t.contains_entry(GKey::ModifierBase(c), s));
    let j = choose|j: int|
        0 <= j < t.groups@.len() && (#[trigger] t.groups@[j]).key@ == GKey::ModifierBase(c)
            && crate::table::member_of(t.groups@[j].members@, s);
    assert(0 <= j < t.groups@.len() && t.groups@[j].key@ == GKey::ModifierBase(c));
}

/// Denylist exclusion: no member of any group of a built table begins
/// with a denylisted code point, whatever subgroup its line stood under.
pub proof fn lemma_denylist_excluded(
    t: GroupTable,
    tl: Seq<Seq<u8>>,
    mb: Set<char>,
    j: int,
    s: Seq<char>,
)
    requires
        built_from(t, tl, mb),
        0 <= j < t.groups@.len(),
        crate::table::member_of(t.groups@[j].members@, s),
    ensures
        s.len() > 0,
        !crate::classify::denylisted(s[0]),
{
    let k = t.groups@[j].key@;
    lemma_member_classified(t, tl, mb, j, s);
    let i = choose|i: int|
        0 <= i < tl.len() && entry_at(tl, mb, i) == LineView::Entry(k, s);
    let pr = parse_tokens(tokens_spec(fq_payload(tl[i])));
    match pr {
        Result::Ok(s0) => {
            assert(s0 == s);
            assert(s.len() > 0);
            assert(classify(subgroup_at(tl, i), mb, s) == Class::Grouped(k));
            crate::classify::lemma_classified_not_denylisted(subgroup_at(tl, i), mb, s, k);
        },
        Result::Err(_) => {
            assert(false);
        },
    }
}

} // verus!
