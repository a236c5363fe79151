//! Classification of one emoji sequence into its selection-group key,
//! given the subgroup heading in force and the set of modifier-base code
//! points.

use crate::keys::GKey;
use crate::keys::GroupKey;
use vstd::prelude::*;

verus! {

/// The bytes of an ASCII literal, one byte per character.
pub open spec fn ascii_seq(s: Seq<char>) -> Seq<u8> {
    Seq::new(s.len(), |i: int| s[i] as u8)
}

/// Builds the byte form of an ASCII marker string.
pub fn lit_bytes(s: &str) -> (v: Vec<u8>)
    requires
        vstd::string::is_ascii(s),
    ensures
        v@ == ascii_seq(s@),
{
    let b = vstd::string::StrSliceExecFns::as_bytes_vec(s);
    proof {
        vstd::string::is_ascii_spec_bytes(s);
        assert(b@ =~= ascii_seq(s@));
    }
    b
}

pub open spec fn sub_person() -> Seq<u8> {
    ascii_seq("person"@)
}

pub open spec fn sub_family() -> Seq<u8> {
    ascii_seq("family"@)
}

pub open spec fn sub_person_role() -> Seq<u8> {
    ascii_seq("person-role"@)
}

pub open spec fn sub_keycap() -> Seq<u8> {
    ascii_seq("keycap"@)
}

pub open spec fn sub_time() -> Seq<u8> {
    ascii_seq("time"@)
}

pub open spec fn sub_skin_tone() -> Seq<u8> {
    ascii_seq("skin-tone"@)
}

pub open spec fn sub_hair_style() -> Seq<u8> {
    ascii_seq("hair-style"@)
}

pub open spec fn sub_country_flag() -> Seq<u8> {
    ascii_seq("country-flag"@)
}

pub open spec fn sub_subdivision_flag() -> Seq<u8> {
    ascii_seq("subdivision-flag"@)
}

/// The fixed denylist: sequences led by one of these law-enforcement
/// glyphs (officer, police cars, customs, passport control) never enter
/// the pool. An editorial choice, reproduced verbatim.
pub open spec fn denylisted(c: char) -> bool {
    c == '\u{1f46e}' || c == '\u{1f693}' || c == '\u{1f694}' || c == '\u{1f6c2}' || c
        == '\u{1f6c3}'
}

/// The person alphabet: adult person, man, woman.
pub open spec fn person_cp(c: char) -> bool {
    c == '\u{1f9d1}' || c == '\u{1f468}' || c == '\u{1f469}'
}

/// The family-member alphabet: joiner, man, woman, boy, girl.
pub open spec fn family_member_cp(c: char) -> bool {
    c == '\u{200d}' || c == '\u{1f468}' || c == '\u{1f469}' || c == '\u{1f466}' || c == '\u{1f467}'
}

pub open spec fn all_family_members(s: Seq<char>) -> bool {
    forall|i: int| 0 <= i < s.len() ==> family_member_cp(#[trigger] s[i])
}

/// What classification decides for one sequence.
pub enum Class {
    /// Excluded from the selection pool.
    Drop,
    /// Belongs to the group with this key.
    Grouped(GKey),
    /// A family-subgroup sequence of a shape the classifier does not know.
    Unfamiliar,
}

/// Classifies a non-empty sequence `s` seen under subgroup heading `sub`,
/// with `mb` the modifier-base code points. First match wins: denylist,
/// skipped subgroups, person, family shapes, zero-width-joiner roles,
/// person-role, keycap, clock faces, modifier bases, else independent.
pub open spec fn classify(sub: Seq<u8>, mb: Set<char>, s: Seq<char>) -> Class
    recommends
        s.len() > 0,
{
    if denylisted(s[0]) {
        Class::Drop
    } else if sub == sub_skin_tone() || sub == sub_hair_style() || sub == sub_country_flag() || sub
        == sub_subdivision_flag() {
        Class::Drop
    } else if sub == sub_person() {
        Class::Grouped(GKey::Person(s[0]))
    } else if sub == sub_family() {
        if all_family_members(s) {
            Class::Grouped(GKey::Family)
        } else if s.contains('\u{1f91d}') {
            Class::Grouped(GKey::HoldingHands)
        } else if s.contains('\u{1f48b}') {
            Class::Grouped(GKey::Kiss)
        } else if s.contains('\u{2764}') {
            Class::Grouped(GKey::Couple)
        } else if s[0] == '\u{1f46d}' || s[0] == '\u{1f46b}' || s[0] == '\u{1f46c}' {
            Class::Grouped(GKey::HoldingHands)
        } else if s[0] == '\u{1f48f}' || s[0] == '\u{1f491}' || s[0] == '\u{1f46a}' {
            Class::Drop
        } else {
            Class::Unfamiliar
        }
    } else if person_cp(s[0]) && s.contains('\u{200d}') {
        Class::Grouped(GKey::Role(s[s.len() - 1]))
    } else if sub == sub_person_role() {
        Class::Grouped(GKey::Role(s[0]))
    } else if sub == sub_keycap() {
        Class::Grouped(GKey::Keycap)
    } else if sub == sub_time() && '\u{1f550}' <= s[0] && s[0] <= '\u{1f567}' {
        Class::Grouped(GKey::Time)
    } else if mb.contains(s[0]) {
        Class::Grouped(GKey::ModifierBase(s[0]))
    } else {
        Class::Grouped(GKey::Independent(s))
    }
}

/// A classified sequence is never denylisted.
pub proof fn lemma_classified_not_denylisted(sub: Seq<u8>, mb: Set<char>, s: Seq<char>, k: GKey)
    requires
        s.len() > 0,
        classify(sub, mb, s) == Class::Grouped(k),
    ensures
        !denylisted(s[0]),
{
}

/// The executable form of a classification result.
#[derive(Debug)]
pub enum ClassOut {
    Drop,
    Grouped(GroupKey),
    Unfamiliar,
}

impl View for ClassOut {
    type V = Class;

    open spec fn view(&self) -> Class {
        match self {
            ClassOut::Drop => Class::Drop,
            ClassOut::Grouped(k) => Class::Grouped(k@),
            ClassOut::Unfamiliar => Class::Unfamiliar,
        }
    }
}

/// The set a vector of code points stands for.
pub open spec fn char_set(v: Seq<char>) -> Set<char> {
    Set::new(|c: char| v.contains(c))
}

fn chars_contain(v: &Vec<char>, c: char) -> (r: bool)
    ensures
        r == v@.contains(c),
{
    let n = v.len();
    let mut i: usize = 0;
    while i < n
        invariant
            i <= n == v@.len(),
            forall|j: int| 0 <= j < i ==> v@[j] != c,
        decreases n - i,
    {
        if v[i] == c {
            return true;
        }
        i = i + 1;
    }
    false
}

fn all_family_exec(s: &Vec<char>) -> (r: bool)
    ensures
        r == all_family_members(s@),
{
    let n = s.len();
    let mut i: usize = 0;
    while i < n
        invariant
            i <= n == s@.len(),
            forall|j: int| 0 <= j < i ==> family_member_cp(#[trigger] s@[j]),
        decreases n - i,
    {
        let c = s[i];
        if !(c == '\u{200d}' || c == '\u{1f468}' || c == '\u{1f469}' || c == '\u{1f466}' || c
            == '\u{1f467}') {
            return false;
        }
        i = i + 1;
    }
    true
}

/// The subgroup headings compared against during classification, built
/// once per run of the builder.
pub struct SubMarkers {
    pub person: Vec<u8>,
    pub family: Vec<u8>,
    pub person_role: Vec<u8>,
    pub keycap: Vec<u8>,
    pub time: Vec<u8>,
    pub skin_tone: Vec<u8>,
    pub hair_style: Vec<u8>,
    pub country_flag: Vec<u8>,
    pub subdivision_flag: Vec<u8>,
}

impl SubMarkers {
    pub open spec fn wf(self) -> bool {
        &&& self.person@ == sub_person()
        &&& self.family@ == sub_family()
        &&& self.person_role@ == sub_person_role()
        &&& self.keycap@ == sub_keycap()
        &&& self.time@ == sub_time()
        &&& self.skin_tone@ == sub_skin_tone()
        &&& self.hair_style@ == sub_hair_style()
        &&& self.country_flag@ == sub_country_flag()
        &&& self.subdivision_flag@ == sub_subdivision_flag()
    }

    pub fn new() -> (r: SubMarkers)
        ensures
            r.wf(),
    {
        proof {
            reveal_strlit("person");
            reveal_strlit("family");
            reveal_strlit("person-role");
            reveal_strlit("keycap");
            reveal_strlit("time");
            reveal_strlit("skin-tone");
            reveal_strlit("hair-style");
            reveal_strlit("country-flag");
            reveal_strlit("subdivision-flag");
        }
        SubMarkers {
            person: lit_bytes("person"),
            family: lit_bytes("family"),
            person_role: lit_bytes("person-role"),
            keycap: lit_bytes("keycap"),
            time: lit_bytes("time"),
            skin_tone: lit_bytes("skin-tone"),
            hair_style: lit_bytes("hair-style"),
            country_flag: lit_bytes("country-flag"),
            subdivision_flag: lit_bytes("subdivision-flag"),
        }
    }
}

/// Classifies as [`classify`] describes.
pub fn classify_seq(marks: &SubMarkers, sub: &Vec<u8>, mb: &Vec<char>, s: &Vec<char>) -> (r:
    ClassOut)
    requires
        marks.wf(),
        s@.len() > 0,
    ensures
        r@ == classify(sub@, char_set(mb@), s@),
{
    let first = s[0];
    if first == '\u{1f46e}' || first == '\u{1f693}' || first == '\u{1f694}' || first == '\u{1f6c2}'
        || first == '\u{1f6c3}' {
        return ClassOut::Drop;
    }
    if crate::scan::bytes_eq(sub, &marks.skin_tone) || crate::scan::bytes_eq(sub, &marks.hair_style)
        || crate::scan::bytes_eq(sub, &marks.country_flag) || crate::scan::bytes_eq(
        sub,
        &marks.subdivision_flag,
    ) {
        return ClassOut::Drop;
    }
    if crate::scan::bytes_eq(sub, &marks.person) {
        return ClassOut::Grouped(GroupKey::Person(first));
    }
    if crate::scan::bytes_eq(sub, &marks.family) {
        if all_family_exec(s) {
            return ClassOut::Grouped(GroupKey::Family);
        }
        if chars_contain(s, '\u{1f91d}') {
            return ClassOut::Grouped(GroupKey::HoldingHands);
        }
        if chars_contain(s, '\u{1f48b}') {
            return ClassOut::Grouped(GroupKey::Kiss);
        }
        if chars_contain(s, '\u{2764}') {
            return ClassOut::Grouped(GroupKey::Couple);
        }
        if first == '\u{1f46d}' || first == '\u{1f46b}' || first == '\u{1f46c}' {
            return ClassOut::Grouped(GroupKey::HoldingHands);
        }
        if first == '\u{1f48f}' || first == '\u{1f491}' || first == '\u{1f46a}' {
            return ClassOut::Drop;
        }
        return ClassOut::Unfamiliar;
    }
    if (first == '\u{1f9d1}' || first == '\u{1f468}' || first == '\u{1f469}') && chars_contain(
        s,
        '\u{200d}',
    ) {
        let last = s[s.len() - 1];
        return ClassOut::Grouped(GroupKey::Role(last));
    }
    if crate::scan::bytes_eq(sub, &marks.person_role) {
        return ClassOut::Grouped(GroupKey::Role(first));
    }
    if crate::scan::bytes_eq(sub, &marks.keycap) {
        return ClassOut::Grouped(GroupKey::Keycap);
    }
    if crate::scan::bytes_eq(sub, &marks.time) && '\u{1f550}' <= first && first <= '\u{1f567}' {
        return ClassOut::Grouped(GroupKey::Time);
    }
    if chars_contain(mb, first) {
        proof {
            assert(char_set(mb@).contains(first) == mb@.contains(first));
        }
        return ClassOut::Grouped(GroupKey::ModifierBase(first));
    }
    proof {
        assert(char_set(mb@).contains(first) == mb@.contains(first));
    }
    let mut copy: Vec<char> = Vec::new();
    let n = s.len();
    let mut i: usize = 0;
    while i < n
        invariant
            i <= n == s@.len(),
            copy@ == s@.take(i as int),
        decreases n - i,
    {
        copy.push(s[i]);
        proof {
            assert(s@.take(i + 1) =~= s@.take(i as int).push(s@[i as int]));
        }
        i = i + 1;
    }
    proof {
        assert(copy@ =~= s@);
    }
    ClassOut::Grouped(GroupKey::Independent(copy))
}

} // verus!
