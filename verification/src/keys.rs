//! Group keys and the deterministic order of the group table.
//!
//! Every selection group is identified by one key; keys are ordered by kind
//! first and by their payload second, which fixes the table order and makes
//! a build reproducible.

use vstd::prelude::*;

verus! {

/// The identity of a selection group: which kind it is, and for keyed kinds
/// the code point (or whole sequence) that the grouping hangs on.
#[derive(Debug)]
pub enum GroupKey {
    /// A single sequence with no related variants; its own group.
    Independent(Vec<char>),
    /// Sequences whose first code point accepts a skin-tone modifier.
    ModifierBase(char),
    /// Person-subgroup sequences keyed by their first code point.
    Person(char),
    /// Role sequences keyed by the code point naming the role.
    Role(char),
    Couple,
    Family,
    HoldingHands,
    Kiss,
    Keycap,
    Time,
}

/// Mathematical form of a group key.
pub enum GKey {
    Independent(Seq<char>),
    ModifierBase(char),
    Person(char),
    Role(char),
    Couple,
    Family,
    HoldingHands,
    Kiss,
    Keycap,
    Time,
}

impl View for GroupKey {
    type V = GKey;

    open spec fn view(&self) -> GKey {
        match self {
            GroupKey::Independent(v) => GKey::Independent(v@),
            GroupKey::ModifierBase(c) => GKey::ModifierBase(*c),
            GroupKey::Person(c) => GKey::Person(*c),
            GroupKey::Role(c) => GKey::Role(*c),
            GroupKey::Couple => GKey::Couple,
            GroupKey::Family => GKey::Family,
            GroupKey::HoldingHands => GKey::HoldingHands,
            GroupKey::Kiss => GKey::Kiss,
            GroupKey::Keycap => GKey::Keycap,
            GroupKey::Time => GKey::Time,
        }
    }
}

/// Rank of a key's kind in the table order.
pub open spec fn rank(k: GKey) -> int {
    match k {
        GKey::Independent(_) => 0,
        GKey::ModifierBase(_) => 1,
        GKey::Person(_) => 2,
        GKey::Role(_) => 3,
        GKey::Couple => 4,
        GKey::Family => 5,
        GKey::HoldingHands => 6,
        GKey::Kiss => 7,
        GKey::Keycap => 8,
        GKey::Time => 9,
    }
}

/// Strict lexicographic order on character sequences, by code point.
pub open spec fn lex_lt(a: Seq<char>, b: Seq<char>) -> bool
    decreases a.len(),
{
    if b.len() == 0 {
        false
    } else if a.len() == 0 {
        true
    } else if (a[0] as u32) < (b[0] as u32) {
        true
    } else if a[0] == b[0] {
        lex_lt(a.drop_first(), b.drop_first())
    } else {
        false
    }
}

/// Strict total order on keys: by kind rank, then by payload.
pub open spec fn key_lt(a: GKey, b: GKey) -> bool {
    rank(a) < rank(b) || (rank(a) == rank(b) && match (a, b) {
        (GKey::Independent(x), GKey::Independent(y)) => lex_lt(x, y),
        (GKey::ModifierBase(x), GKey::ModifierBase(y)) => (x as u32) < (y as u32),
        (GKey::Person(x), GKey::Person(y)) => (x as u32) < (y as u32),
        (GKey::Role(x), GKey::Role(y)) => (x as u32) < (y as u32),
        _ => false,
    })
}

/// The lexicographic order is total: exactly one of `a < b`, `a == b`,
/// `b < a` holds.
pub proof fn lemma_lex_total(a: Seq<char>, b: Seq<char>)
    ensures
        lex_lt(a, b) || lex_lt(b, a) || a == b,
        lex_lt(a, b) ==> !lex_lt(b, a),
        lex_lt(a, b) ==> a != b,
    decreases a.len(),
{
    if a.len() == 0 && b.len() == 0 {
        assert(a =~= b);
    } else if a.len() > 0 && b.len() > 0 {
        if (a[0] as u32) == (b[0] as u32) {
            vstd::utf8::char_u32_cast(a[0], a[0] as u32);
            vstd::utf8::char_u32_cast(b[0], b[0] as u32);
            assert(a[0] == b[0]);
        }
        if a[0] == b[0] {
            lemma_lex_total(a.drop_first(), b.drop_first());
            if a.drop_first() == b.drop_first() {
                assert forall|i: int| 0 <= i < a.len() implies a[i] == b[i] by {
                    if i > 0 {
                        assert(a.drop_first()[i - 1] == b.drop_first()[i - 1]);
                        assert(a[i] == a.drop_first()[i - 1]);
                        assert(b[i] == b.drop_first()[i - 1]);
                    }
                }
                assert(a =~= b);
            }
            if a == b {
                assert(a.drop_first() =~= b.drop_first());
            }
        }
    }
}

pub proof fn lemma_lex_trans(a: Seq<char>, b: Seq<char>, c: Seq<char>)
    requires
        lex_lt(a, b),
        lex_lt(b, c),
    ensures
        lex_lt(a, c),
    decreases a.len(),
{
    if a.len() > 0 && b.len() > 0 && c.len() > 0 {
        if a[0] == b[0] && b[0] == c[0] {
            lemma_lex_trans(a.drop_first(), b.drop_first(), c.drop_first());
        }
    }
}

/// The key order is total: exactly one of `a < b`, `a == b`, `b < a` holds.
pub proof fn lemma_key_total(a: GKey, b: GKey)
    ensures
        key_lt(a, b) || key_lt(b, a) || a == b,
        key_lt(a, b) ==> !key_lt(b, a),
        key_lt(a, b) ==> a != b,
{
    match (a, b) {
        (GKey::Independent(x), GKey::Independent(y)) => {
            lemma_lex_total(x, y);
        },
        _ => {},
    }
}

pub proof fn lemma_key_trans(a: GKey, b: GKey, c: GKey)
    requires
        key_lt(a, b),
        key_lt(b, c),
    ensures
        key_lt(a, c),
{
    match (a, c) {
        (GKey::Independent(x), GKey::Independent(z)) => {
            if rank(a) == rank(b) && rank(b) == rank(c) {
                match b {
                    GKey::Independent(y) => {
                        lemma_lex_trans(x, y, z);
                    },
                    _ => {},
                }
            }
        },
        _ => {},
    }
}

/// Three-way comparison result.
pub enum Cmp {
    Lt,
    Eq,
    Gt,
}

/// Three-way comparison of character sequences in the order of [`lex_lt`].
pub fn cmp_chars(a: &Vec<char>, b: &Vec<char>) -> (r: Cmp)
    ensures
        (r is Lt) == lex_lt(a@, b@),
        (r is Eq) == (a@ == b@),
        (r is Gt) == lex_lt(b@, a@),
{
    proof {
        assert(a@.skip(0) =~= a@);
        assert(b@.skip(0) =~= b@);
        lemma_lex_total(a@, b@);
    }
    let an = a.len();
    let bn = b.len();
    let mut i: usize = 0;
    while i < an && i < bn
        invariant
            i <= an == a@.len(),
            i <= bn == b@.len(),
            lex_lt(a@, b@) == lex_lt(a@.skip(i as int), b@.skip(i as int)),
            lex_lt(b@, a@) == lex_lt(b@.skip(i as int), a@.skip(i as int)),
            forall|j: int| 0 <= j < i ==> a@[j] == b@[j],
            lex_lt(a@, b@) || lex_lt(b@, a@) || a@ == b@,
            lex_lt(a@, b@) ==> !lex_lt(b@, a@) && a@ != b@,
            lex_lt(b@, a@) ==> !lex_lt(a@, b@) && b@ != a@,
        decreases an - i,
    {
        let ca = a[i];
        let cb = b[i];
        if (ca as u32) < (cb as u32) {
            proof {
                assert(lex_lt(a@.skip(i as int), b@.skip(i as int)));
            }
            return Cmp::Lt;
        }
        if (cb as u32) < (ca as u32) {
            proof {
                assert(lex_lt(b@.skip(i as int), a@.skip(i as int)));
            }
            return Cmp::Gt;
        }
        proof {
            vstd::utf8::char_u32_cast(ca, ca as u32);
            vstd::utf8::char_u32_cast(cb, cb as u32);
            assert(ca == cb);
            assert(a@.skip(i as int).drop_first() =~= a@.skip(i + 1));
            assert(b@.skip(i as int).drop_first() =~= b@.skip(i + 1));
        }
        i = i + 1;
    }
    if an == bn {
        proof {
            assert(a@ =~= b@);
        }
        Cmp::Eq
    } else if an < bn {
        proof {
            assert(a@.skip(i as int).len() == 0 && b@.skip(i as int).len() > 0);
            assert(lex_lt(a@.skip(i as int), b@.skip(i as int)));
        }
        Cmp::Lt
    } else {
        proof {
            assert(b@.skip(i as int).len() == 0 && a@.skip(i as int).len() > 0);
            assert(lex_lt(b@.skip(i as int), a@.skip(i as int)));
        }
        Cmp::Gt
    }
}

fn rank_of(k: &GroupKey) -> (r: u8)
    ensures
        r == rank(k@),
{
    match k {
        GroupKey::Independent(_) => 0,
        GroupKey::ModifierBase(_) => 1,
        GroupKey::Person(_) => 2,
        GroupKey::Role(_) => 3,
        GroupKey::Couple => 4,
        GroupKey::Family => 5,
        GroupKey::HoldingHands => 6,
        GroupKey::Kiss => 7,
        GroupKey::Keycap => 8,
        GroupKey::Time => 9,
    }
}

fn cmp_char_points(x: char, y: char) -> (r: Cmp)
    ensures
        (r is Lt) == ((x as u32) < (y as u32)),
        (r is Eq) == (x == y),
        (r is Gt) == ((y as u32) < (x as u32)),
{
    if (x as u32) < (y as u32) {
        Cmp::Lt
    } else if (y as u32) < (x as u32) {
        Cmp::Gt
    } else {
        proof {
            vstd::utf8::char_u32_cast(x, x as u32);
            vstd::utf8::char_u32_cast(y, y as u32);
        }
        Cmp::Eq
    }
}

/// Three-way comparison of keys in the order of [`key_lt`].
pub fn key_cmp(a: &GroupKey, b: &GroupKey) -> (r: Cmp)
    ensures
        (r is Lt) == key_lt(a@, b@),
        (r is Eq) == (a@ == b@),
        (r is Gt) == key_lt(b@, a@),
{
    let ra = rank_of(a);
    let rb = rank_of(b);
    if ra < rb {
        return Cmp::Lt;
    }
    if rb < ra {
        return Cmp::Gt;
    }
    match (a, b) {
        (GroupKey::Independent(x), GroupKey::Independent(y)) => cmp_chars(x, y),
        (GroupKey::ModifierBase(x), GroupKey::ModifierBase(y)) => cmp_char_points(*x, *y),
        (GroupKey::Person(x), GroupKey::Person(y)) => cmp_char_points(*x, *y),
        (GroupKey::Role(x), GroupKey::Role(y)) => cmp_char_points(*x, *y),
        (GroupKey::Couple, GroupKey::Couple) => Cmp::Eq,
        (GroupKey::Family, GroupKey::Family) => Cmp::Eq,
        (GroupKey::HoldingHands, GroupKey::HoldingHands) => Cmp::Eq,
        (GroupKey::Kiss, GroupKey::Kiss) => Cmp::Eq,
        (GroupKey::Keycap, GroupKey::Keycap) => Cmp::Eq,
        (GroupKey::Time, GroupKey::Time) => Cmp::Eq,
        _ => {
            proof {
                assert(false);
            }
            Cmp::Eq
        },
    }
}

} // verus!
