//! The group table: selection groups in key order, each with its members
//! deduplicated and lexicographically ordered, so that one build input has
//! exactly one table.

use crate::keys::Cmp;
use crate::keys::GKey;
use crate::keys::GroupKey;
use crate::keys::cmp_chars;
use crate::keys::key_cmp;
use crate::keys::key_lt;
use crate::keys::lemma_key_total;
use crate::keys::lemma_lex_total;
use crate::keys::lemma_lex_trans;
use crate::keys::lemma_key_trans;
use crate::keys::lex_lt;
use vstd::prelude::*;

verus! {

/// One selection group: its key, and its member sequences.
#[derive(Debug)]
pub struct Group {
    pub key: GroupKey,
    pub members: Vec<Vec<char>>,
}

/// `t` occurs among the member sequences `ms`.
pub open spec fn member_of(ms: Seq<Vec<char>>, t: Seq<char>) -> bool {
    exists|i: int| 0 <= i < ms.len() && (#[trigger] ms[i])@ == t
}

/// The members are strictly ascending, hence deduplicated.
pub open spec fn members_sorted(ms: Seq<Vec<char>>) -> bool {
    forall|i: int, j: int| 0 <= i < j < ms.len() ==> lex_lt((#[trigger] ms[i])@, (#[trigger] ms[j])@)
}

impl Group {
    /// Non-empty, and members strictly ordered.
    pub open spec fn wf(self) -> bool {
        self.members@.len() > 0 && members_sorted(self.members@)
    }
}

/// The table of all selection groups.
#[derive(Debug)]
pub struct GroupTable {
    pub groups: Vec<Group>,
}

impl GroupTable {
    /// Every group is well formed and the keys are strictly ascending, so
    /// each key occurs at most once and the order is canonical.
    pub open spec fn wf(self) -> bool {
        &&& forall|i: int|
            0 <= i < self.groups@.len() ==> (#[trigger] self.groups@[i]).wf()
        &&& forall|i: int, j: int|
            0 <= i < j < self.groups@.len() ==> key_lt(
                (#[trigger] self.groups@[i]).key@,
                (#[trigger] self.groups@[j]).key@,
            )
    }

    /// The table holds sequence `s` in a group keyed `k`.
    pub open spec fn contains_entry(self, k: GKey, s: Seq<char>) -> bool {
        exists|i: int|
            0 <= i < self.groups@.len() && (#[trigger] self.groups@[i]).key@ == k && member_of(
                self.groups@[i].members@,
                s,
            )
    }
}

/// At most one group of a well-formed table carries any key.
pub proof fn lemma_key_unique(t: GroupTable, i: int, j: int)
    requires
        t.wf(),
        0 <= i < t.groups@.len(),
        0 <= j < t.groups@.len(),
        t.groups@[i].key@ == t.groups@[j].key@,
    ensures
        i == j,
{
    if i < j {
        lemma_key_total(t.groups@[i].key@, t.groups@[j].key@);
    }
    if j < i {
        lemma_key_total(t.groups@[j].key@, t.groups@[i].key@);
    }
}

fn chars_lt(a: &Vec<char>, b: &Vec<char>) -> (r: bool)
    ensures
        r == lex_lt(a@, b@),
{
    match cmp_chars(a, b) {
        Cmp::Lt => true,
        _ => false,
    }
}

fn chars_eq(a: &Vec<char>, b: &Vec<char>) -> (r: bool)
    ensures
        r == (a@ == b@),
{
    match cmp_chars(a, b) {
        Cmp::Eq => true,
        _ => false,
    }
}

fn key_lt_exec(a: &GroupKey, b: &GroupKey) -> (r: bool)
    ensures
        r == key_lt(a@, b@),
{
    match key_cmp(a, b) {
        Cmp::Lt => true,
        _ => false,
    }
}

fn key_eq_exec(a: &GroupKey, b: &GroupKey) -> (r: bool)
    ensures
        r == (a@ == b@),
{
    match key_cmp(a, b) {
        Cmp::Eq => true,
        _ => false,
    }
}

/// Inserts `s` at its ordered position unless already present.
fn insert_member(ms: &mut Vec<Vec<char>>, s: Vec<char>)
    requires
        members_sorted(old(ms)@),
    ensures
        members_sorted(final(ms)@),
        forall|t: Seq<char>|
            member_of(final(ms)@, t) <==> member_of(old(ms)@, t) || t == s@,
{
    let ghost s_v = s@;
    let n = ms.len();
    let mut i: usize = 0;
    while i < n && chars_lt(&ms[i], &s)
        invariant
            i <= n == ms@.len(),
            ms@ == old(ms)@,
            forall|j: int| 0 <= j < i ==> lex_lt((#[trigger] ms@[j])@, s@),
        decreases n - i,
    {
        i = i + 1;
    }
    if i < n && chars_eq(&ms[i], &s) {
        proof {
            assert((ms@[i as int])@ == s_v);
            assert(member_of(ms@, s_v));
            assert forall|t: Seq<char>|
                member_of(ms@, t) <==> member_of(old(ms)@, t) || t == s_v by {}
        }
        return ;
    }
    proof {
        if i < ms@.len() {
            lemma_lex_total(ms@[i as int]@, s_v);
            assert(lex_lt(s_v, ms@[i as int]@));
        }
    }
    let ghost before = ms@;
    ms.insert(i, s);
    proof {
        before.insert_ensures(i as int, s);
        let now = ms@;
        assert forall|p: int, q: int| 0 <= p < q < now.len() implies lex_lt(
            (#[trigger] now[p])@,
            (#[trigger] now[q])@,
        ) by {
            if q < i {
                assert(now[p] == before[p] && now[q] == before[q]);
            } else if q == i {
                assert(now[p] == before[p]);
                assert(lex_lt(before[p]@, s_v));
            } else {
                // q > i, so now[q] == before[q - 1] with q - 1 >= i
                assert(now[q] == before[q - 1]);
                if p < i {
                    assert(now[p] == before[p]);
                    if q - 1 == i {
                        assert(p < i < before.len() + 1);
                        if i < before.len() {
                            lemma_lex_trans(before[p]@, s_v, before[i as int]@);
                        }
                        assert(q - 1 == i && now[q] == before[i as int]);
                        assert(lex_lt(before[p]@, before[i as int]@));
                    } else {
                        assert(lex_lt(before[p]@, before[q - 1]@));
                    }
                } else if p == i {
                    assert(now[p]@ == s_v);
                    assert(lex_lt(s_v, before[i as int]@));
                    if q - 1 > i {
                        lemma_lex_trans(s_v, before[i as int]@, before[q - 1]@);
                    }
                } else {
                    assert(now[p] == before[p - 1]);
                    assert(lex_lt(before[p - 1]@, before[q - 1]@));
                }
            }
        }
        assert forall|t: Seq<char>| member_of(now, t) implies member_of(before, t) || t == s_v by {
            let j = choose|j: int| 0 <= j < now.len() && (#[trigger] now[j])@ == t;
            if j < i {
                assert(before[j]@ == t);
            } else if j == i {
                assert(t == s_v);
            } else {
                assert(before[j - 1]@ == t);
            }
        }
        assert forall|t: Seq<char>| member_of(before, t) || t == s_v implies member_of(now, t) by {
            if t == s_v {
                assert(now[i as int]@ == t);
            } else {
                let j = choose|j: int| 0 <= j < before.len() && (#[trigger] before[j])@ == t;
                if j < i {
                    assert(now[j]@ == t);
                } else {
                    assert(now[j + 1]@ == t);
                }
            }
        }
    }
}

/// Inserts sequence `s` under `key`, creating the group at its ordered
/// position when no group carries that key yet.
pub fn table_insert(t: &mut GroupTable, key: GroupKey, s: Vec<char>)
    requires
        old(t).wf(),
    ensures
        final(t).wf(),
        forall|k2: GKey, t2: Seq<char>|
            final(t).contains_entry(k2, t2) <==> old(t).contains_entry(k2, t2) || (k2 == key@ && t2
                == s@),
{
    let ghost key_v = key@;
    let ghost s_v = s@;
    let n = t.groups.len();
    let mut i: usize = 0;
    while i < n && key_lt_exec(&t.groups[i].key, &key)
        invariant
            i <= n == t.groups@.len(),
            t.groups@ == old(t).groups@,
            key_v == key@,
            forall|j: int| 0 <= j < i ==> key_lt((#[trigger] t.groups@[j]).key@, key_v),
        decreases n - i,
    {
        i = i + 1;
    }
    if i < n && key_eq_exec(&t.groups[i].key, &key) {
        let ghost before = t.groups@;
        let mut g = t.groups.remove(i);
        proof {
            assert(g == before[i as int]);
        }
        insert_member(&mut g.members, s);
        let ghost mid = t.groups@;
        let ghost g_new = g;
        t.groups.insert(i, g);
        proof {
            before.remove_ensures(i as int);
            mid.insert_ensures(i as int, g_new);
            let now = t.groups@;
            assert(g_new.key@ == key_v);
            // element-wise: the new table is the old one with group i replaced
            assert forall|j: int| 0 <= j < now.len() && j != i implies now[j] == before[j] by {
                if j < i {
                    assert(now[j] == mid[j] && mid[j] == before[j]);
                } else {
                    assert(now[j] == mid[j - 1] && mid[j - 1] == before[j]);
                }
            }
            assert(now[i as int] == g_new);
            assert(now.len() == before.len());
            // well-formedness
            assert forall|j: int| 0 <= j < now.len() implies (#[trigger] now[j]).wf() by {
                if j != i {
                    assert(now[j] == before[j]);
                    assert(before[j].wf());
                } else {
                    assert(member_of(g_new.members@, s_v));
                    assert(g_new.members@.len() > 0);
                }
            }
            assert forall|p: int, q: int| 0 <= p < q < now.len() implies key_lt(
                (#[trigger] now[p]).key@,
                (#[trigger] now[q]).key@,
            ) by {
                assert(now[p].key@ == before[p].key@);
                assert(now[q].key@ == before[q].key@);
            }
            // the entry sets
            assert forall|k2: GKey, t2: Seq<char>|
                t.contains_entry(k2, t2) implies old(t).contains_entry(k2, t2) || (k2
                == key_v && t2 == s_v) by {
                let j = choose|j: int|
                    0 <= j < now.len() && (#[trigger] now[j]).key@ == k2 && member_of(
                        now[j].members@,
                        t2,
                    );
                if j != i {
                    assert(before[j].key@ == k2 && member_of(before[j].members@, t2));
                } else {
                    if member_of(before[i as int].members@, t2) {
                        assert(before[i as int].key@ == k2);
                    } else {
                        assert(t2 == s_v && k2 == key_v);
                    }
                }
            }
            assert forall|k2: GKey, t2: Seq<char>|
                old(t).contains_entry(k2, t2) || (k2 == key_v && t2 == s_v) implies t.contains_entry(k2, t2) by {
                if old(t).contains_entry(k2, t2) {
                    let j = choose|j: int|
                        0 <= j < before.len() && (#[trigger] before[j]).key@ == k2 && member_of(
                            before[j].members@,
                            t2,
                        );
                    if j != i {
                        assert(now[j].key@ == k2 && member_of(now[j].members@, t2));
                    } else {
                        assert(member_of(g_new.members@, t2));
                        assert(now[i as int].key@ == k2);
                    }
                } else {
                    assert(member_of(g_new.members@, s_v));
                    assert(now[i as int].key@ == key_v);
                }
            }
        }
    } else {
        proof {
            if i < n {
                lemma_key_total(t.groups@[i as int].key@, key_v);
                assert(key_lt(key_v, t.groups@[i as int].key@));
            }
        }
        let mut mem: Vec<Vec<char>> = Vec::new();
        mem.push(s);
        proof {
            assert(mem@ =~= seq![s]);
        }
        let g = Group { key, members: mem };
        let ghost before = t.groups@;
        let ghost g_snap = g;
        t.groups.insert(i, g);
        proof {
            before.insert_ensures(i as int, g_snap);
            let now = t.groups@;
            assert(g_snap.key@ == key_v);
            assert(member_of(g_snap.members@, s_v)) by {
                assert(g_snap.members@[0]@ == s_v);
            }
            assert forall|tt: Seq<char>| member_of(g_snap.members@, tt) implies tt == s_v by {
                let j = choose|j: int|
                    0 <= j < g_snap.members@.len() && (#[trigger] g_snap.members@[j])@ == tt;
            }
            // no old group carries this key
            assert forall|j: int| 0 <= j < before.len() implies (#[trigger] before[j]).key@
                != key_v by {
                if j < i {
                    lemma_key_total(before[j].key@, key_v);
                } else {
                    lemma_key_total(key_v, before[j].key@);
                    if j > i {
                        lemma_key_trans(key_v, before[i as int].key@, before[j].key@);
                    }
                }
            }
            // well-formedness
            assert forall|j: int| 0 <= j < now.len() implies (#[trigger] now[j]).wf() by {
                if j < i {
                    assert(now[j] == before[j]);
                } else if j == i {
                    assert(now[j] == g_snap);
                    assert(members_sorted(g_snap.members@));
                } else {
                    assert(now[j] == before[j - 1]);
                }
            }
            assert forall|p: int, q: int| 0 <= p < q < now.len() implies key_lt(
                (#[trigger] now[p]).key@,
                (#[trigger] now[q]).key@,
            ) by {
                if q < i {
                    assert(now[p] == before[p] && now[q] == before[q]);
                } else if q == i {
                    assert(now[p] == before[p]);
                } else {
                    assert(now[q] == before[q - 1]);
                    if p < i {
                        assert(now[p] == before[p]);
                        if q - 1 == i {
                            if i < before.len() {
                                lemma_key_trans(before[p].key@, key_v, before[i as int].key@);
                            }
                            assert(key_lt(before[p].key@, now[q].key@));
                        }
                    } else if p == i {
                        assert(now[p] == g_snap);
                        if q - 1 > i {
                            lemma_key_trans(key_v, before[i as int].key@, before[q - 1].key@);
                        }
                    } else {
                        assert(now[p] == before[p - 1]);
                    }
                }
            }
            // the entry sets
            assert forall|k2: GKey, t2: Seq<char>|
                t.contains_entry(k2, t2) implies old(t).contains_entry(k2, t2) || (k2
                == key_v && t2 == s_v) by {
                let j = choose|j: int|
                    0 <= j < now.len() && (#[trigger] now[j]).key@ == k2 && member_of(
                        now[j].members@,
                        t2,
                    );
                if j < i {
                    assert(before[j].key@ == k2 && member_of(before[j].members@, t2));
                } else if j == i {
                    assert(k2 == key_v && t2 == s_v);
                } else {
                    assert(before[j - 1].key@ == k2 && member_of(before[j - 1].members@, t2));
                }
            }
            assert forall|k2: GKey, t2: Seq<char>|
                old(t).contains_entry(k2, t2) || (k2 == key_v && t2 == s_v) implies t.contains_entry(k2, t2) by {
                if old(t).contains_entry(k2, t2) {
                    let j = choose|j: int|
                        0 <= j < before.len() && (#[trigger] before[j]).key@ == k2 && member_of(
                            before[j].members@,
                            t2,
                        );
                    if j < i {
                        assert(now[j].key@ == k2 && member_of(now[j].members@, t2));
                    } else {
                        assert(now[j + 1].key@ == k2 && member_of(now[j + 1].members@, t2));
                    }
                } else {
                    assert(now[i as int].key@ == key_v && member_of(now[i as int].members@, s_v));
                }
            }
        }
    }
}

} // verus!
