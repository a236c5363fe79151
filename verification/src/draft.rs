//! The toot drafter: a uniform draw over the selection groups and the
//! instance's custom emoji, resolved to text and wrapped in the sentinel
//! shortcodes.

use crate::table::GroupTable;
use vstd::prelude::*;
use vstd::string::StringExecFns;

verus! {

/// Where a posted status is visible: privately addressed, or on the
/// instance without appearing on public timelines.
#[derive(Debug, Clone, Copy, PartialEq, Eq, Structural)]
pub enum Visibility {
    Direct,
    Unlisted,
}

/// A drafted status: the final text and its visibility.
#[derive(Debug)]
pub struct NewStatus {
    pub status: String,
    pub visibility: Visibility,
}

/// The text to the left of the chosen emoji: a sentinel shortcode and a
/// zero-width space.
pub open spec fn left_sentinel() -> Seq<char> {
    ":newl:\u{200b}"@
}

/// The text to the right of the chosen emoji: a zero-width space and a
/// sentinel shortcode.
pub open spec fn right_sentinel() -> Seq<char> {
    "\u{200b}:newr:"@
}

/// The status text: the chosen emoji between the sentinels.
pub open spec fn status_text(emoji: Seq<char>) -> Seq<char> {
    left_sentinel() + emoji + right_sentinel()
}

/// The number of equally probable slots: one per group, one per custom
/// emoji.
pub open spec fn slot_count(t: GroupTable, custom: Seq<String>) -> int {
    t.groups@.len() + custom.len() as int
}

/// The emoji text of slot `n` with member choice `m`: member `m` of group
/// `n`, or for `n` past the groups the custom emoji shortcode between
/// colons.
pub open spec fn chosen_emoji(t: GroupTable, custom: Seq<String>, n: int, m: int) -> Seq<char> {
    if n < t.groups@.len() {
        t.groups@[n].members@[m]@
    } else {
        seq![':'] + custom[n - t.groups@.len()]@ + seq![':']
    }
}

/// The draw `(n, m)` picks an existing slot, and an existing member when
/// the slot is a group.
pub open spec fn valid_draw(t: GroupTable, custom: Seq<String>, n: int, m: int) -> bool {
    &&& 0 <= n < slot_count(t, custom)
    &&& 0 <= m
    &&& n < t.groups@.len() ==> m < t.groups@[n].members@.len()
}

/// Relies on rand's `ThreadRng` type, carried opaquely.
#[verifier::external_type_specification]
#[verifier::external_body]
pub struct ExThreadRng(rand::rngs::ThreadRng);

/// Relies on rand's `thread_rng`: a handle to the thread-local generator.
#[verifier::external_body]
fn fresh_rng() -> rand::rngs::ThreadRng {
    rand::thread_rng()
}

/// Relies on rand's `Rng::gen_range` on `0..n`: returns a value below
/// `n`; the empty range, on which it panics, is excluded here.
#[verifier::external_body]
fn gen_below(rng: &mut rand::rngs::ThreadRng, n: usize) -> (r: usize)
    requires
        n > 0,
    ensures
        r < n,
{
    rand::Rng::gen_range(rng, 0..n)
}

/// Relies on `String::push`: appends the character to the end.
#[verifier::external_body]
fn push_char(s: &mut String, c: char)
    ensures
        final(s)@ == old(s)@.push(c),
{
    s.push(c);
}

/// Builds the status for slot `n` with member choice `m`: the resolved
/// emoji text between the sentinels, and the visibility the live flag
/// demands.
pub fn compose_status(t: &GroupTable, custom: &Vec<String>, n: usize, m: usize, live: bool) -> (r:
    NewStatus)
    requires
        valid_draw(*t, custom@, n as int, m as int),
    ensures
        r.status@ == status_text(chosen_emoji(*t, custom@, n as int, m as int)),
        r.visibility == (if live {
            Visibility::Unlisted
        } else {
            Visibility::Direct
        }),
{
    let ghost emoji = chosen_emoji(*t, custom@, n as int, m as int);
    let mut text = String::new();
    text.append(":newl:\u{200b}");
    proof {
        assert(text@ =~= left_sentinel());
    }
    if n < t.groups.len() {
        let mem = &t.groups[n].members[m];
        let len = mem.len();
        proof {
            assert(mem@.take(0) =~= Seq::<char>::empty());
            assert(text@ + Seq::<char>::empty() =~= text@);
        }
        let mut i: usize = 0;
        while i < len
            invariant
                i <= len == mem@.len(),
                mem@ == t.groups@[n as int].members@[m as int]@,
                n < t.groups@.len(),
                text@ == left_sentinel() + mem@.take(i as int),
            decreases len - i,
        {
            push_char(&mut text, mem[i]);
            proof {
                assert(mem@.take(i + 1) =~= mem@.take(i as int).push(mem@[i as int]));
                assert(left_sentinel() + mem@.take(i + 1) =~= (left_sentinel() + mem@.take(
                    i as int,
                )).push(mem@[i as int]));
            }
            i = i + 1;
        }
        proof {
            assert(mem@.take(len as int) =~= mem@);
        }
    } else {
        let idx = n - t.groups.len();
        push_char(&mut text, ':');
        text.append(custom[idx].as_str());
        push_char(&mut text, ':');
        proof {
            assert(text@ =~= left_sentinel() + (seq![':'] + custom@[n - t.groups@.len()]@
                + seq![':']));
        }
    }
    proof {
        assert(text@ == left_sentinel() + emoji);
    }
    text.append("\u{200b}:newr:");
    proof {
        assert((left_sentinel() + emoji) + right_sentinel() =~= left_sentinel() + emoji
            + right_sentinel());
    }
    NewStatus {
        status: text,
        visibility: if live {
            Visibility::Unlisted
        } else {
            Visibility::Direct
        },
    }
}

/// Drafts one status: slot drawn uniformly over groups and custom emoji,
/// a member drawn uniformly within a drawn group, the pick wrapped in the
/// sentinels. The visibility follows the live flag alone.
pub fn draft_toot(table: &GroupTable, custom: &Vec<String>, live: bool) -> (r: NewStatus)
    requires
        table.wf(),
        slot_count(*table, custom@) > 0,
        table.groups@.len() + custom@.len() <= usize::MAX,
    ensures
        exists|n: int, m: int|
            #[trigger] valid_draw(*table, custom@, n, m) && r.status@ == status_text(
                chosen_emoji(*table, custom@, n, m),
            ),
        r.visibility == (if live {
            Visibility::Unlisted
        } else {
            Visibility::Direct
        }),
{
    let g = table.groups.len();
    let total = g + custom.len();
    let mut rng = fresh_rng();
    let n = gen_below(&mut rng, total);
    let m = if n < g {
        let len = table.groups[n].members.len();
        if len == 1 {
            0
        } else {
            gen_below(&mut rng, len)
        }
    } else {
        0
    };
    proof {
        assert(valid_draw(*table, custom@, n as int, m as int));
    }
    let r = compose_status(table, custom, n, m, live);
    proof {
        assert(valid_draw(*table, custom@, n as int, m as int) && r.status@ == status_text(
            chosen_emoji(*table, custom@, n as int, m as int),
        ));
    }
    r
}

/// Sentinel wrapping: for every possible draw, the status text begins
/// with the left sentinel and zero-width space, and ends with the
/// zero-width space and right sentinel.
pub proof fn lemma_sentinel_wrapping(emoji: Seq<char>)
    ensures
        status_text(emoji).len() >= 14,
        status_text(emoji).take(7) == left_sentinel(),
        status_text(emoji).skip(status_text(emoji).len() - 7) == right_sentinel(),
{
    reveal_strlit(":newl:\u{200b}");
    reveal_strlit("\u{200b}:newr:");
    assert(left_sentinel().len() == 7);
    assert(right_sentinel().len() == 7);
    assert(status_text(emoji).take(7) =~= left_sentinel());
    assert(status_text(emoji).skip(status_text(emoji).len() - 7) =~= right_sentinel());
}

} // verus!
