use newbot::builder::group_emoji;
use newbot::draft::{compose_status, draft_toot, Visibility};
use newbot::table::GroupTable;
use std::collections::HashMap;

fn bytes(s: &str) -> Vec<u8> {
    s.as_bytes().to_vec()
}

fn build(test_data: &str) -> GroupTable {
    group_emoji(&bytes(test_data), &bytes("")).unwrap()
}

const ZWSP: char = '\u{200B}';

#[test]
fn single_group_end_to_end() {
    // one independent group holding the grinning face, no custom emoji:
    // the draft is fully determined
    let t = build("# subgroup: face-smiling\n1F600 ; fully-qualified # grinning face\n");
    let custom: Vec<String> = Vec::new();
    for _ in 0..20 {
        let s = draft_toot(&t, &custom, false);
        assert_eq!(s.status, format!(":newl:{}\u{1F600}{}:newr:", ZWSP, ZWSP));
        assert_eq!(s.visibility, Visibility::Direct);
    }
}

#[test]
fn visibility_follows_the_live_flag() {
    let t = build("# subgroup: face-smiling\n1F600 ; fully-qualified\n");
    let custom: Vec<String> = Vec::new();
    for _ in 0..10 {
        assert_eq!(draft_toot(&t, &custom, false).visibility, Visibility::Direct);
        assert_eq!(
            draft_toot(&t, &custom, true).visibility,
            Visibility::Unlisted
        );
    }
}

#[test]
fn custom_emoji_slot_formats_the_shortcode() {
    let t = build("");
    assert_eq!(t.groups.len(), 0);
    let custom = vec!["blobcat".to_string()];
    let s = draft_toot(&t, &custom, false);
    assert_eq!(s.status, format!(":newl:{}:blobcat:{}:newr:", ZWSP, ZWSP));
}

#[test]
fn compose_status_resolves_each_slot() {
    let t = build(
        "# subgroup: x\n\
         1F600 ; fully-qualified\n\
         1F601 ; fully-qualified\n",
    );
    let custom = vec!["aaa".to_string(), "bbb".to_string()];
    let texts: Vec<String> = (0..4)
        .map(|n| compose_status(&t, &custom, n, 0, false).status)
        .collect();
    assert_eq!(texts[0], format!(":newl:{}\u{1F600}{}:newr:", ZWSP, ZWSP));
    assert_eq!(texts[1], format!(":newl:{}\u{1F601}{}:newr:", ZWSP, ZWSP));
    assert_eq!(texts[2], format!(":newl:{}:aaa:{}:newr:", ZWSP, ZWSP));
    assert_eq!(texts[3], format!(":newl:{}:bbb:{}:newr:", ZWSP, ZWSP));
}

#[test]
fn compose_status_picks_the_member() {
    let t = build(
        "# subgroup: hand\n\
         1F44B ; fully-qualified\n\
         1F44B 1F3FB ; fully-qualified\n",
    );
    // both sequences share one group only when the base is a modifier base
    // here it is not, so they are two independent groups
    assert_eq!(t.groups.len(), 2);
    let custom: Vec<String> = Vec::new();
    let s = compose_status(&t, &custom, 1, 0, false).status;
    assert_eq!(s, format!(":newl:{}\u{1F44B}\u{1F3FB}{}:newr:", ZWSP, ZWSP));
}

#[test]
fn every_draw_is_wrapped_in_sentinels() {
    let t = build(
        "# subgroup: x\n\
         1F600 ; fully-qualified\n\
         1F601 ; fully-qualified\n\
         1F602 ; fully-qualified\n",
    );
    let custom = vec!["aaa".to_string()];
    let left = format!(":newl:{}", ZWSP);
    let right = format!("{}:newr:", ZWSP);
    for i in 0..200 {
        let s = draft_toot(&t, &custom, i % 2 == 0);
        assert!(s.status.starts_with(&left));
        assert!(s.status.ends_with(&right));
    }
}

#[test]
fn slots_are_drawn_uniformly() {
    // three single-member groups and two custom emoji: five slots, each
    // expected in about a fifth of the draws
    let t = build(
        "# subgroup: x\n\
         1F600 ; fully-qualified\n\
         1F601 ; fully-qualified\n\
         1F602 ; fully-qualified\n",
    );
    let custom = vec!["aaa".to_string(), "bbb".to_string()];
    let n = 20000;
    let mut counts: HashMap<String, u32> = HashMap::new();
    for _ in 0..n {
        let s = draft_toot(&t, &custom, false);
        *counts.entry(s.status).or_insert(0) += 1;
    }
    assert_eq!(counts.len(), 5);
    let expected = n / 5;
    for (_, c) in counts {
        // about nine standard deviations of slack: fails only on a broken
        // distribution, not on ordinary luck
        assert!(c > expected - 500 && c < expected + 500);
    }
}

#[test]
fn members_share_their_slot() {
    // one group of two skin-tone variants beside one independent group:
    // the group's slot splits between its members, the independent emoji
    // keeps a full slot
    let t = group_emoji(
        &bytes(
            "# subgroup: hand\n\
             1F44B ; fully-qualified\n\
             1F44B 1F3FB ; fully-qualified\n\
             # subgroup: face\n\
             1F600 ; fully-qualified\n",
        ),
        &bytes("1F44B ; Emoji_Modifier_Base\n"),
    )
    .unwrap();
    assert_eq!(t.groups.len(), 2);
    let custom: Vec<String> = Vec::new();
    let n = 20000;
    let mut grin = 0u32;
    let mut wave_plain = 0u32;
    let mut wave_tone = 0u32;
    for _ in 0..n {
        let s = draft_toot(&t, &custom, false);
        if s.status.contains('\u{1F600}') {
            grin += 1;
        } else if s.status.contains('\u{1F3FB}') {
            wave_tone += 1;
        } else {
            wave_plain += 1;
        }
    }
    // the grinning face takes about half, each waving variant a quarter
    assert!(grin > 9300 && grin < 10700);
    assert!(wave_plain > 4300 && wave_plain < 5700);
    assert!(wave_tone > 4300 && wave_tone < 5700);
}
