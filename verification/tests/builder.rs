use newbot::builder::{emoji_modifier_bases, group_emoji, DataError};
use newbot::keys::GroupKey;
use newbot::table::GroupTable;

fn bytes(s: &str) -> Vec<u8> {
    s.as_bytes().to_vec()
}

fn build(test_data: &str, property_data: &str) -> Result<GroupTable, DataError> {
    group_emoji(&bytes(test_data), &bytes(property_data))
}

fn member_strings(t: &GroupTable, i: usize) -> Vec<String> {
    t.groups[i]
        .members
        .iter()
        .map(|m| m.iter().collect::<String>())
        .collect()
}

#[test]
fn modifier_bases_single_and_range() {
    let data = "1F385 ; Emoji_Modifier_Base # Santa\n\
                261D..261F    ; Emoji_Modifier_Base  # pointing hands\n\
                # a comment line\n\
                1F9B5 ; Some_Other_Property\n";
    let v = emoji_modifier_bases(&bytes(data)).unwrap();
    assert!(v.contains(&'\u{1F385}'));
    assert!(v.contains(&'\u{261D}'));
    assert!(v.contains(&'\u{261E}'));
    assert!(v.contains(&'\u{261F}'));
    assert!(!v.contains(&'\u{261C}'));
    assert!(!v.contains(&'\u{1F9B5}'));
    // the two unconditional additions
    assert!(v.contains(&'\u{1F9DE}'));
    assert!(v.contains(&'\u{1F9DF}'));
}

#[test]
fn modifier_bases_accepts_plus_sign() {
    let v = emoji_modifier_bases(&bytes("+1F44B ; Emoji_Modifier_Base\n")).unwrap();
    assert!(v.contains(&'\u{1F44B}'));
}

#[test]
fn modifier_bases_bad_hex() {
    let r = emoji_modifier_bases(&bytes("XYZ ; Emoji_Modifier_Base\n"));
    assert_eq!(r.unwrap_err(), DataError::BadNumber);
}

#[test]
fn modifier_bases_bad_scalar() {
    let r = emoji_modifier_bases(&bytes("D800 ; Emoji_Modifier_Base\n"));
    assert_eq!(r.unwrap_err(), DataError::BadScalar);
    let r = emoji_modifier_bases(&bytes("110000 ; Emoji_Modifier_Base\n"));
    assert_eq!(r.unwrap_err(), DataError::BadScalar);
}

#[test]
fn single_independent_group() {
    let t = build(
        "# subgroup: face-smiling\n1F600 ; fully-qualified # grinning face\n",
        "",
    )
    .unwrap();
    assert_eq!(t.groups.len(), 1);
    assert!(matches!(&t.groups[0].key, GroupKey::Independent(v) if *v == vec!['\u{1F600}']));
    assert_eq!(member_strings(&t, 0), vec!["\u{1F600}".to_string()]);
}

#[test]
fn skin_tone_variants_share_one_group() {
    let t = build(
        "# subgroup: hand-fingers-open\n\
         1F44B ; fully-qualified # waving hand\n\
         1F44B 1F3FB ; fully-qualified # light skin tone\n\
         1F44B 1F3FC ; fully-qualified # medium-light skin tone\n",
        "1F44B ; Emoji_Modifier_Base\n",
    )
    .unwrap();
    assert_eq!(t.groups.len(), 1);
    assert!(matches!(&t.groups[0].key, GroupKey::ModifierBase(c) if *c == '\u{1F44B}'));
    assert_eq!(t.groups[0].members.len(), 3);
}

#[test]
fn family_classification() {
    // man, joiner, woman, joiner, boy: within the family-member alphabet
    // man, joiner, handshake, joiner, man: carries the handshake glyph
    let t = build(
        "# subgroup: family\n\
         1F468 200D 1F469 200D 1F466 ; fully-qualified\n\
         1F468 200D 1F91D 200D 1F468 ; fully-qualified\n",
        "",
    )
    .unwrap();
    assert_eq!(t.groups.len(), 2);
    assert!(t
        .groups
        .iter()
        .any(|g| matches!(g.key, GroupKey::Family) && g.members.len() == 1));
    assert!(t
        .groups
        .iter()
        .any(|g| matches!(g.key, GroupKey::HoldingHands) && g.members.len() == 1));
}

#[test]
fn kiss_beats_couple_and_legacy_couples_leave() {
    let t = build(
        "# subgroup: family\n\
         1F469 200D 2764 FE0F 200D 1F468 ; fully-qualified # couple with heart\n\
         1F469 200D 2764 FE0F 200D 1F48B 200D 1F468 ; fully-qualified # kiss\n\
         1F491 ; fully-qualified # legacy couple, excluded\n\
         1F46D ; fully-qualified # women holding hands\n",
        "",
    )
    .unwrap();
    assert_eq!(t.groups.len(), 3);
    assert!(t.groups.iter().any(|g| matches!(g.key, GroupKey::Couple)));
    assert!(t.groups.iter().any(|g| matches!(g.key, GroupKey::Kiss)));
    assert!(t
        .groups
        .iter()
        .any(|g| matches!(g.key, GroupKey::HoldingHands)));
}

#[test]
fn unfamiliar_family_sequence_fails_the_build() {
    let r = build(
        "# subgroup: family\n1F9D1 200D 1F384 ; fully-qualified\n",
        "",
    );
    assert_eq!(r.unwrap_err(), DataError::UnfamiliarFamily);
}

#[test]
fn empty_sequence_fails_the_build() {
    let r = build("; fully-qualified\n", "");
    assert_eq!(r.unwrap_err(), DataError::EmptySequence);
}

#[test]
fn bad_code_point_fails_the_build() {
    let r = build("# subgroup: x\n1F600 GGGG ; fully-qualified\n", "");
    assert_eq!(r.unwrap_err(), DataError::BadNumber);
    let r = build("# subgroup: x\nDFFF ; fully-qualified\n", "");
    assert_eq!(r.unwrap_err(), DataError::BadScalar);
}

#[test]
fn non_qualified_lines_are_skipped() {
    let t = build(
        "# subgroup: face-affection\n\
         263A ; unqualified # smiling face\n\
         263A FE0F ; fully-qualified # smiling face\n",
        "",
    )
    .unwrap();
    assert_eq!(t.groups.len(), 1);
    assert_eq!(member_strings(&t, 0), vec!["\u{263A}\u{FE0F}".to_string()]);
}

#[test]
fn denylisted_sequences_never_appear() {
    let t = build(
        "# subgroup: person-role\n\
         1F46E ; fully-qualified # police officer\n\
         1F46E 200D 2640 FE0F ; fully-qualified # woman police officer\n\
         # subgroup: transport-ground\n\
         1F693 ; fully-qualified # police car\n\
         1F694 ; fully-qualified # oncoming police car\n\
         # subgroup: transport-sign\n\
         1F6C2 ; fully-qualified # passport control\n\
         1F6C3 ; fully-qualified # customs\n",
        "1F46E ; Emoji_Modifier_Base\n",
    )
    .unwrap();
    assert_eq!(t.groups.len(), 0);
}

#[test]
fn skipped_subgroups_leave_no_groups() {
    let t = build(
        "# subgroup: skin-tone\n1F3FB ; fully-qualified\n\
         # subgroup: hair-style\n1F9B0 ; fully-qualified\n\
         # subgroup: country-flag\n1F1E6 1F1E8 ; fully-qualified\n\
         # subgroup: subdivision-flag\n1F3F4 E0067 E0062 E0065 E006E E0067 E007F ; fully-qualified\n",
        "",
    )
    .unwrap();
    assert_eq!(t.groups.len(), 0);
}

#[test]
fn duplicate_sequences_are_deduplicated() {
    let t = build(
        "# subgroup: x\n1F600 ; fully-qualified\n1F600 ; fully-qualified\n",
        "",
    )
    .unwrap();
    assert_eq!(t.groups.len(), 1);
    assert_eq!(t.groups[0].members.len(), 1);
}

#[test]
fn keycap_and_time_groups() {
    let t = build(
        "# subgroup: keycap\n\
         0023 FE0F 20E3 ; fully-qualified\n\
         002A FE0F 20E3 ; fully-qualified\n\
         # subgroup: time\n\
         1F550 ; fully-qualified # one o'clock\n\
         1F551 ; fully-qualified # two o'clock\n\
         231A ; fully-qualified # watch, outside the clock-face range\n",
        "",
    )
    .unwrap();
    // independent first, then keycap, then time, in the kind order
    assert_eq!(t.groups.len(), 3);
    assert!(matches!(&t.groups[0].key, GroupKey::Independent(v) if *v == vec!['\u{231A}']));
    assert!(matches!(t.groups[1].key, GroupKey::Keycap));
    assert_eq!(t.groups[1].members.len(), 2);
    assert!(matches!(t.groups[2].key, GroupKey::Time));
    assert_eq!(t.groups[2].members.len(), 2);
}

#[test]
fn person_and_role_groups() {
    let t = build(
        "# subgroup: person\n\
         1F9D1 ; fully-qualified # person\n\
         1F9D1 1F3FB ; fully-qualified # person, light skin tone\n\
         # subgroup: person-role\n\
         1F9D1 200D 2695 FE0F ; fully-qualified # health worker\n\
         1F468 200D 2695 FE0F ; fully-qualified # man health worker\n",
        "",
    )
    .unwrap();
    // one person group keyed by the leading code point, and one role group
    // keyed by the shared last code point of the joined sequences
    assert_eq!(t.groups.len(), 2);
    assert!(matches!(&t.groups[0].key, GroupKey::Person(c) if *c == '\u{1F9D1}'));
    assert_eq!(t.groups[0].members.len(), 2);
    assert!(matches!(&t.groups[1].key, GroupKey::Role(c) if *c == '\u{FE0F}'));
    assert_eq!(t.groups[1].members.len(), 2);
}

#[test]
fn crlf_data_parses_the_same() {
    let t = build(
        "# subgroup: face-smiling\r\n1F600 ; fully-qualified # grinning face\r\n",
        "",
    )
    .unwrap();
    assert_eq!(t.groups.len(), 1);
    assert_eq!(member_strings(&t, 0), vec!["\u{1F600}".to_string()]);
}

#[test]
fn lines_before_any_header_still_classify() {
    let t = build("1F600 ; fully-qualified\n", "").unwrap();
    assert_eq!(t.groups.len(), 1);
    assert!(matches!(&t.groups[0].key, GroupKey::Independent(v) if *v == vec!['\u{1F600}']));
}

#[test]
fn property_faults_come_before_test_faults() {
    let r = group_emoji(
        &bytes("ZZZ ; fully-qualified\n"),
        &bytes("D800 ; Emoji_Modifier_Base\n"),
    );
    assert_eq!(r.unwrap_err(), DataError::BadScalar);
}

#[test]
fn the_first_faulting_line_wins() {
    let r = build(
        "# subgroup: family\n\
         1F9D1 200D 1F384 ; fully-qualified\n\
         ZZZ ; fully-qualified\n",
        "",
    );
    assert_eq!(r.unwrap_err(), DataError::UnfamiliarFamily);
}

#[test]
fn realistic_data_layout_parses() {
    // column-aligned layout as the Unicode data files print it, with
    // group headers, qualification variants, and version comments
    let test_data = "\
# emoji-test.txt\n\
# Format: code points; status # emoji name\n\
\n\
# group: Smileys & Emotion\n\
\n\
# subgroup: face-smiling\n\
1F600                                                  ; fully-qualified     # \u{1F600} E1.0 grinning face\n\
263A FE0F                                              ; fully-qualified     # \u{263A}\u{FE0F} E0.6 smiling face\n\
263A                                                   ; unqualified         # \u{263A} E0.6 smiling face\n\
\n\
# subgroup: hand-fingers-open\n\
1F44B                                                  ; fully-qualified     # \u{1F44B} E0.6 waving hand\n\
1F44B 1F3FB                                            ; fully-qualified     # \u{1F44B}\u{1F3FB} E1.0 waving hand: light skin tone\n\
";
    let property_data = "\
# emoji-data.txt\n\
1F385         ; Emoji_Modifier_Base  # E1.0   [1] (\u{1F385})       Santa Claus\n\
1F442..1F443  ; Emoji_Modifier_Base  # E0.6   [2] (\u{1F442}..\u{1F443})    ear..nose\n\
1F44B         ; Emoji_Modifier_Base  # E0.6   [1] (\u{1F44B})       waving hand\n\
";
    let t = group_emoji(&bytes(test_data), &bytes(property_data)).unwrap();
    // two independent faces, one modifier-base hand group of two members
    assert_eq!(t.groups.len(), 3);
    assert!(matches!(&t.groups[0].key, GroupKey::Independent(v) if *v == vec!['\u{263A}', '\u{FE0F}']));
    assert!(matches!(&t.groups[1].key, GroupKey::Independent(v) if *v == vec!['\u{1F600}']));
    assert!(matches!(&t.groups[2].key, GroupKey::ModifierBase(c) if *c == '\u{1F44B}'));
    assert_eq!(t.groups[2].members.len(), 2);
}

#[test]
fn groups_come_out_sorted_and_deduplicated() {
    let t = build(
        "# subgroup: x\n\
         1F602 ; fully-qualified\n\
         1F600 ; fully-qualified\n\
         1F601 ; fully-qualified\n",
        "",
    )
    .unwrap();
    assert_eq!(t.groups.len(), 3);
    let firsts: Vec<String> = (0..3).map(|i| member_strings(&t, i)[0].clone()).collect();
    assert_eq!(firsts, vec!["\u{1F600}", "\u{1F601}", "\u{1F602}"]);
}
