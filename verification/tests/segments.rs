use hithit::decode::MessageEntity;
use hithit::kind::FormatKind;
use hithit::kind_set::KindSet;
use hithit::segments::{Segment, Segments};
use hithit::user::User;

fn kinds_of(kinds: Vec<FormatKind>) -> KindSet {
    let mut set = KindSet::new();
    for kind in kinds {
        set.insert(kind);
    }
    set
}

fn run(kinds: Vec<FormatKind>, text: &str) -> Segment {
    Segment { kind: kinds_of(kinds), text: text.to_string() }
}

fn runs(items: Vec<Segment>) -> Segments {
    Segments::from(items)
}

fn someone(id: u64, first: &str) -> User {
    User {
        id,
        is_bot: false,
        first_name: first.to_string(),
        last_name: None,
        username: None,
        language_code: None,
        is_premium: false,
        added_to_attachment_menu: false,
    }
}

#[test]
fn build_bold_prefix() {
    let built = Segments::build("hello world", &[MessageEntity::new(FormatKind::Bold, 0, 5)]);
    assert_eq!(
        built,
        runs(vec![run(vec![FormatKind::Bold], "hello"), run(vec![], " world")])
    );
}

#[test]
fn build_without_ranges_gives_one_plain_run() {
    let built = Segments::build("plain", &[]);
    assert_eq!(built, runs(vec![run(vec![], "plain")]));
}

#[test]
fn build_empty_text_gives_no_run() {
    let built = Segments::build("", &[]);
    assert_eq!(built.len(), 0);
    assert!(built.is_empty());
}

#[test]
fn build_empty_text_with_empty_range_gives_no_run() {
    let built = Segments::build("", &[MessageEntity::new(FormatKind::Bold, 0, 0)]);
    assert_eq!(built.len(), 0);
}

#[test]
fn build_bold_suffix_leaves_no_empty_run() {
    let built = Segments::build("hello world", &[MessageEntity::new(FormatKind::Bold, 6, 5)]);
    assert_eq!(
        built,
        runs(vec![run(vec![], "hello "), run(vec![FormatKind::Bold], "world")])
    );
}

#[test]
fn build_nested_ranges_unite_their_kinds() {
    let built = Segments::build(
        "abcdefgh",
        &[
            MessageEntity::new(FormatKind::Italic, 2, 3),
            MessageEntity::new(FormatKind::Bold, 0, 6),
        ],
    );
    assert_eq!(
        built,
        runs(vec![
            run(vec![FormatKind::Bold], "ab"),
            run(vec![FormatKind::Bold, FormatKind::Italic], "cde"),
            run(vec![FormatKind::Bold], "f"),
            run(vec![], "gh"),
        ])
    );
}

#[test]
fn build_same_start_opens_the_wider_first() {
    let built = Segments::build(
        "abcdef",
        &[
            MessageEntity::new(FormatKind::Italic, 0, 2),
            MessageEntity::new(FormatKind::Bold, 0, 4),
        ],
    );
    assert_eq!(
        built,
        runs(vec![
            run(vec![FormatKind::Bold, FormatKind::Italic], "ab"),
            run(vec![FormatKind::Bold], "cd"),
            run(vec![], "ef"),
        ])
    );
}

#[test]
fn build_touching_ranges_stay_two_runs() {
    let built = Segments::build(
        "abcdef",
        &[
            MessageEntity::new(FormatKind::Bold, 0, 3),
            MessageEntity::new(FormatKind::Bold, 3, 3),
        ],
    );
    assert_eq!(
        built,
        runs(vec![run(vec![FormatKind::Bold], "abc"), run(vec![FormatKind::Bold], "def")])
    );
}

#[test]
fn build_counts_in_utf16_code_units() {
    // U+1F600 takes two code units, so "b" stands at offset 3.
    let built = Segments::build("a\u{1F600}b", &[MessageEntity::new(FormatKind::Code, 3, 1)]);
    assert_eq!(
        built,
        runs(vec![run(vec![], "a\u{1F600}"), run(vec![FormatKind::Code], "b")])
    );
    assert_eq!(built.text(), "a\u{1F600}b");
}

#[test]
fn build_range_over_a_surrogate_pair() {
    let built = Segments::build("a\u{1F600}b", &[MessageEntity::new(FormatKind::Bold, 1, 2)]);
    assert_eq!(
        built,
        runs(vec![
            run(vec![], "a"),
            run(vec![FormatKind::Bold], "\u{1F600}"),
            run(vec![], "b"),
        ])
    );
}

#[test]
fn build_cut_inside_a_surrogate_pair_replaces_both_halves() {
    let built = Segments::build("\u{1F600}", &[MessageEntity::new(FormatKind::Bold, 0, 1)]);
    assert_eq!(
        built,
        runs(vec![run(vec![FormatKind::Bold], "\u{FFFD}"), run(vec![], "\u{FFFD}")])
    );
}

#[test]
fn build_empty_range_cuts_the_text() {
    let built = Segments::build("abcd", &[MessageEntity::new(FormatKind::Bold, 2, 0)]);
    assert_eq!(built, runs(vec![run(vec![], "ab"), run(vec![], "cd")]));
}

#[test]
fn build_empty_range_at_the_end_is_harmless() {
    let built = Segments::build("abc", &[MessageEntity::new(FormatKind::Bold, 3, 0)]);
    assert_eq!(built, runs(vec![run(vec![], "abc")]));
    assert_eq!(built.text(), "abc");
}

#[test]
fn build_partly_overlapping_ranges_keep_the_text() {
    let built = Segments::build(
        "abcdefghij",
        &[
            MessageEntity::new(FormatKind::Bold, 0, 5),
            MessageEntity::new(FormatKind::Italic, 3, 5),
            MessageEntity::new(FormatKind::Code, 9, 1),
        ],
    );
    assert_eq!(built.text(), "abcdefghij");
    assert_eq!(
        built,
        runs(vec![
            run(vec![FormatKind::Bold], "abc"),
            run(vec![FormatKind::Bold, FormatKind::Italic], "defgh"),
            run(vec![], "i"),
            run(vec![FormatKind::Code], "j"),
        ])
    );
}

#[test]
fn build_keeps_the_text() {
    let text = "Hi \u{1F600} there, \u{4F60}\u{597D}!";
    let built = Segments::build(
        text,
        &[
            MessageEntity::new(FormatKind::Bold, 0, 2),
            MessageEntity::new(FormatKind::Italic, 3, 8),
            MessageEntity::new(FormatKind::Underline, 3, 2),
            MessageEntity::new(FormatKind::Code, 13, 2),
        ],
    );
    assert_eq!(built.text(), text);
}

#[test]
fn build_mention_kind_is_carried() {
    let mention = FormatKind::TextMention { user: someone(7, "Ann") };
    let built = Segments::build("to Ann", &[MessageEntity::new(mention.clone(), 3, 3)]);
    assert_eq!(built, runs(vec![run(vec![], "to "), run(vec![mention], "Ann")]));
}

#[test]
fn can_build_tells_ranges_within_from_ranges_beyond() {
    assert!(Segments::can_build("abc", &[MessageEntity::new(FormatKind::Bold, 1, 2)]));
    assert!(Segments::can_build("abc", &[MessageEntity::new(FormatKind::Bold, 3, 0)]));
    assert!(!Segments::can_build("abc", &[MessageEntity::new(FormatKind::Bold, 1, 3)]));
    assert!(!Segments::can_build("abc", &[MessageEntity::new(FormatKind::Bold, 4, 0)]));
    assert!(!Segments::can_build("abc", &[MessageEntity::new(FormatKind::Bold, 1, usize::MAX)]));
    // two code units for one character
    assert!(Segments::can_build("\u{1F600}", &[MessageEntity::new(FormatKind::Bold, 0, 2)]));
    assert!(!Segments::can_build("\u{1F600}", &[MessageEntity::new(FormatKind::Bold, 0, 3)]));
}

#[test]
fn text_joins_the_runs() {
    let s = runs(vec![run(vec![FormatKind::Bold], "ab"), run(vec![], ""), run(vec![], "cd")]);
    assert_eq!(s.text(), "abcd");
    assert_eq!(runs(vec![]).text(), "");
}

#[test]
fn entities_of_one_bold_run() {
    let s = runs(vec![run(vec![FormatKind::Bold], "hello"), run(vec![], " world")]);
    assert_eq!(s.entities(), vec![MessageEntity::new(FormatKind::Bold, 0, 5)]);
}

#[test]
fn entities_merge_runs_that_touch() {
    let s = runs(vec![
        run(vec![FormatKind::Bold], "ab"),
        run(vec![FormatKind::Bold, FormatKind::Italic], "cd"),
        run(vec![FormatKind::Bold], "ef"),
        run(vec![], "gh"),
        run(vec![FormatKind::Bold], "ij"),
    ]);
    assert_eq!(
        s.entities(),
        vec![
            MessageEntity::new(FormatKind::Bold, 0, 6),
            MessageEntity::new(FormatKind::Bold, 8, 2),
            MessageEntity::new(FormatKind::Italic, 2, 2),
        ]
    );
}

#[test]
fn entities_come_by_kind_then_by_offset() {
    let s = runs(vec![
        run(vec![FormatKind::Code], "a"),
        run(vec![FormatKind::Mention], "b"),
        run(vec![FormatKind::Code], "c"),
        run(vec![FormatKind::Bold], "d"),
        run(vec![FormatKind::Mention], "e"),
    ]);
    assert_eq!(
        s.entities(),
        vec![
            MessageEntity::new(FormatKind::Mention, 1, 1),
            MessageEntity::new(FormatKind::Mention, 4, 1),
            MessageEntity::new(FormatKind::Bold, 3, 1),
            MessageEntity::new(FormatKind::Code, 0, 1),
            MessageEntity::new(FormatKind::Code, 2, 1),
        ]
    );
}

#[test]
fn entities_measure_in_utf16_code_units() {
    let s = runs(vec![run(vec![], "\u{1F600}"), run(vec![FormatKind::Bold], "x\u{1F600}")]);
    assert_eq!(s.entities(), vec![MessageEntity::new(FormatKind::Bold, 2, 3)]);
}

#[test]
fn entities_skip_empty_runs() {
    let s = runs(vec![run(vec![FormatKind::Bold], ""), run(vec![], "x")]);
    assert_eq!(s.entities(), vec![]);
    assert_eq!(runs(vec![]).entities(), vec![]);
}

#[test]
fn entities_tell_kinds_with_different_content_apart() {
    let a = FormatKind::TextLink { url: "https://a.example/".to_string() };
    let b = FormatKind::TextLink { url: "https://b.example/".to_string() };
    let s = runs(vec![run(vec![b.clone()], "bb"), run(vec![a.clone()], "aa")]);
    assert_eq!(s.entities(), vec![MessageEntity::new(a, 2, 2), MessageEntity::new(b, 0, 2)]);
}

#[test]
fn round_trip_gives_the_ranges_back() {
    let given = vec![
        MessageEntity::new(FormatKind::Bold, 0, 6),
        MessageEntity::new(FormatKind::Italic, 2, 3),
        MessageEntity::new(FormatKind::Code, 7, 1),
    ];
    let built = Segments::build("abcdefgh", &given);
    assert_eq!(built.entities(), given);
}

#[test]
fn round_trip_merges_ranges_that_overlap_or_repeat() {
    let built = Segments::build(
        "abcdefgh",
        &[
            MessageEntity::new(FormatKind::Bold, 0, 3),
            MessageEntity::new(FormatKind::Bold, 3, 2),
            MessageEntity::new(FormatKind::Bold, 0, 3),
        ],
    );
    assert_eq!(built.entities(), vec![MessageEntity::new(FormatKind::Bold, 0, 5)]);
}

#[test]
fn encodable_for_ordinary_runs() {
    assert!(runs(vec![run(vec![], "abc")]).encodable());
    assert!(runs(vec![]).encodable());
}

#[test]
fn trim_takes_white_space_off_both_ends() {
    let s = runs(vec![
        run(vec![], "  "),
        run(vec![FormatKind::Bold], " \tab "),
        run(vec![], "cd \n"),
        run(vec![FormatKind::Code], "\u{3000} "),
    ]);
    assert_eq!(
        s.trim(),
        runs(vec![run(vec![FormatKind::Bold], "ab "), run(vec![], "cd")])
    );
}

#[test]
fn trim_start_and_trim_end_work_alone() {
    let s = runs(vec![run(vec![], " a "), run(vec![], " b ")]);
    assert_eq!(s.clone().trim_start(), runs(vec![run(vec![], "a "), run(vec![], " b ")]));
    assert_eq!(s.trim_end(), runs(vec![run(vec![], " a "), run(vec![], " b")]));
}

#[test]
fn trim_of_white_space_only_gives_nothing() {
    let s = runs(vec![run(vec![], " "), run(vec![FormatKind::Bold], "\n\t")]);
    assert_eq!(s.trim(), runs(vec![]));
    assert_eq!(runs(vec![]).trim(), runs(vec![]));
}

#[test]
fn trim_keeps_white_space_inside() {
    let s = runs(vec![run(vec![], "a"), run(vec![], "   "), run(vec![], "b")]);
    assert_eq!(s.clone().trim(), s);
}

#[test]
fn trim_twice_is_trim_once() {
    let s = runs(vec![
        run(vec![], " \u{A0}"),
        run(vec![FormatKind::Bold], " x y "),
        run(vec![], " "),
    ]);
    let once = s.trim();
    let twice = once.clone().trim();
    assert_eq!(once, twice);
    assert_eq!(once, runs(vec![run(vec![FormatKind::Bold], "x y")]));
}

#[test]
fn drain_head_within_the_first_run() {
    let s = runs(vec![run(vec![FormatKind::Bold], "/hit"), run(vec![], " you")]);
    assert_eq!(
        s.drain_head(1),
        Some(runs(vec![run(vec![FormatKind::Bold], "hit"), run(vec![], " you")]))
    );
}

#[test]
fn drain_head_across_runs() {
    let s = runs(vec![run(vec![FormatKind::Bold], "ab"), run(vec![], "cde")]);
    assert_eq!(s.drain_head(3), Some(runs(vec![run(vec![], "de")])));
}

#[test]
fn drain_head_keeps_the_run_in_which_it_ends() {
    let s = runs(vec![run(vec![FormatKind::Bold], "ab"), run(vec![], "cd")]);
    assert_eq!(
        s.drain_head(2),
        Some(runs(vec![run(vec![FormatKind::Bold], ""), run(vec![], "cd")]))
    );
}

#[test]
fn drain_head_of_nothing_changes_nothing() {
    let s = runs(vec![run(vec![], "ab")]);
    assert_eq!(s.clone().drain_head(0), Some(s));
}

#[test]
fn drain_head_of_too_much_gives_nothing() {
    let s = runs(vec![run(vec![], "ab"), run(vec![], "c")]);
    assert_eq!(s.drain_head(4), None);
    assert_eq!(runs(vec![]).drain_head(1), None);
}

#[test]
fn drain_head_counts_characters_not_code_units() {
    let s = runs(vec![run(vec![], "\u{1F600}ab")]);
    assert_eq!(s.drain_head(1), Some(runs(vec![run(vec![], "ab")])));
}

#[test]
fn segment_empty_is_one_space() {
    assert_eq!(Segment::empty(), run(vec![], " "));
}

#[test]
fn segment_default_is_empty_text() {
    assert_eq!(Segment::default(), run(vec![], ""));
}

#[test]
fn segment_from_user_shows_the_full_name() {
    let mut ann = someone(1, "Ann");
    ann.last_name = Some("Lee".to_string());
    assert_eq!(
        Segment::from_user(ann.clone()),
        run(vec![FormatKind::TextMention { user: ann.clone() }], "Ann Lee")
    );
    let bob = someone(2, "Bob");
    assert_eq!(
        Segment::from_user(bob.clone()),
        run(vec![FormatKind::TextMention { user: bob }], "Bob")
    );
    assert_eq!(
        Segment::from_user_with_name(ann.clone(), "you".to_string()),
        run(vec![FormatKind::TextMention { user: ann }], "you")
    );
}

#[test]
fn segments_push_and_read() {
    let mut s = runs(vec![run(vec![], "b")]);
    s.push_back(run(vec![], "c"));
    s.push_front(run(vec![], "a"));
    assert_eq!(s.len(), 3);
    assert_eq!(s.get(0), &run(vec![], "a"));
    assert_eq!(s.back(), Some(&run(vec![], "c")));
    assert_eq!(runs(vec![]).back(), None);
    assert_eq!(Segments::default(), runs(vec![]));
    assert_eq!(Segments::new(std::collections::VecDeque::new()), runs(vec![]));
}

#[test]
fn kind_set_is_a_set() {
    let mut set = KindSet::new();
    assert!(set.is_empty());
    set.insert(FormatKind::Code);
    set.insert(FormatKind::Bold);
    set.insert(FormatKind::Code);
    assert_eq!(set.len(), 2);
    assert!(set.contains(&FormatKind::Bold));
    assert!(!set.contains(&FormatKind::Italic));
    assert_eq!(set.get(0), &FormatKind::Bold);
    assert_eq!(set.get(1), &FormatKind::Code);
    assert_eq!(set, kinds_of(vec![FormatKind::Bold, FormatKind::Code]));
    let other = kinds_of(vec![FormatKind::Italic, FormatKind::Bold]);
    assert_eq!(
        set.union(&other),
        kinds_of(vec![FormatKind::Bold, FormatKind::Italic, FormatKind::Code])
    );
}

#[test]
fn runs_and_mentions_by_conversion() {
    let ann = someone(1, "Ann");
    let by_value: Segment = ann.clone().into();
    let by_reference: Segment = (&ann).into();
    assert_eq!(by_value, Segment::from_user(ann.clone()));
    assert_eq!(by_reference, Segment::from_user(ann));
    let converted: Segments = vec![run(vec![], "a"), run(vec![FormatKind::Bold], "b")].into();
    assert_eq!(converted, runs(vec![run(vec![], "a"), run(vec![FormatKind::Bold], "b")]));
    assert_eq!(converted.len(), 2);
}

#[test]
fn runs_are_read_and_changed_as_a_queue() {
    let mut s = runs(vec![run(vec![], "a"), run(vec![], "b")]);
    let texts: Vec<&str> = s.iter().map(|r| r.text.as_str()).collect();
    assert_eq!(texts, vec!["a", "b"]);
    s.pop_front();
    s.iter_mut().for_each(|r| r.text.push('!'));
    assert_eq!(s, runs(vec![run(vec![], "b!")]));
}

#[test]
fn round_trip_of_ranges_of_one_kind_that_overlap_in_part() {
    let built = Segments::build(
        "abcdefghij",
        &[
            MessageEntity::new(FormatKind::Bold, 0, 5),
            MessageEntity::new(FormatKind::Bold, 3, 5),
            MessageEntity::new(FormatKind::Italic, 5, 3),
        ],
    );
    assert_eq!(
        built.entities(),
        vec![
            MessageEntity::new(FormatKind::Bold, 0, 8),
            MessageEntity::new(FormatKind::Italic, 5, 3),
        ]
    );
}

#[test]
fn ranges_of_two_kinds_that_overlap_in_part_spread_the_first() {
    let built = Segments::build(
        "abcdefghij",
        &[
            MessageEntity::new(FormatKind::Bold, 0, 5),
            MessageEntity::new(FormatKind::Italic, 3, 5),
        ],
    );
    assert_eq!(
        built.entities(),
        vec![
            MessageEntity::new(FormatKind::Bold, 0, 8),
            MessageEntity::new(FormatKind::Italic, 3, 5),
        ]
    );
}
