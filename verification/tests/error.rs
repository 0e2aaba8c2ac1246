use hithit::encode::unwrap_bound;
use hithit::error::{to_decimal, Error, ErrorExt, ExportedError, Format, Parse};
use hithit::intervals::Bound;
use hithit::kind::FormatKind;
use hithit::text::{order_opt_text, order_text, trim_end, trim_start};
use hithit::user::User;

fn somebody(id: u64, first: &str) -> User {
    User {
        id,
        is_bot: false,
        first_name: first.to_string(),
        last_name: None,
        username: None,
        language_code: None,
        is_premium: false,
        added_to_attachment_menu: false,
    }
}

#[test]
fn decimal_of_numbers() {
    assert_eq!(to_decimal(0), "0");
    assert_eq!(to_decimal(7), "7");
    assert_eq!(to_decimal(10), "10");
    assert_eq!(to_decimal(9081726354), "9081726354");
    assert_eq!(to_decimal(usize::MAX), usize::MAX.to_string());
}

#[test]
fn messages_of_format_errors() {
    assert_eq!(Format::InvalidIndex(12).message(), "index 12 not found");
    assert_eq!(Format::InvalidKey("who".to_string()).message(), "key who not found");
}

#[test]
fn messages_of_errors() {
    assert_eq!(
        Error::ShouldNotHandle.message(),
        "this message is not intended to be handled by this bot"
    );
    assert_eq!(
        Error::Format(Format::InvalidIndex(1)).message(),
        "format error: index 1 not found"
    );
    assert_eq!(
        Error::Parse(Parse { segment: 2, position: 14 }).message(),
        "parse error: unexpected brace at character 14 of run 2"
    );
    assert_eq!(
        ExportedError::Format(Format::InvalidKey("k".to_string())).message(),
        "format error: key k not found"
    );
    assert_eq!(
        ExportedError::Parse(Parse { segment: 0, position: 0 }).message(),
        "parse error: unexpected brace at character 0 of run 0"
    );
}

#[test]
fn lifting_sets_should_not_handle_apart() {
    let fine: Result<u8, Error> = Ok(3);
    assert_eq!(fine.lift_should_not_handle(), Ok(Ok(3)));
    let declined: Result<u8, Error> = Err(Error::ShouldNotHandle);
    assert_eq!(declined.lift_should_not_handle(), Err(Error::ShouldNotHandle));
    let failed: Result<u8, Error> = Err(Error::Format(Format::InvalidIndex(0)));
    assert_eq!(
        failed.lift_should_not_handle(),
        Ok(Err(Error::Format(Format::InvalidIndex(0))))
    );
}

#[test]
fn unwrap_bound_gives_the_value_under_a_bound() {
    assert_eq!(unwrap_bound(Bound::Included(&3)), Some(&3));
    assert_eq!(unwrap_bound(Bound::Excluded(&4)), Some(&4));
    assert_eq!(unwrap_bound::<usize>(Bound::Unbounded), None);
    assert_eq!(unwrap_bound(Bound::Included(5usize).as_ref()), Some(&5));
}

#[test]
fn text_order_is_by_code_point() {
    assert_eq!(order_text("", ""), 0);
    assert_eq!(order_text("", "a"), -1);
    assert_eq!(order_text("a", ""), 1);
    assert_eq!(order_text("abc", "abd"), -1);
    assert_eq!(order_text("abd", "abc"), 1);
    assert_eq!(order_text("ab", "abc"), -1);
    assert_eq!(order_text("b", "abc"), 1);
    assert_eq!(order_text("abc", "abc"), 0);
    assert_eq!(order_text("z", "\u{4F60}"), -1);
    assert_eq!(order_opt_text(&None, &Some("".to_string())), -1);
    assert_eq!(order_opt_text(&Some("a".to_string()), &None), 1);
    assert_eq!(order_opt_text(&None, &None), 0);
    assert_eq!(order_opt_text(&Some("a".to_string()), &Some("b".to_string())), -1);
}

#[test]
fn user_order_goes_field_by_field() {
    let a = somebody(1, "b");
    let b = somebody(2, "a");
    assert_eq!(a.order(&b), -1);
    assert_eq!(b.order(&a), 1);
    assert_eq!(a.order(&a.clone()), 0);
    assert!(a.same(&a.clone()));
    let mut c = somebody(1, "b");
    c.username = Some("x".to_string());
    assert_eq!(a.order(&c), -1);
    assert!(!a.same(&c));
    let mut d = somebody(1, "b");
    d.is_premium = true;
    assert_eq!(d.order(&a), 1);
    let mut e = somebody(1, "b");
    e.is_bot = true;
    assert_eq!(a.order(&e), -1);
    assert_eq!(e.order(&c), 1);
}

#[test]
fn user_full_name() {
    let mut a = somebody(1, "Ann");
    assert_eq!(a.full_name(), "Ann");
    a.last_name = Some("Lee".to_string());
    assert_eq!(a.full_name(), "Ann Lee");
}

#[test]
fn kind_order_goes_by_variant_then_by_content() {
    assert_eq!(FormatKind::Mention.order(&FormatKind::Bold), -1);
    assert_eq!(FormatKind::Code.order(&FormatKind::Bold), 1);
    assert_eq!(FormatKind::Bold.order(&FormatKind::Bold), 0);
    assert_eq!(FormatKind::Bold.rank(), 7);
    assert_eq!(FormatKind::CustomEmoji { custom_emoji_id: String::new() }.rank(), 17);
    let none = FormatKind::Pre { language: None };
    let rust = FormatKind::Pre { language: Some("rust".to_string()) };
    let c = FormatKind::Pre { language: Some("c".to_string()) };
    assert_eq!(none.order(&rust), -1);
    assert_eq!(rust.order(&c), 1);
    assert!(rust.same(&rust.clone()));
    assert!(!rust.same(&c));
    let m1 = FormatKind::TextMention { user: somebody(1, "x") };
    let m2 = FormatKind::TextMention { user: somebody(2, "x") };
    assert_eq!(m1.order(&m2), -1);
    assert_eq!(m2.order(&FormatKind::TextLink { url: "z".to_string() }), 1);
    let e1 = FormatKind::CustomEmoji { custom_emoji_id: "1".to_string() };
    let e2 = FormatKind::CustomEmoji { custom_emoji_id: "2".to_string() };
    assert_eq!(e2.order(&e1), 1);
}

#[test]
fn trimming_text() {
    assert_eq!(trim_start(" \t\n x y "), "x y ");
    assert_eq!(trim_end(" x y \u{3000}\r\n"), " x y");
    assert_eq!(trim_start("   "), "");
    assert_eq!(trim_end("   "), "");
    assert_eq!(trim_start(""), "");
    assert_eq!(trim_start("x"), "x");
    assert_eq!(trim_end("x"), "x");
    assert_eq!(trim_start("\u{A0}x"), "x");
    assert_eq!(trim_start("_ x"), "_ x");
}

#[test]
fn errors_wrap_what_went_wrong() {
    assert_eq!(Error::from(Format::InvalidIndex(2)), Error::Format(Format::InvalidIndex(2)));
    let parse = Parse { segment: 1, position: 2 };
    assert_eq!(Error::from(parse), Error::Parse(parse));
    assert_eq!(
        ExportedError::from(Format::InvalidKey("k".to_string())),
        ExportedError::Format(Format::InvalidKey("k".to_string()))
    );
    assert_eq!(ExportedError::from(parse), ExportedError::Parse(parse));
}
