//! Formatting kinds and sets of them.

use crate::text::{
    copy_opt_text, int_order, lemma_opt_text_order, lemma_text_order, lemma_text_order_trans,
    opt_text_order, opt_view, order_opt_text, order_text, text_order, then_order,
};
use crate::user::{lemma_user_order, user_order, User, UserView};
use vstd::prelude::*;

verus! {

/// One way in which a run of text can be formatted.
#[derive(Debug, PartialEq, Eq, Hash)]
pub enum FormatKind {
    Mention,
    Hashtag,
    Cashtag,
    BotCommand,
    Url,
    Email,
    PhoneNumber,
    Bold,
    Blockquote,
    Italic,
    Underline,
    Strikethrough,
    Spoiler,
    Code,
    Pre { language: Option<String> },
    TextLink { url: String },
    TextMention { user: User },
    CustomEmoji { custom_emoji_id: String },
}

/// Mathematical value of a [`FormatKind`].
pub enum KindView {
    Mention,
    Hashtag,
    Cashtag,
    BotCommand,
    Url,
    Email,
    PhoneNumber,
    Bold,
    Blockquote,
    Italic,
    Underline,
    Strikethrough,
    Spoiler,
    Code,
    Pre { language: Option<Seq<char>> },
    TextLink { url: Seq<char> },
    TextMention { user: UserView },
    CustomEmoji { custom_emoji_id: Seq<char> },
}

impl View for FormatKind {
    type V = KindView;

    open spec fn view(&self) -> KindView {
        match *self {
            FormatKind::Mention => KindView::Mention,
            FormatKind::Hashtag => KindView::Hashtag,
            FormatKind::Cashtag => KindView::Cashtag,
            FormatKind::BotCommand => KindView::BotCommand,
            FormatKind::Url => KindView::Url,
            FormatKind::Email => KindView::Email,
            FormatKind::PhoneNumber => KindView::PhoneNumber,
            FormatKind::Bold => KindView::Bold,
            FormatKind::Blockquote => KindView::Blockquote,
            FormatKind::Italic => KindView::Italic,
            FormatKind::Underline => KindView::Underline,
            FormatKind::Strikethrough => KindView::Strikethrough,
            FormatKind::Spoiler => KindView::Spoiler,
            FormatKind::Code => KindView::Code,
            FormatKind::Pre { language } => KindView::Pre { language: opt_view(language) },
            FormatKind::TextLink { url } => KindView::TextLink { url: url@ },
            FormatKind::TextMention { user } => KindView::TextMention { user: user@ },
            FormatKind::CustomEmoji { custom_emoji_id } => KindView::CustomEmoji {
                custom_emoji_id: custom_emoji_id@,
            },
        }
    }
}

/// Position of a kind's variant in the declaration.
pub open spec fn rank(k: KindView) -> int {
    match k {
        KindView::Mention => 0,
        KindView::Hashtag => 1,
        KindView::Cashtag => 2,
        KindView::BotCommand => 3,
        KindView::Url => 4,
        KindView::Email => 5,
        KindView::PhoneNumber => 6,
        KindView::Bold => 7,
        KindView::Blockquote => 8,
        KindView::Italic => 9,
        KindView::Underline => 10,
        KindView::Strikethrough => 11,
        KindView::Spoiler => 12,
        KindView::Code => 13,
        KindView::Pre { .. } => 14,
        KindView::TextLink { .. } => 15,
        KindView::TextMention { .. } => 16,
        KindView::CustomEmoji { .. } => 17,
    }
}

/// Three-way order of what two kinds of one variant carry.
pub open spec fn payload_order(a: KindView, b: KindView) -> int {
    match (a, b) {
        (KindView::Pre { language: x }, KindView::Pre { language: y }) => opt_text_order(x, y),
        (KindView::TextLink { url: x }, KindView::TextLink { url: y }) => text_order(x, y),
        (KindView::TextMention { user: x }, KindView::TextMention { user: y }) => user_order(x, y),
        (
            KindView::CustomEmoji { custom_emoji_id: x },
            KindView::CustomEmoji { custom_emoji_id: y },
        ) => text_order(x, y),
        _ => 0,
    }
}

/// Three-way order of two kinds: by variant, then by what the variant carries.
#[verifier::opaque]
pub open spec fn kind_order(a: KindView, b: KindView) -> int {
    then_order(int_order(rank(a), rank(b)), payload_order(a, b))
}

/// `kind_order` is a total order: antisymmetric, zero exactly on equal kinds,
/// and transitive.
pub proof fn lemma_kind_order(a: KindView, b: KindView, c: KindView)
    ensures
        kind_order(a, b) == -kind_order(b, a),
        -1 <= kind_order(a, b) <= 1,
        (kind_order(a, b) == 0) == (a == b),
        kind_order(a, b) <= 0 && kind_order(b, c) <= 0 ==> kind_order(a, c) <= 0,
        kind_order(a, b) < 0 && kind_order(b, c) <= 0 ==> kind_order(a, c) < 0,
        kind_order(a, b) <= 0 && kind_order(b, c) < 0 ==> kind_order(a, c) < 0,
{
    lemma_kind_order_pair(a, b);
    lemma_kind_order_pair(b, c);
    lemma_kind_order_pair(a, c);
    lemma_kind_order_pair(c, b);
    lemma_kind_order_pair(b, a);
    if kind_order(a, b) <= 0 && kind_order(b, c) <= 0 {
        lemma_kind_order_trans(a, b, c);
    }
}

proof fn lemma_kind_order_pair(a: KindView, b: KindView)
    ensures
        kind_order(a, b) == -kind_order(b, a),
        -1 <= kind_order(a, b) <= 1,
        (kind_order(a, b) == 0) == (a == b),
{
    reveal(kind_order);
    match (a, b) {
        (KindView::Pre { language: x }, KindView::Pre { language: y }) => {
            lemma_opt_text_order(x, y, x);
        },
        (KindView::TextLink { url: x }, KindView::TextLink { url: y }) => {
            lemma_text_order(x, y);
        },
        (KindView::TextMention { user: x }, KindView::TextMention { user: y }) => {
            lemma_user_order(x, y, x);
        },
        (
            KindView::CustomEmoji { custom_emoji_id: x },
            KindView::CustomEmoji { custom_emoji_id: y },
        ) => {
            lemma_text_order(x, y);
        },
        _ => {},
    }
}

proof fn lemma_kind_order_trans(a: KindView, b: KindView, c: KindView)
    requires
        kind_order(a, b) <= 0,
        kind_order(b, c) <= 0,
    ensures
        kind_order(a, c) <= 0,
{
    reveal(kind_order);
    match (a, b, c) {
        (KindView::Pre { language: x }, KindView::Pre { language: y }, KindView::Pre { language: z }) => {
            lemma_opt_text_order(x, y, z);
        },
        (KindView::TextLink { url: x }, KindView::TextLink { url: y }, KindView::TextLink { url: z }) => {
            lemma_text_order_trans(x, y, z);
        },
        (
            KindView::TextMention { user: x },
            KindView::TextMention { user: y },
            KindView::TextMention { user: z },
        ) => {
            lemma_user_order(x, y, z);
        },
        (
            KindView::CustomEmoji { custom_emoji_id: x },
            KindView::CustomEmoji { custom_emoji_id: y },
            KindView::CustomEmoji { custom_emoji_id: z },
        ) => {
            lemma_text_order_trans(x, y, z);
        },
        _ => {},
    }
}

impl Clone for FormatKind {
    fn clone(&self) -> (r: Self)
        ensures
            r == *self,
    {
        match self {
            FormatKind::Mention => FormatKind::Mention,
            FormatKind::Hashtag => FormatKind::Hashtag,
            FormatKind::Cashtag => FormatKind::Cashtag,
            FormatKind::BotCommand => FormatKind::BotCommand,
            FormatKind::Url => FormatKind::Url,
            FormatKind::Email => FormatKind::Email,
            FormatKind::PhoneNumber => FormatKind::PhoneNumber,
            FormatKind::Bold => FormatKind::Bold,
            FormatKind::Blockquote => FormatKind::Blockquote,
            FormatKind::Italic => FormatKind::Italic,
            FormatKind::Underline => FormatKind::Underline,
            FormatKind::Strikethrough => FormatKind::Strikethrough,
            FormatKind::Spoiler => FormatKind::Spoiler,
            FormatKind::Code => FormatKind::Code,
            FormatKind::Pre { language } => FormatKind::Pre { language: copy_opt_text(language) },
            FormatKind::TextLink { url } => FormatKind::TextLink { url: url.clone() },
            FormatKind::TextMention { user } => FormatKind::TextMention { user: user.clone() },
            FormatKind::CustomEmoji { custom_emoji_id } => FormatKind::CustomEmoji {
                custom_emoji_id: custom_emoji_id.clone(),
            },
        }
    }
}

impl FormatKind {
    /// Position of the variant in the declaration.
    pub fn rank(&self) -> (r: u8)
        ensures
            r as int == rank(self@),
    {
        match self {
            FormatKind::Mention => 0,
            FormatKind::Hashtag => 1,
            FormatKind::Cashtag => 2,
            FormatKind::BotCommand => 3,
            FormatKind::Url => 4,
            FormatKind::Email => 5,
            FormatKind::PhoneNumber => 6,
            FormatKind::Bold => 7,
            FormatKind::Blockquote => 8,
            FormatKind::Italic => 9,
            FormatKind::Underline => 10,
            FormatKind::Strikethrough => 11,
            FormatKind::Spoiler => 12,
            FormatKind::Code => 13,
            FormatKind::Pre { .. } => 14,
            FormatKind::TextLink { .. } => 15,
            FormatKind::TextMention { .. } => 16,
            FormatKind::CustomEmoji { .. } => 17,
        }
    }

    /// Three-way order of `self` and `other`.
    pub fn order(&self, other: &FormatKind) -> (r: i8)
        ensures
            r as int == kind_order(self@, other@),
    {
        proof {
            reveal(kind_order);
        }
        let x: u8 = self.rank();
        let y: u8 = other.rank();
        if x != y {
            return if x < y {
                -1
            } else {
                1
            };
        }
        match (self, other) {
            (FormatKind::Pre { language: a }, FormatKind::Pre { language: b }) => order_opt_text(
                a,
                b,
            ),
            (FormatKind::TextLink { url: a }, FormatKind::TextLink { url: b }) => order_text(
                a.as_str(),
                b.as_str(),
            ),
            (FormatKind::TextMention { user: a }, FormatKind::TextMention { user: b }) => a.order(
                b,
            ),
            (
                FormatKind::CustomEmoji { custom_emoji_id: a },
                FormatKind::CustomEmoji { custom_emoji_id: b },
            ) => order_text(a.as_str(), b.as_str()),
            _ => 0,
        }
    }

    /// Whether `self` and `other` are the same kind, with the same content.
    pub fn same(&self, other: &FormatKind) -> (r: bool)
        ensures
            r == (self@ == other@),
    {
        proof {
            lemma_kind_order(self@, other@, self@);
        }
        self.order(other) == 0
    }
}

} // verus!
