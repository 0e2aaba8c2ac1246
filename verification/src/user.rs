//! The identity of a chat participant.

use crate::text::{
    copy_opt_text, int_order, lemma_opt_text_order, lemma_text_order, lemma_text_order_trans,
    opt_text_order, opt_view, order_opt_text, order_text, text_order, then_order,
};
use vstd::prelude::*;

verus! {

/// A chat participant, as the platform describes one. The library compares
/// users and reads their names; it gives no other meaning to the fields.
#[derive(Debug, PartialEq, Eq, Hash)]
pub struct User {
    pub id: u64,
    pub is_bot: bool,
    pub first_name: String,
    pub last_name: Option<String>,
    pub username: Option<String>,
    pub language_code: Option<String>,
    pub is_premium: bool,
    pub added_to_attachment_menu: bool,
}

/// Mathematical value of a [`User`].
pub struct UserView {
    pub id: u64,
    pub is_bot: bool,
    pub first_name: Seq<char>,
    pub last_name: Option<Seq<char>>,
    pub username: Option<Seq<char>>,
    pub language_code: Option<Seq<char>>,
    pub is_premium: bool,
    pub added_to_attachment_menu: bool,
}

impl View for User {
    type V = UserView;

    open spec fn view(&self) -> UserView {
        UserView {
            id: self.id,
            is_bot: self.is_bot,
            first_name: self.first_name@,
            last_name: opt_view(self.last_name),
            username: opt_view(self.username),
            language_code: opt_view(self.language_code),
            is_premium: self.is_premium,
            added_to_attachment_menu: self.added_to_attachment_menu,
        }
    }
}

/// Order of two truth values: `false` comes first.
pub open spec fn bool_order(a: bool, b: bool) -> int {
    int_order(if a { 1 } else { 0 }, if b { 1 } else { 0 })
}

/// Three-way order of two users, field by field in declaration order.
#[verifier::opaque]
pub open spec fn user_order(a: UserView, b: UserView) -> int {
    then_order(
        int_order(a.id as int, b.id as int),
        then_order(
            bool_order(a.is_bot, b.is_bot),
            then_order(
                text_order(a.first_name, b.first_name),
                then_order(
                    opt_text_order(a.last_name, b.last_name),
                    then_order(
                        opt_text_order(a.username, b.username),
                        then_order(
                            opt_text_order(a.language_code, b.language_code),
                            then_order(
                                bool_order(a.is_premium, b.is_premium),
                                bool_order(a.added_to_attachment_menu, b.added_to_attachment_menu),
                            ),
                        ),
                    ),
                ),
            ),
        ),
    )
}

/// The display name: the first name, then a space and the last name where
/// there is one.
pub open spec fn full_name(u: UserView) -> Seq<char> {
    match u.last_name {
        Some(last) => u.first_name + seq![' '] + last,
        None => u.first_name,
    }
}

/// `user_order` is a total order: antisymmetric, zero exactly on equal users,
/// and transitive.
pub proof fn lemma_user_order(a: UserView, b: UserView, c: UserView)
    ensures
        user_order(a, b) == -user_order(b, a),
        -1 <= user_order(a, b) <= 1,
        (user_order(a, b) == 0) == (a == b),
        user_order(a, b) <= 0 && user_order(b, c) <= 0 ==> user_order(a, c) <= 0,
{
    reveal(user_order);
    lemma_text_order(a.first_name, b.first_name);
    lemma_text_order(b.first_name, c.first_name);
    lemma_text_order(a.first_name, c.first_name);
    if text_order(a.first_name, b.first_name) <= 0 && text_order(b.first_name, c.first_name) <= 0 {
        lemma_text_order_trans(a.first_name, b.first_name, c.first_name);
    }
    lemma_opt_text_order(a.last_name, b.last_name, c.last_name);
    lemma_opt_text_order(b.last_name, c.last_name, a.last_name);
    lemma_opt_text_order(a.last_name, c.last_name, b.last_name);
    lemma_opt_text_order(a.username, b.username, c.username);
    lemma_opt_text_order(b.username, c.username, a.username);
    lemma_opt_text_order(a.username, c.username, b.username);
    lemma_opt_text_order(a.language_code, b.language_code, c.language_code);
    lemma_opt_text_order(b.language_code, c.language_code, a.language_code);
    lemma_opt_text_order(a.language_code, c.language_code, b.language_code);
}

fn order_bool(a: bool, b: bool) -> (r: i8)
    ensures
        r as int == bool_order(a, b),
{
    if a == b {
        0
    } else if b {
        -1
    } else {
        1
    }
}

impl Clone for User {
    fn clone(&self) -> (r: Self)
        ensures
            r == *self,
    {
        User {
            id: self.id,
            is_bot: self.is_bot,
            first_name: self.first_name.clone(),
            last_name: copy_opt_text(&self.last_name),
            username: copy_opt_text(&self.username),
            language_code: copy_opt_text(&self.language_code),
            is_premium: self.is_premium,
            added_to_attachment_menu: self.added_to_attachment_menu,
        }
    }
}

impl User {
    /// Three-way order of `self` and `other`.
    pub fn order(&self, other: &User) -> (r: i8)
        ensures
            r as int == user_order(self@, other@),
    {
        proof {
            reveal(user_order);
        }
        if self.id != other.id {
            return if self.id < other.id {
                -1
            } else {
                1
            };
        }
        let r: i8 = order_bool(self.is_bot, other.is_bot);
        if r != 0 {
            return r;
        }
        let r: i8 = order_text(self.first_name.as_str(), other.first_name.as_str());
        if r != 0 {
            return r;
        }
        let r: i8 = order_opt_text(&self.last_name, &other.last_name);
        if r != 0 {
            return r;
        }
        let r: i8 = order_opt_text(&self.username, &other.username);
        if r != 0 {
            return r;
        }
        let r: i8 = order_opt_text(&self.language_code, &other.language_code);
        if r != 0 {
            return r;
        }
        let r: i8 = order_bool(self.is_premium, other.is_premium);
        if r != 0 {
            return r;
        }
        order_bool(self.added_to_attachment_menu, other.added_to_attachment_menu)
    }

    /// Whether `self` and `other` are the same user in every field.
    pub fn same(&self, other: &User) -> (r: bool)
        ensures
            r == (self@ == other@),
    {
        proof {
            lemma_user_order(self@, other@, self@);
        }
        self.order(other) == 0
    }

    /// The display name of the user.
    pub fn full_name(&self) -> (r: String)
        ensures
            r@ == full_name(self@),
    {
        match &self.last_name {
            Some(last) => {
                let mut name = self.first_name.clone();
                name.append(" ");
                name.append(last.as_str());
                proof {
                    reveal_strlit(" ");
                    assert(" "@ == seq![' ']);
                }
                name
            },
            None => self.first_name.clone(),
        }
    }
}

} // verus!
