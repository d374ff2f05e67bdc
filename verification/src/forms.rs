//! What the web forms carry.

use vstd::prelude::*;
use crate::model::{RegistrationView, RequestView};
use crate::text::{decimal, push_decimal};

verus! {

/// The registration form: a user asks for a seat at a session.
#[derive(Clone, Debug, PartialEq, Eq)]
pub struct RegisterForm {
    /// The session that the user asks for.
    pub session_id: i32,
    /// Who asks.
    pub user_id: i32,
    /// The user's name.
    pub name: String,
    /// The user's mail address.
    pub email: String,
}

impl RegisterForm {
    /// The pending request that the form becomes under a token.
    pub open spec fn request_view(&self, token: int) -> RequestView {
        RequestView {
            session_id: self.session_id as int,
            user_id: self.user_id as int,
            name: self.name@,
            email: self.email@,
            token,
        }
    }

    /// The seat that the form becomes for a verified user.
    pub open spec fn seat_view(&self) -> RegistrationView {
        RegistrationView {
            session_id: self.session_id as int,
            user_id: self.user_id as int,
            name: self.name@,
        }
    }

    /// A copy of the form.
    pub fn duplicate(&self) -> (copy: RegisterForm)
        ensures
            copy == *self,
    {
        RegisterForm {
            session_id: self.session_id,
            user_id: self.user_id,
            name: self.name.clone(),
            email: self.email.clone(),
        }
    }
}

/// The attendance form: a user was present at a session.
#[derive(Clone, Copy, Debug, PartialEq, Eq, Structural)]
pub struct AttendanceForm {
    /// The session that was attended.
    pub session_id: i32,
    /// Who attended.
    pub user_id: i32,
}

/// The token of a confirmation link.
#[derive(Clone, Copy, Debug, PartialEq, Eq, Structural)]
pub struct ConfirmToken {
    /// The token of the pending request that the link confirms.
    pub token: i32,
}

impl ConfirmToken {
    /// The path of the link: the confirmation route, then the token in decimal.
    pub open spec fn path_text(self) -> Seq<char> {
        "/session/confirm/"@ + decimal(self.token as int)
    }

    /// The path of the link: the confirmation route, then the token in decimal.
    pub fn path(&self) -> (text: String)
        ensures
            text@ == self.path_text(),
    {
        let mut text: String = "/session/confirm/".to_owned();
        push_decimal(&mut text, self.token);
        text
    }
}

} // verus!
