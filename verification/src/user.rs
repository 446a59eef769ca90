use vstd::prelude::*;

use crate::class::Class;

verus! {

/// An adventurer registered on the board.
#[derive(Debug)]
pub struct User {
    /// Stable identifier, assigned by the store on creation.
    pub id: i32,
    /// Unique sign-in name.
    pub login: String,
    pub name: String,
    /// Password credential hash; the engine only carries it.
    pub pw_hash: String,
    /// Skill tier, mutated only by calibration.
    pub class: Class,
    pub is_admin: bool,
    /// Skills demonstrated so far; grows monotonically, never holds a
    /// duplicate.
    pub tags: Vec<String>,
}

/// What a sign-in hands the authentication layer.
#[derive(Debug)]
pub struct Credentials {
    pub login: String,
    pub password: String,
}

/// The mathematical image of a user.
#[verifier::ext_equal]
pub ghost struct UserView {
    pub id: int,
    pub login: Seq<char>,
    pub name: Seq<char>,
    pub pw_hash: Seq<char>,
    pub class: Class,
    pub is_admin: bool,
    pub tags: Seq<Seq<char>>,
}

impl View for User {
    type V = UserView;

    open spec fn view(&self) -> UserView {
        UserView {
            id: self.id as int,
            login: self.login@,
            name: self.name@,
            pw_hash: self.pw_hash@,
            class: self.class,
            is_admin: self.is_admin,
            tags: self.tags.deep_view(),
        }
    }
}

impl DeepView for User {
    type V = UserView;

    open spec fn deep_view(&self) -> UserView {
        self.view()
    }
}

impl Clone for User {
    /// A clone carries the same mathematical value as the original.
    fn clone(&self) -> (res: Self)
        ensures
            res@ == self@,
    {
        let res = User {
            id: self.id,
            login: self.login.clone(),
            name: self.name.clone(),
            pw_hash: self.pw_hash.clone(),
            class: self.class,
            is_admin: self.is_admin,
            tags: crate::task::clone_tags(&self.tags),
        };
        proof {
            assert(res@ =~= self@);
        }
        res
    }
}

} // verus!
