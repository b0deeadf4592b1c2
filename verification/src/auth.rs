//! The records of the sign-in service.

use vstd::prelude::*;

verus! {

/// What a user hands in to sign in.
#[derive(Debug)]
pub struct LoginUser {
    pub user_id: String,
    pub user_pw: String,
}

/// What a user hands in to sign up.
#[derive(Debug)]
pub struct JoinUser {
    pub user_id: String,
    pub user_pw: String,
    pub user_name: String,
}

/// A user as the service keeps it.
#[derive(Debug)]
pub struct User {
    pub id: i32,
    pub user_id: String,
    pub user_pw: String,
}

} // verus!
