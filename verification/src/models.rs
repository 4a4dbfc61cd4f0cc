//! Plain request and response bodies exchanged with clients.

use crate::authentication::Token;
use vstd::prelude::*;

verus! {

/// Liveness report for one configured server.
#[derive(Debug, Clone)]
pub struct ServerStatus {
    pub id: String,
    pub running: bool,
}

/// Liveness report for every configured server within the caller's scope.
#[derive(Debug, Clone)]
pub struct GlobalStatus {
    pub servers: Vec<ServerStatus>,
}

/// Recent console lines of one server, newest first; absent when the server
/// has never been started.
#[derive(Debug, Clone)]
pub struct ServerOutput {
    pub output: Option<Vec<String>>,
}

/// A console command submitted for a server's standard input.
#[derive(Debug, Clone)]
pub struct InputCommandRequest {
    pub command: String,
}

/// A login attempt.
#[derive(Debug, Clone)]
pub struct TokenRequest {
    pub username: String,
    pub password: String,
}

/// The outcome of a login attempt: a session token, or nothing when the
/// credentials were rejected.
#[derive(Debug, Clone)]
pub struct TokenResponse {
    pub token: Option<Token>,
}

} // verus!
