//! Plain request, response and configuration records that the service
//! layer exchanges with the store.

use vstd::prelude::*;
use crate::auth::{Role, User};
use crate::history::CommitInfo;

verus! {

/// Process configuration, resolved by the host environment.
pub struct Config {
    pub database_url: String,
    pub markdown_dir: String,
    pub jwt_secret: String,
    pub server_port: u16,
}

/// A document body with its name, as exchanged with callers.
pub struct Document {
    pub filename: String,
    pub content: String,
}

/// The names of all current documents.
pub struct DocumentList {
    pub documents: Vec<String>,
}

/// A free-text search request.
pub struct SearchQuery {
    pub q: String,
}

/// A document's commit history.
pub struct DocumentHistory {
    pub filename: String,
    pub commits: Vec<CommitInfo>,
}

/// A recently updated document, as listed by recency queries.
pub struct RecentDocument {
    pub id: i64,
    pub filename: String,
    pub title: String,
    pub created_at: i64,
    pub updated_at: i64,
    pub view_count: i64,
    pub tags: Vec<String>,
}

/// How many recent documents to list.
pub struct RecentDocumentsQuery {
    pub limit: Option<u32>,
}

pub struct RecentDocumentsResponse {
    pub documents: Vec<RecentDocument>,
}

/// A request to replace a document's title and tag set.
pub struct MetadataRequest {
    pub title: String,
    pub tags: Vec<String>,
}

pub struct TagsResponse {
    pub tags: Vec<String>,
}

/// A request to create a document.
pub struct CreateDocumentRequest {
    pub title: String,
    pub content: String,
    pub tags: Option<Vec<String>>,
}

/// A request to change a document's body or metadata.
pub struct UpdateDocumentRequest {
    pub title: Option<String>,
    pub content: Option<String>,
    pub tags: Option<Vec<String>>,
    pub commit_message: Option<String>,
}

/// A request to open an account.
pub struct UserRegistration {
    pub username: String,
    pub password: String,
    pub email: String,
    pub role: Option<String>,
}

/// A sign-in request.
pub struct LoginCredentials {
    pub username: String,
    pub password: String,
}

/// A successful sign-in: the session token and the account it names.
pub struct LoginResponse {
    pub token: String,
    pub user: User,
}

/// A request to change the caller's password.
pub struct ChangePasswordRequest {
    pub current_password: String,
    pub new_password: String,
}

pub struct PasswordChangeRequest {
    pub current_password: String,
    pub new_password: String,
}

/// An account registration with the role already resolved.
pub struct RegistrationData {
    pub username: String,
    pub password: String,
    pub role: Role,
}

} // verus!
