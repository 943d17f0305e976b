//! Plain data types of the surrounding article service — requests,
//! configuration, tags, error kinds and their HTTP status codes — and the
//! validation of article submissions.

use vstd::prelude::*;

verus! {

/// The authenticated caller of a request.
pub struct User {
    pub id: i32,
}

/// A login or registration request body.
pub struct LoginInfo<'r> {
    pub email: &'r str,
    pub password: &'r str,
}

/// An error answered to the client: its kind and a readable message.
pub struct ErrorDesc<T> {
    pub kind: T,
    pub message: String,
}

/// Wrapper that turns a domain error into an API response.
pub struct ApiErr<T>(pub T);

impl<T> From<T> for ApiErr<T> {
    fn from(t: T) -> (r: Self) {
        ApiErr(t)
    }
}

impl<T> vstd::std_specs::convert::FromSpecImpl<T> for ApiErr<T> {
    open spec fn obeys_from_spec() -> bool {
        true
    }

    open spec fn from_spec(t: T) -> Self {
        ApiErr(t)
    }
}

/// Connection settings of the backing database.
pub struct Config {
    pub url: String,
    pub database: String,
    pub user: String,
    pub password: String,
    pub connections: u8,
}

/// A tag and how many articles carry it.
pub struct Tag {
    pub id: i32,
    pub name: String,
    pub num_articles: i64,
}

/// A failure of the tag operations.
#[derive(Debug)]
pub enum TagError {
    Internal,
}

impl TagError {
    /// The HTTP status code this failure maps to.
    pub fn status(&self) -> (code: u16)
        ensures
            code == 500u16,
    {
        500
    }
}

/// A failure of the link listing.
#[derive(Debug)]
pub enum LinkError {
    Internal,
}

impl LinkError {
    /// The HTTP status code this failure maps to.
    pub fn status(&self) -> (code: u16)
        ensures
            code == 500u16,
    {
        500
    }
}

/// A failure of the article operations.
#[derive(Debug)]
pub enum ArticleError {
    NotFound,
    BadContent,
    Internal,
}

impl ArticleError {
    /// The HTTP status code this failure maps to.
    pub fn status(&self) -> (code: u16)
        ensures
            code == match *self {
                ArticleError::NotFound => 404u16,
                ArticleError::BadContent => 400u16,
                ArticleError::Internal => 500u16,
            },
    {
        match self {
            ArticleError::NotFound => 404,
            ArticleError::BadContent => 400,
            ArticleError::Internal => 500,
        }
    }
}

/// A stored article, dates as seconds since the epoch.
pub struct Article {
    pub id: i32,
    pub title: String,
    pub content: String,
    pub tags: Vec<String>,
    pub created_on: i64,
    pub updated_on: i64,
}

/// A listing entry for an article, dates as seconds since the epoch.
pub struct ArticlePreview {
    pub id: i32,
    pub title: String,
    pub preview: String,
    pub tags: Vec<String>,
    pub created_on: i64,
    pub updated_on: i64,
}

/// An article as submitted for creation or update.
pub struct ArticleInsert<'a> {
    pub id: Option<i32>,
    pub title: &'a str,
    pub content: String,
    pub tags: Vec<&'a str>,
}

/// How an article listing is filtered, sorted and paged.
pub struct ListOptions {
    pub offset: u32,
    pub limit: u32,
    pub tags: Vec<i32>,
    pub all_tags: bool,
    pub sort_by_created: bool,
    pub query: String,
}

/// An article as submitted to the light front end.
pub struct ArticleProto<'a> {
    pub id: Option<i32>,
    pub title: &'a str,
    pub content: &'a str,
}

/// The edit form of the light front end.
pub struct ArticleForm {
    pub title: String,
    pub content: String,
}

/// A submitted article is acceptable exactly when title and content are
/// non-empty and no tag is empty.
pub fn validate_content(article: &ArticleInsert) -> (ok: bool)
    ensures
        ok == (article.title@.len() > 0 && article.content@.len() > 0 && (forall|i: int|
            0 <= i < article.tags@.len() ==> (#[trigger] article.tags@[i])@.len() > 0)),
{
    if article.title.is_empty() || article.content.as_str().is_empty() {
        return false;
    }
    let mut i: usize = 0;
    while i < article.tags.len()
        invariant
            i <= article.tags@.len(),
            forall|k: int| 0 <= k < i ==> (#[trigger] article.tags@[k])@.len() > 0,
        decreases article.tags@.len() - i,
    {
        if article.tags[i].is_empty() {
            return false;
        }
        i += 1;
    }
    true
}

} // verus!
