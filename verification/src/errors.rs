//! Error values reported to the caller of a validation.
use crate::context::{InstancePath, into_path, join_path};
use vstd::prelude::*;

verus! {

/// A failure of a value against its schema: the message and, away from the
/// root, the path of the failing value.
pub struct SchemaError {
    pub message: String,
    pub path: Option<String>,
}

/// `Some` with the rendered path, `None` for the (empty) root path.
pub open spec fn path_matches(p: Option<String>, text: Seq<char>) -> bool {
    match p {
        None => text.len() == 0,
        Some(s) => s@ == text && text.len() > 0,
    }
}

/// The stored form of a path: `None` at the root.
pub fn path_of(path: &InstancePath) -> (r: Option<String>)
    ensures
        path_matches(r, join_path(path.chunks())),
{
    let rendered = into_path(path);
    if rendered.as_str().unicode_len() == 0 {
        None
    } else {
        Some(rendered)
    }
}

impl SchemaError {
    pub fn new(message: String, path: &InstancePath) -> (e: Self)
        ensures
            e.message@ == message@,
            path_matches(e.path, join_path(path.chunks())),
    {
        SchemaError { message, path: path_of(path) }
    }
}

/// One reported validation failure.
#[derive(Debug, PartialEq, Eq, PartialOrd, Ord)]
pub struct ErrorItem {
    pub message: String,
    pub schema_path: String,
    pub instance_path: String,
}

/// `ErrorItem(message='..', instance_path='..')`.
pub open spec fn error_item_repr(message: Seq<char>, instance_path: Seq<char>) -> Seq<char> {
    "ErrorItem(message='"@ + message + "', instance_path='"@ + instance_path + "')"@
}

impl ErrorItem {
    pub fn new(message: String, schema_path: String, instance_path: String) -> (e: Self)
        ensures
            e.message@ == message@,
            e.schema_path@ == schema_path@,
            e.instance_path@ == instance_path@,
    {
        ErrorItem { message, schema_path, instance_path }
    }

    /// The message.
    #[allow(non_snake_case)]
    pub fn __str__(&self) -> (r: String)
        ensures
            r@ == self.message@,
    {
        self.message.clone()
    }

    #[allow(non_snake_case)]
    pub fn __repr__(&self) -> (r: String)
        ensures
            r@ == error_item_repr(self.message@, self.instance_path@),
    {
        let mut r = String::new();
        r.append("ErrorItem(message='");
        r.append(self.message.as_str());
        r.append("', instance_path='");
        r.append(self.instance_path.as_str());
        r.append("')");
        r
    }
}

/// A validation failure with its message.
#[derive(Debug)]
pub struct ValidationError {
    pub message: String,
}

/// `<ValidationError: '..'>`.
pub open spec fn validation_error_repr(message: Seq<char>) -> Seq<char> {
    "<ValidationError: '"@ + message + "'>"@
}

impl ValidationError {
    pub fn new(message: String) -> (e: Self)
        ensures
            e.message@ == message@,
    {
        ValidationError { message }
    }

    #[allow(non_snake_case)]
    pub fn __str__(&self) -> (r: String)
        ensures
            r@ == self.message@,
    {
        self.message.clone()
    }

    #[allow(non_snake_case)]
    pub fn __repr__(&self) -> (r: String)
        ensures
            r@ == validation_error_repr(self.message@),
    {
        let mut r = String::new();
        r.append("<ValidationError: '");
        r.append(self.message.as_str());
        r.append("'>");
        r
    }
}

} // verus!
