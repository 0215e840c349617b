use std::str::FromStr;
use vstd::prelude::*;

verus! {

/// A scalar setting: absent, or a piece of text.
#[derive(Debug, PartialEq)]
pub enum ConfItem {
    Empty,
    Text(String),
}

/// Relies on `str::parse` followed by `Result::ok`: `Some` with what
/// `T::from_str` built, or `None` where it failed. What it builds is up to
/// `T`.
#[verifier::external_body]
fn parse_ok<T: FromStr>(s: &str) -> Option<T> {
    s.parse::<T>().ok()
}

impl ConfItem {
    /// The setting that holds the text `s`.
    pub fn parse(s: &str) -> (r: ConfItem)
        ensures
            r matches ConfItem::Text(t) && t@ == s@,
    {
        ConfItem::Text(s.to_owned())
    }

    /// The text of the setting read as a `T`, where there is text and it
    /// reads as one.
    pub fn get<T: FromStr>(&self) -> (r: Option<T>)
        ensures
            self is Empty ==> r is None,
    {
        match self {
            ConfItem::Empty => None,
            ConfItem::Text(s) => parse_ok::<T>(s.as_str()),
        }
    }

    /// The text of the setting, as it would be written.
    pub fn to_string(&self) -> (r: String)
        ensures
            match self {
                ConfItem::Empty => r@.len() == 0,
                ConfItem::Text(s) => r@ == s@,
            },
    {
        match self {
            ConfItem::Empty => String::new(),
            ConfItem::Text(s) => s.clone(),
        }
    }
}

} // verus!
