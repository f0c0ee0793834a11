//! The settings a find or an index creation is dispatched with, put
//! together from what the caller gave.

use vstd::prelude::*;

verus! {

/// `n`, read as a signed 64-bit number with the same bits.
pub open spec fn as_signed(n: u64) -> int {
    if n <= i64::MAX {
        n as int
    } else {
        n - 0x1_0000_0000_0000_0000
    }
}

/// `n`, read as an unsigned 64-bit number with the same bits.
pub open spec fn as_unsigned(n: i64) -> int {
    if n >= 0 {
        n as int
    } else {
        n + 0x1_0000_0000_0000_0000
    }
}

pub fn to_signed(n: u64) -> (r: i64)
    ensures
        r == as_signed(n),
{
    if n <= 0x7fff_ffff_ffff_ffff {
        n as i64
    } else {
        let low: u64 = n - 0x8000_0000_0000_0000;
        i64::MIN + (low as i64)
    }
}

pub fn to_unsigned(n: i64) -> (r: u64)
    ensures
        r == as_unsigned(n),
{
    if n >= 0 {
        n as u64
    } else {
        let low: i64 = n - i64::MIN;
        0x8000_0000_0000_0000 + (low as u64)
    }
}

/// How a find is run.
pub struct FindSettings<P> {
    pub sort: Option<P>,
    /// The most documents to return, as the driver takes it.
    pub limit: Option<i64>,
    pub skip: Option<u64>,
    pub projection: Option<P>,
}

/// The settings of a find: each as given, the limit with its bits read
/// as a signed number.
pub fn find_with_options<P>(
    sort: Option<P>,
    limit: Option<u64>,
    skip: Option<u64>,
    projection: Option<P>,
) -> (r: FindSettings<P>)
    ensures
        r.sort == sort,
        r.skip == skip,
        r.projection == projection,
        match limit {
            Some(n) => r.limit == Some(as_signed(n) as i64),
            None => r.limit.is_none(),
        },
{
    let limit = match limit {
        Some(n) => Some(to_signed(n)),
        None => None,
    };
    FindSettings { sort, limit, skip, projection }
}

/// How an index is created.
pub struct IndexSettings<P> {
    pub name: Option<String>,
    pub unique: Option<bool>,
    pub sparse: Option<bool>,
    pub background: Option<bool>,
    /// The seconds after which a document expires.
    pub expire_after_secs: Option<u64>,
    pub partial_filter_expression: Option<P>,
    pub text_index_version: Option<i32>,
    pub default_language: Option<String>,
}

/// The settings of an index: each as given, the time to live with its bits
/// read as an unsigned number of seconds.
pub fn create_index_with_options<P>(
    name: Option<String>,
    unique: Option<bool>,
    sparse: Option<bool>,
    background: Option<bool>,
    expire_after_seconds: Option<i64>,
    partial_filter: Option<P>,
    text_index_version: Option<i32>,
    default_language: Option<String>,
) -> (r: IndexSettings<P>)
    ensures
        r.name == name,
        r.unique == unique,
        r.sparse == sparse,
        r.background == background,
        match expire_after_seconds {
            Some(ttl) => r.expire_after_secs == Some(as_unsigned(ttl) as u64),
            None => r.expire_after_secs.is_none(),
        },
        r.partial_filter_expression == partial_filter,
        r.text_index_version == text_index_version,
        r.default_language == default_language,
{
    let expire_after_secs = match expire_after_seconds {
        Some(ttl) => Some(to_unsigned(ttl)),
        None => None,
    };
    IndexSettings {
        name,
        unique,
        sparse,
        background,
        expire_after_secs,
        partial_filter_expression: partial_filter,
        text_index_version,
        default_language,
    }
}

} // verus!
