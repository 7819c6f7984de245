//! Where the site is deployed: its root URL, its CloudFront distribution, its S3 bucket and
//! the URL of the renderling docs, for each environment.
use vstd::prelude::*;

verus! {

/// The environment the site is built for.
#[derive(Debug, Clone, Copy, PartialEq, Eq, Structural)]
pub enum Environment {
    Local,
    Staging,
    Production,
}

/// The URL of the renderling docs in the environment.
pub open spec fn docs_url_of(e: Environment) -> Seq<char> {
    match e {
        Environment::Local => "http://127.0.0.1:4000/docs"@,
        Environment::Staging => "https://staging.renderling.xyz/docs"@,
        Environment::Production => "https://renderling.xyz/docs"@,
    }
}

/// The root URL of the site in the environment.
pub open spec fn root_url_of(e: Environment) -> Seq<char> {
    match e {
        Environment::Local => "http://127.0.0.1:4000"@,
        Environment::Staging => "https://staging.renderling.xyz"@,
        Environment::Production => "https://renderling.xyz"@,
    }
}

/// The CloudFront distribution that serves the site in the environment, if any.
pub open spec fn cloudfront_distro_of(e: Environment) -> Option<Seq<char>> {
    match e {
        Environment::Local => None,
        Environment::Staging => Some("E16FY1FTWBR11T"@),
        Environment::Production => Some("E27AC3A8NB65G6"@),
    }
}

/// The S3 bucket that holds the site in the environment, if any.
pub open spec fn s3_bucket_of(e: Environment) -> Option<Seq<char>> {
    match e {
        Environment::Local => None,
        Environment::Staging => Some("staging.renderling.xyz"@),
        Environment::Production => Some("renderling.xyz"@),
    }
}

/// The URL of the renderling docs in the environment.
pub fn renderling_docs_url(e: Environment) -> (r: &'static str)
    ensures
        r@ == docs_url_of(e),
{
    match e {
        Environment::Local => "http://127.0.0.1:4000/docs",
        Environment::Staging => "https://staging.renderling.xyz/docs",
        Environment::Production => "https://renderling.xyz/docs",
    }
}

/// Where the site goes in one environment.
pub struct SiteConfig {
    pub root_url: String,
    pub cloudfront_distro: Option<String>,
    pub s3_bucket: Option<String>,
}

/// An optional string slice as an owned string.
fn owned(o: Option<&str>) -> (r: Option<String>)
    ensures
        r matches Some(s) ==> o matches Some(t) && s@ == t@,
        r is None <==> o is None,
{
    match o {
        Some(t) => Some(t.to_string()),
        None => None,
    }
}

/// The configuration of the site in the environment.
pub fn config(e: Environment) -> (r: SiteConfig)
    ensures
        r.root_url@ == root_url_of(e),
        r.cloudfront_distro matches Some(d) ==> cloudfront_distro_of(e) == Some(d@),
        r.cloudfront_distro is None <==> cloudfront_distro_of(e) is None,
        r.s3_bucket matches Some(b) ==> s3_bucket_of(e) == Some(b@),
        r.s3_bucket is None <==> s3_bucket_of(e) is None,
{
    let (root_url, distro, bucket) = match e {
        Environment::Local => ("http://127.0.0.1:4000", None, None),
        Environment::Staging => (
            "https://staging.renderling.xyz",
            Some("E16FY1FTWBR11T"),
            Some("staging.renderling.xyz"),
        ),
        Environment::Production => (
            "https://renderling.xyz",
            Some("E27AC3A8NB65G6"),
            Some("renderling.xyz"),
        ),
    };
    SiteConfig {
        root_url: root_url.to_string(),
        cloudfront_distro: owned(distro),
        s3_bucket: owned(bucket),
    }
}

} // verus!

verus! {

/// What is done to the renderling checkout before the site is built.
#[derive(Debug, Clone, Copy, PartialEq, Eq, Structural)]
pub enum CheckoutStep {
    /// There is no checkout: clone the repository.
    Clone,
    /// Check out the branch and pull it.
    Refresh,
    /// Leave the checkout as it is.
    Keep,
}

/// The step for the checkout: clone it where it does not exist, else refresh it where asked.
pub fn checkout_step(checkout_exists: bool, refresh: bool) -> (r: CheckoutStep)
    ensures
        !checkout_exists ==> r == CheckoutStep::Clone,
        checkout_exists && refresh ==> r == CheckoutStep::Refresh,
        checkout_exists && !refresh ==> r == CheckoutStep::Keep,
{
    if !checkout_exists {
        CheckoutStep::Clone
    } else if refresh {
        CheckoutStep::Refresh
    } else {
        CheckoutStep::Keep
    }
}

/// Whether the docs and the manual are built again: always after a fresh clone, and otherwise
/// where the checkout was refreshed or either of them is missing.
pub fn rebuild_docs_and_manual(
    checkout_exists: bool,
    refresh: bool,
    docs_exist: bool,
    manual_exists: bool,
) -> (r: bool)
    ensures
        r == (!checkout_exists || refresh || !docs_exist || !manual_exists),
{
    if checkout_exists {
        refresh || !docs_exist || !manual_exists
    } else {
        true
    }
}

} // verus!
