use rxyz::config::{
    checkout_step, config, rebuild_docs_and_manual, renderling_docs_url, CheckoutStep, Environment,
};

#[test]
fn docs_urls() {
    assert_eq!(renderling_docs_url(Environment::Local), "http://127.0.0.1:4000/docs");
    assert_eq!(renderling_docs_url(Environment::Staging), "https://staging.renderling.xyz/docs");
    assert_eq!(renderling_docs_url(Environment::Production), "https://renderling.xyz/docs");
}

#[test]
fn site_configs() {
    let c = config(Environment::Local);
    assert_eq!(c.root_url, "http://127.0.0.1:4000");
    assert_eq!(c.cloudfront_distro, None);
    assert_eq!(c.s3_bucket, None);
    let c = config(Environment::Staging);
    assert_eq!(c.root_url, "https://staging.renderling.xyz");
    assert_eq!(c.cloudfront_distro.as_deref(), Some("E16FY1FTWBR11T"));
    assert_eq!(c.s3_bucket.as_deref(), Some("staging.renderling.xyz"));
    let c = config(Environment::Production);
    assert_eq!(c.root_url, "https://renderling.xyz");
    assert_eq!(c.cloudfront_distro.as_deref(), Some("E27AC3A8NB65G6"));
    assert_eq!(c.s3_bucket.as_deref(), Some("renderling.xyz"));
}

#[test]
fn checkout_steps() {
    assert_eq!(checkout_step(false, false), CheckoutStep::Clone);
    assert_eq!(checkout_step(false, true), CheckoutStep::Clone);
    assert_eq!(checkout_step(true, true), CheckoutStep::Refresh);
    assert_eq!(checkout_step(true, false), CheckoutStep::Keep);
    assert!(rebuild_docs_and_manual(false, false, true, true));
    assert!(rebuild_docs_and_manual(true, true, true, true));
    assert!(rebuild_docs_and_manual(true, false, false, true));
    assert!(rebuild_docs_and_manual(true, false, true, false));
    assert!(!rebuild_docs_and_manual(true, false, true, true));
}
