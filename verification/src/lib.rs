//! Conversion of mihomo / Clash proxy nodes into sing-box outbounds, and the
//! management of subscription providers in mihomo and sing-box configs.
use vstd::prelude::*;

pub mod box_subscriptions;
pub mod convert;
pub mod entries;
pub mod input;
pub mod json;
pub mod mihomo;
pub mod mihomo_edits;
pub mod outbound_providers;
pub mod outside;
pub mod template;
pub mod text;
pub mod yaml;

verus! {

} // verus!
