//! Verified core of an X-Plane add-on manager: text formats, update plans
//! and the decisions that sit between file system and network work.
#![allow(unused_imports)]

use vstd::prelude::*;

pub mod num;
pub mod text;
pub mod zibo;
pub mod flatten;
pub mod xupdater;
pub mod csl;
pub mod gateway;
pub mod skunk;
pub mod addon;
pub mod digest;
pub mod manage;
pub mod json;
pub mod gateway_payload;
pub mod apt_index;
pub mod flatten_index;
pub mod profile_json;
pub mod xupdater_lock;
pub mod gateway_install;
pub mod profile_laws;
pub mod link_sync;
pub mod zibo_plan;
pub mod path_laws;
pub mod host_laws;
pub mod script_laws;
pub mod zibo_backup;
pub mod flatten_cache_laws;
pub mod flatten_laws;
pub mod flatten_text_laws;
pub mod plan_laws;

verus! {

} // verus!
