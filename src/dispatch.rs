use vstd::prelude::*;

use crate::bridge::{user_email_key, user_email_key_string, user_name_key, user_name_key_string, Setting};
use crate::store::{is_label_listing_of, Config};

verus! {

/// What switching to a profile comes to.
pub enum SwitchPlan {
    /// Write these settings, in this order.
    Apply(Vec<Setting>),
    /// There is no such profile: nothing is written, and these are the
    /// labels that are known, sorted.
    Unknown(Vec<String>),
}

/// Decides what switching to `label` does.
pub fn plan_switch(config: &Config, label: &str) -> (r: SwitchPlan)
    ensures
        match r {
            SwitchPlan::Apply(s) => {
                &&& config@.contains_key(label@)
                &&& s@.len() == 2
                &&& s@[0]@ == (user_name_key(), config@[label@].0)
                &&& s@[1]@ == (user_email_key(), config@[label@].1)
            },
            SwitchPlan::Unknown(ls) => {
                &&& !config@.contains_key(label@)
                &&& is_label_listing_of(config@, ls@.map_values(|x: String| x@))
            },
        },
{
    match config.get(label) {
        Some(p) => {
            let mut s: Vec<Setting> = Vec::new();
            s.push(Setting { key: user_name_key_string(), value: p.name.clone() });
            s.push(Setting { key: user_email_key_string(), value: p.email.clone() });
            SwitchPlan::Apply(s)
        },
        None => SwitchPlan::Unknown(config.labels()),
    }
}

} // verus!
