//! Named identity profiles (a display name and an email address) kept in a
//! store sorted by label, and the decisions that switch a version-control
//! tool's global identity to one of them.

use vstd::prelude::*;

pub mod bridge;
pub mod dispatch;
pub mod label;
pub mod profile;
pub mod store;

pub use bridge::{confirms_overwrite, get_outcome, is_yes, set_outcome, Setting};
pub use dispatch::{plan_switch, SwitchPlan};
pub use label::compare_labels;
pub use profile::{Profile, ProfileView};
pub use store::Config;

verus! {

} // verus!
