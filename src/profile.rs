use vstd::prelude::*;

verus! {

/// What a profile is, as values: the display name and the email address.
pub type ProfileView = (Seq<char>, Seq<char>);

/// A stored identity: the display name and the email address.
#[derive(Clone, Debug)]
pub struct Profile {
    pub name: String,
    pub email: String,
}

impl View for Profile {
    type V = ProfileView;

    open spec fn view(&self) -> ProfileView {
        (self.name@, self.email@)
    }
}

impl Profile {
    pub fn new(name: String, email: String) -> (r: Profile)
        ensures
            r.name@ == name@,
            r.email@ == email@,
    {
        Profile { name, email }
    }

    /// A copy of this profile that is known to hold the same text.
    pub fn copied(&self) -> (r: Profile)
        ensures
            r@ == self@,
    {
        Profile { name: self.name.clone(), email: self.email.clone() }
    }
}

impl PartialEq for Profile {
    fn eq(&self, o: &Profile) -> (r: bool) {
        self.name == o.name && self.email == o.email
    }
}

impl vstd::std_specs::cmp::PartialEqSpecImpl for Profile {
    open spec fn obeys_eq_spec() -> bool {
        true
    }

    open spec fn eq_spec(&self, o: &Profile) -> bool {
        self@ == o@
    }
}

} // verus!
