//! The input forms for a new entry and for a new profile, and what a form window reports.
use vstd::prelude::*;
use crate::addr::{ip_literal, is_ip};
use crate::string_ext::StringExt;
use crate::text::trim;

verus! {

/// The fields of the form that adds an entry or aliases.
#[derive(Debug, Default)]
pub struct ItemForm {
    pub ip: String,
    pub hosts: String,
    pub ip_error: String,
    pub hosts_error: String,
}

impl ItemForm {
    /// Empties every field.
    pub fn reset(&mut self)
        ensures
            final(self).ip@.len() == 0,
            final(self).hosts@.len() == 0,
            final(self).ip_error@.len() == 0,
            final(self).hosts_error@.len() == 0,
    {
        self.ip = String::new();
        self.hosts = String::new();
        self.ip_error = String::new();
        self.hosts_error = String::new();
    }

    /// Trims the address and checks it, then trims the aliases and checks that there are
    /// some; the first failed check sets its error message.
    pub fn validate(&mut self) -> (r: bool)
        ensures
            final(self).ip@ == trim(old(self).ip@),
            r == (trim(old(self).ip@).len() > 0 && ip_literal(trim(old(self).ip@)) && trim(
                old(self).hosts@,
            ).len() > 0),
            trim(old(self).ip@).len() == 0 ==> final(self).ip_error@ == "IP address is empty"@
                && final(self).hosts == old(self).hosts && final(self).hosts_error
                == old(self).hosts_error,
            trim(old(self).ip@).len() > 0 && !ip_literal(trim(old(self).ip@)) ==> final(self).ip_error@ == "`"@ + trim(old(self).ip@) + "` is not a valid IP address"@ && final(self).hosts == old(self).hosts && final(self).hosts_error == old(self).hosts_error,
            trim(old(self).ip@).len() > 0 && ip_literal(trim(old(self).ip@)) ==> final(self).ip_error == old(self).ip_error && final(self).hosts@ == trim(old(self).hosts@) && (
            if trim(old(self).hosts@).len() == 0 {
                final(self).hosts_error@ == "hosts is empty"@
            } else {
                final(self).hosts_error == old(self).hosts_error
            }),
    {
        self.ip.make_trim();
        if self.ip.as_str().is_empty() {
            self.ip_error = String::from_str("IP address is empty");
            return false;
        }
        if !is_ip(self.ip.as_str()) {
            let mut msg = String::from_str("`");
            msg.append(self.ip.as_str());
            msg.append("` is not a valid IP address");
            self.ip_error = msg;
            return false;
        }
        self.hosts.make_trim();
        if self.hosts.as_str().is_empty() {
            self.hosts_error = String::from_str("hosts is empty");
            return false;
        }
        true
    }

    /// Trims the aliases and checks that there are some, setting the message when not.
    pub fn validate_hosts(&mut self) -> (r: bool)
        ensures
            final(self).hosts@ == trim(old(self).hosts@),
            r == (trim(old(self).hosts@).len() > 0),
            !r ==> final(self).hosts_error@ == "hosts is empty"@,
            r ==> final(self).hosts_error == old(self).hosts_error,
            final(self).ip == old(self).ip,
            final(self).ip_error == old(self).ip_error,
    {
        self.hosts.make_trim();
        if self.hosts.as_str().is_empty() {
            self.hosts_error = String::from_str("hosts is empty");
            return false;
        }
        true
    }
}

/// The field of the form that names a new profile.
#[derive(Debug, Default)]
pub struct ProfileForm {
    pub name: String,
    pub error: String,
}

impl ProfileForm {
    /// Empties every field.
    pub fn reset(&mut self)
        ensures
            final(self).name@.len() == 0,
            final(self).error@.len() == 0,
    {
        self.name = String::new();
        self.error = String::new();
    }

    /// Trims the name; fails with a message when it is empty, or when `check_exists` says
    /// that a profile of that name exists.
    pub fn validate<F: FnOnce(&str) -> bool>(&mut self, check_exists: F) -> (r: bool)
        requires
            forall|s: &str| check_exists.requires((s,)),
        ensures
            final(self).name@ == trim(old(self).name@),
            trim(old(self).name@).len() == 0 ==> !r && final(self).error@ == "name is empty"@,
            trim(old(self).name@).len() > 0 ==> (exists|s: &str, b: bool|
                s@ == final(self).name@ && check_exists.ensures((s,), b) && r == !b),
            trim(old(self).name@).len() > 0 && !r ==> final(self).error@ == "`"@ + final(self).name@ + "` already exists"@,
            r ==> final(self).error == old(self).error,
    {
        self.name.make_trim();
        if self.name.as_str().is_empty() {
            self.error = String::from_str("name is empty");
            return false;
        }
        let exists = check_exists(self.name.as_str());
        if exists {
            let mut msg = String::from_str("`");
            msg.append(self.name.as_str());
            msg.append("` already exists");
            self.error = msg;
            return false;
        }
        true
    }
}

/// What a form window reports after a frame: closed, confirmed, or neither.
#[derive(Debug, Default, Clone, Copy, PartialEq, Eq)]
pub struct FormWindowResponse {
    pub close: bool,
    pub ok: bool,
}

} // verus!
