//! Which machines a dormant kernel's entry speaks for.

use vstd::prelude::*;
use vstd::string::StringSliceAdditionalSpecFns;

use crate::arch::{same_str, Kernel};

verus! {

/// One kernel some silicon can execute that no calibration prices *there*, and the
/// reason it is waiting. `None` in `os` or `arch` means every one of them.
#[derive(Debug, Clone, Copy)]
pub struct Dormant {
    /// The operating system this speaks for, or `None` for all of them.
    pub os: Option<&'static str>,
    /// The architecture this speaks for, or `None` for all of them.
    pub arch: Option<&'static str>,
    /// The kernel left unpriced.
    pub kernel: Kernel,
    /// Why it is unpriced, in the words of whoever left it that way.
    pub why: &'static str,
}

/// `filter` admits `name`: it names nothing, or names exactly `name`.
pub open spec fn admits(filter: Option<&str>, name: &str) -> bool {
    match filter {
        None => true,
        Some(it) => it.spec_bytes() == name.spec_bytes(),
    }
}

impl Dormant {
    /// Whether this entry speaks for the named machine.
    pub fn covers(&self, os: &str, arch: &str) -> (r: bool)
        ensures
            r == (admits(self.os, os) && admits(self.arch, arch)),
    {
        let os_ok = match self.os {
            None => true,
            Some(it) => same_str(it, os),
        };
        let arch_ok = match self.arch {
            None => true,
            Some(it) => same_str(it, arch),
        };
        os_ok && arch_ok
    }
}

} // verus!
