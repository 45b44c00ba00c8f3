//! Placement padding: how many sites a cell keeps free at its left and at its right.

use vstd::prelude::*;
use crate::globs::{glob, tcl_string_match};
use crate::text::{contains, has_part, same_text};

verus! {

/// Padding in sites, left and right: for every cell, by master pattern and by instance, in the order given.
#[derive(Debug)]
pub struct Padding {
    pub global: (i32, i32),
    pub masters: Vec<(String, (i32, i32))>,
    pub insts: Vec<(String, (i32, i32))>,
}

/// The last of the first `n` entries of a name.
pub open spec fn by_name(list: Seq<(String, (i32, i32))>, name: Seq<char>, n: int) -> Option<(i32, i32)>
    decreases n,
{
    if n <= 0 {
        None
    } else if list[n - 1].0@ == name {
        Some(list[n - 1].1)
    } else {
        by_name(list, name, n - 1)
    }
}

/// The last of the first `n` entries whose pattern matches a name.
pub open spec fn by_pattern(list: Seq<(String, (i32, i32))>, name: Seq<char>, n: int) -> Option<(i32, i32)>
    decreases n,
{
    if n <= 0 {
        None
    } else if glob(list[n - 1].0@, name) {
        Some(list[n - 1].1)
    } else {
        by_pattern(list, name, n - 1)
    }
}

impl Padding {
    /// No padding is given.
    pub open spec fn nothing(&self) -> bool {
        self.global == (0i32, 0i32) && self.masters@.len() == 0 && self.insts@.len() == 0
    }

    /// Is no padding given?
    pub fn is_none(&self) -> (r: bool)
        ensures
            r == self.nothing(),
    {
        self.global.0 == 0 && self.global.1 == 0 && self.masters.len() == 0 && self.insts.len() == 0
    }

    /// A cell's padding: that of its instance, else that of the last pattern that matches its master, else
    /// that of every cell. Only core cells have any.
    pub open spec fn sites_of(&self, inst: Seq<char>, master: Seq<char>, master_type: Seq<char>) -> (i32, i32) {
        if !has_part(master_type, "CORE"@) {
            (0, 0)
        } else {
            match by_name(self.insts@, inst, self.insts@.len() as int) {
                Some(v) => v,
                None => match by_pattern(self.masters@, master, self.masters@.len() as int) {
                    Some(v) => v,
                    None => self.global,
                },
            }
        }
    }

    /// A cell's padding, from the names of its instance and its master and from its master's type.
    pub fn of(&self, inst: &str, master: &str, master_type: &str) -> (r: (i32, i32))
        ensures
            r == self.sites_of(inst@, master@, master_type@),
    {
        if !contains(master_type, "CORE") {
            return (0, 0);
        }
        let mut k: usize = self.insts.len();
        while k > 0
            invariant
                k <= self.insts@.len(),
                has_part(master_type@, "CORE"@),
                by_name(self.insts@, inst@, self.insts@.len() as int) == by_name(self.insts@, inst@, k as int),
            decreases k,
        {
            let e = &self.insts[k - 1];
            if same_text(e.0.as_str(), inst) {
                return e.1;
            }
            k = k - 1;
        }
        let mut j: usize = self.masters.len();
        while j > 0
            invariant
                j <= self.masters@.len(),
                has_part(master_type@, "CORE"@),
                by_name(self.insts@, inst@, self.insts@.len() as int) is None,
                by_pattern(self.masters@, master@, self.masters@.len() as int) == by_pattern(self.masters@, master@, j as int),
            decreases j,
        {
            let e = &self.masters[j - 1];
            if tcl_string_match(e.0.as_str(), master) {
                return e.1;
            }
            j = j - 1;
        }
        self.global
    }
}

/// Where nothing is given, no cell has padding.
pub proof fn law_nothing_given_pads_nothing(p: Padding, inst: Seq<char>, master: Seq<char>, master_type: Seq<char>)
    requires
        p.nothing(),
    ensures
        p.sites_of(inst, master, master_type) == (0i32, 0i32),
{
}

} // verus!
