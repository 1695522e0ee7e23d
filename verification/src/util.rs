//! Small rules on names.

use crate::text::{chars_of, index_of, slice_of, str_eq, string_of};
use vstd::prelude::*;

verus! {

/// A package that is known under another name.
#[derive(Debug, Clone, PartialEq, Eq)]
pub struct NameOverride {
    pub name: String,
    pub replacement: String,
}

/// The name that `overrides` put in place of `name`: the replacement of the
/// first override for `name`, or `name` itself.
pub open spec fn overridden(name: Seq<char>, overrides: Seq<NameOverride>) -> Seq<char>
    decreases overrides.len(),
{
    if overrides.len() == 0 {
        name
    } else if overrides[0].name@ == name {
        overrides[0].replacement@
    } else {
        overridden(name, overrides.drop_first())
    }
}

/// The package name in `name`: what stands before the first `-`, behind
/// which a version hash follows.
pub open spec fn bare_name(name: Seq<char>) -> Seq<char> {
    name.take(index_of(name, '-'))
}

/// The name of a package without its version hash, after `overrides` had
/// their say.
pub fn fix_package_name(name: &str, overrides: &Vec<NameOverride>) -> (r: String)
    ensures
        r@ == bare_name(overridden(name@, overrides@)),
{
    let mut chosen = chars_of(name);
    let mut i: usize = 0;
    proof {
        assert(overrides@.skip(0) == overrides@);
    }
    while i < overrides.len()
        invariant_except_break
            chosen@ == name@,
            overridden(name@, overrides@) == overridden(name@, overrides@.skip(i as int)),
        invariant
            i <= overrides.len(),
        ensures
            chosen@ == overridden(name@, overrides@),
        decreases overrides.len() - i,
    {
        let ghost rest = overrides@.skip(i as int);
        assert(rest[0] == overrides@[i as int]);
        assert(rest.drop_first() == overrides@.skip(i + 1));
        if str_eq(overrides[i].name.as_str(), name) {
            chosen = chars_of(overrides[i].replacement.as_str());
            break ;
        }
        i = i + 1;
    }
    let mut end: usize = 0;
    proof {
        assert(chosen@.skip(0) == chosen@);
    }
    while end < chosen.len() && chosen[end] != '-'
        invariant
            end <= chosen.len(),
            index_of(chosen@, '-') == end + index_of(chosen@.skip(end as int), '-'),
        decreases chosen.len() - end,
    {
        let ghost rest = chosen@.skip(end as int);
        assert(rest[0] == chosen@[end as int]);
        assert(rest.drop_first() == chosen@.skip(end + 1));
        end = end + 1;
    }
    proof {
        let rest = chosen@.skip(end as int);
        if end < chosen.len() {
            assert(rest[0] == chosen@[end as int]);
        }
        assert(index_of(rest, '-') == 0);
        assert(chosen@.take(end as int) == chosen@.subrange(0, end as int));
    }
    string_of(&slice_of(&chosen, 0, end))
}

/// Whether `class` is a class of scripts.
pub open spec fn is_script_class(class: Seq<char>) -> bool {
    class == "Script"@ || class == "LocalScript"@ || class == "ModuleScript"@
}

/// The file extension under which the scripts of `class` are written.
pub open spec fn script_extension(class: Seq<char>) -> Seq<char> {
    if class == "Script"@ {
        ".server.lua"@
    } else if class == "LocalScript"@ {
        ".client.lua"@
    } else {
        ".lua"@
    }
}

/// The file extension under which a script of the class `class` is written.
pub fn get_script_extension_from_class(class: &str) -> (r: &'static str)
    requires
        is_script_class(class@),
    ensures
        r@ == script_extension(class@),
{
    if str_eq(class, "Script") {
        ".server.lua"
    } else if str_eq(class, "LocalScript") {
        ".client.lua"
    } else {
        ".lua"
    }
}

} // verus!
