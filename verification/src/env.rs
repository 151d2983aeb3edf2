//! How active features are shown to a build script: one environment
//! signal for each feature that is active in the script's unit.

use crate::activation::ActivationTable;
use crate::context::Unit;
use crate::request::Request;
use crate::rules::Atom;
use crate::text::to_upper;
use crate::text::uppercased;
use vstd::prelude::*;
use vstd::string::*;

verus! {

/// The name of the signal for a feature whose upper-case form is
/// `upper`.
pub open spec fn signal_name(upper: Seq<char>) -> Seq<char> {
    "CARGO_FEATURE_"@ + upper
}

/// The value of every signal.
pub open spec fn signal_value() -> Seq<char> {
    "1"@
}

/// The name of the signal, given the feature's name in upper case.
pub fn signal_from_upper(upper: &String) -> (name: String)
    ensures
        name@ == signal_name(upper@),
{
    let mut name = String::from_str("CARGO_FEATURE_");
    name.append(upper.as_str());
    name
}

/// The name of the signal for a feature: `CARGO_FEATURE_` and the
/// feature's name in upper case.
pub fn feature_signal(feature: &String) -> (name: String)
    ensures
        name@ == signal_name(uppercased(feature@)),
{
    let upper = to_upper(feature.as_str());
    signal_from_upper(&upper)
}

/// The signals for a unit that is about to run its build script: for
/// every feature that is active in the unit its signal, with the value
/// `1`, and no other signal.
pub fn build_script_env(table: &ActivationTable, unit: Unit) -> (env: Vec<(String, String)>)
    requires
        table.wf(),
    ensures
        forall|k: int|
            0 <= k < env@.len() ==> (#[trigger] env@[k]).1@ == signal_value() && exists|
                f: Seq<char>,
            |
                table.atoms().contains(Atom::Active(unit, Request::Plain(f))) && env@[k].0@
                    == #[trigger] signal_name(uppercased(f)),
        forall|f: Seq<char>|
            table.atoms().contains(Atom::Active(unit, Request::Plain(f))) ==> exists|k: int|
                0 <= k < env@.len() && (#[trigger] env@[k]).0@ == signal_name(uppercased(f)),
{
    let names = table.features(unit);
    let ghost texts = crate::text::texts_of(names@);
    let mut env: Vec<(String, String)> = Vec::new();
    let mut i: usize = 0;
    while i < names.len()
        invariant
            i <= names.len(),
            env@.len() == i,
            texts == crate::text::texts_of(names@),
            forall|k: int|
                0 <= k < i ==> (#[trigger] env@[k]).1@ == signal_value() && env@[k].0@
                    == signal_name(uppercased(texts[k])),
        decreases names.len() - i,
    {
        assert(texts[i as int] == names@[i as int]@);
        env.push((feature_signal(&names[i]), String::from_str("1")));
        i += 1;
    }
    proof {
        assert forall|k: int| 0 <= k < env@.len() implies (#[trigger] env@[k]).1@ == signal_value()
            && exists|f: Seq<char>|
            table.atoms().contains(Atom::Active(unit, Request::Plain(f))) && env@[k].0@
                == #[trigger] signal_name(uppercased(f)) by {
            assert(texts.contains(texts[k]));
            assert(env@[k].0@ == signal_name(uppercased(texts[k])));
        }
        assert forall|f: Seq<char>|
            table.atoms().contains(Atom::Active(unit, Request::Plain(f))) implies exists|k: int|
            0 <= k < env@.len() && (#[trigger] env@[k]).0@ == signal_name(uppercased(f)) by {
            assert(texts.contains(f));
            let k = choose|k: int| 0 <= k < texts.len() && texts[k] == f;
            assert(env@[k].0@ == signal_name(uppercased(f)));
        }
    }
    env
}

} // verus!
