//! What matchers are configured with, behind common names.

use vstd::prelude::*;
use crate::error::RuleId;

verus! {

/// Something that holds a piece of configuration.
pub trait Storage<T: ?Sized + View> {
    /// The model of what is held.
    spec fn spec_get_content(&self) -> T::V;

    /// What is held.
    fn get_content(&self) -> (res: &T)
        ensures
            res@ == self.spec_get_content(),
    ;
}

/// Something that is configured with one text.
pub trait StringWrapper {
    /// The text.
    spec fn spec_content(&self) -> Seq<char>;

    /// The text.
    fn content(&self) -> (res: &[char])
        ensures
            res@ == self.spec_content(),
    ;
}

impl<T: StringWrapper> Storage<[char]> for T {
    open spec fn spec_get_content(&self) -> Seq<char> {
        self.spec_content()
    }

    fn get_content(&self) -> (res: &[char]) {
        self.content()
    }
}

/// Something that is configured with a list of texts.
pub trait StringArrayWrapper {
    /// The texts.
    spec fn spec_contents(&self) -> Seq<Vec<char>>;

    /// The texts.
    fn contents(&self) -> (res: &[Vec<char>])
        ensures
            res@ == self.spec_contents(),
    ;
}

impl<T: StringArrayWrapper> Storage<[Vec<char>]> for T {
    open spec fn spec_get_content(&self) -> Seq<Vec<char>> {
        self.spec_contents()
    }

    fn get_content(&self) -> (res: &[Vec<char>]) {
        self.contents()
    }
}

/// Something that stands for a rule.
pub trait RuleWrapper {
    /// Identity of the rule.
    spec fn spec_rule_id(&self) -> RuleId;

    /// Identity of the rule.
    fn rule_id(&self) -> (res: RuleId)
        ensures
            res == self.spec_rule_id(),
    ;
}

/// Something that matches a number of times between two bounds.
pub trait BoundWrapper {
    /// The least number of matches.
    spec fn spec_min(&self) -> nat;

    /// The greatest number of matches, as far as the matcher itself says;
    /// the limit of the context comes on top.
    spec fn spec_max(&self) -> nat;

    /// The least number of matches.
    fn min(&self) -> (res: usize)
        ensures
            res == self.spec_min(),
    ;

    /// The greatest number of matches.
    fn max(&self) -> (res: usize)
        ensures
            res == self.spec_max(),
    ;
}

} // verus!
