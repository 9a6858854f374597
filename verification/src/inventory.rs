//! What an item is good for.
use vstd::prelude::*;

verus! {

/// A property of an item, by which tasks ask for items.
#[derive(Clone, Copy, PartialEq, Eq, Debug, Structural)]
pub enum ItemTag {
    Pickaxe,
    Stone,
}

impl ItemTag {
    /// The tag's name.
    pub fn name(&self) -> (text: &'static str)
        ensures
            text@ == self.spec_name(),
    {
        match self {
            ItemTag::Pickaxe => "Pickaxe",
            ItemTag::Stone => "Stone",
        }
    }

    /// The name of each tag: the word by which the tag is written.
    pub open spec fn spec_name(&self) -> Seq<char> {
        match self {
            ItemTag::Pickaxe => "Pickaxe"@,
            ItemTag::Stone => "Stone"@,
        }
    }
}

/// Whether `all` holds `tag`.
fn has_tag(all: &[ItemTag], tag: ItemTag) -> (found: bool)
    ensures
        found == all@.contains(tag),
{
    let mut i: usize = 0;
    while i < all.len()
        invariant
            i <= all.len(),
            forall|k: int| 0 <= k < i ==> all@[k] != tag,
        decreases all.len() - i,
    {
        if all[i] == tag {
            return true;
        }
        i += 1;
    }
    false
}

/// Whether every tag of `test` is among `all`.
pub fn test_item_tags(all: &[ItemTag], test: &[ItemTag]) -> (r: bool)
    ensures
        r == forall|i: int| 0 <= i < test@.len() ==> all@.contains(#[trigger] test@[i]),
{
    let mut i: usize = 0;
    while i < test.len()
        invariant
            i <= test.len(),
            forall|k: int| 0 <= k < i ==> all@.contains(#[trigger] test@[k]),
        decreases test.len() - i,
    {
        if !has_tag(all, test[i]) {
            return false;
        }
        i += 1;
    }
    true
}

} // verus!
