//! The parsed outline tree: pages and blocks, and the list-item mode switch.

use vstd::prelude::*;
use crate::registry::Id;
use crate::text::{
    list_item_to_normal, normal_to_list_item, spec_list_to_normal, spec_normal_to_list,
};

verus! {

/// One node of the outline tree. `text` holds the node's own content only;
/// descendant content lives in `children`.
#[derive(Debug)]
pub struct Block {
    pub text: String,
    pub id: Option<Id>,
    pub header: Option<String>,
    pub children: Vec<Block>,
    pub is_list_item: bool,
    pub self_border: bool,
}

/// A parsed source document: its title, aliases and top-level blocks.
#[derive(Debug)]
pub struct Page {
    pub title: String,
    pub alias: Vec<String>,
    pub blocks: Vec<Block>,
}

impl Block {
    /// How the text reads after a list-item mode switch.
    pub open spec fn spec_set_list_item(text: Seq<char>, cur: bool, to: bool) -> Seq<char> {
        if cur == to {
            text
        } else if to {
            spec_normal_to_list(text)
        } else {
            spec_list_to_normal(text)
        }
    }

    /// Switches the node between list-item and bare-paragraph rendering,
    /// rewriting the text marker and continuation indent accordingly.
    pub fn set_list_item(&mut self, is_list_item: bool)
        requires
            old(self).is_list_item && !is_list_item ==> old(self).text@.len() > 2 && old(
                self,
            ).text@[0] == '-' && old(self).text@[1] == ' ',
            !old(self).is_list_item && is_list_item ==> old(self).text@.len() > 0,
        ensures
            final(self).text@ == Self::spec_set_list_item(
                old(self).text@,
                old(self).is_list_item,
                is_list_item,
            ),
            final(self).is_list_item == is_list_item,
            final(self).id == old(self).id,
            final(self).header == old(self).header,
            final(self).children == old(self).children,
            final(self).self_border == old(self).self_border,
    {
        if is_list_item == self.is_list_item {
            return ;
        }
        if is_list_item {
            self.text = normal_to_list_item(self.text.as_str());
        } else {
            self.text = list_item_to_normal(self.text.as_str());
        }
        self.is_list_item = is_list_item;
    }
}

} // verus!
