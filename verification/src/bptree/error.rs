//! What can be wrong with the pages of a tree.

use super::PageId;
use crate::text::{decimal, decimal_text, law_decimal, law_decimal_digits, number};
use vstd::prelude::*;
use vstd::string::StringExecFns;

verus! {

/// What is wrong with a tree whose pages do not fit together.
#[derive(Debug, Clone, Copy, PartialEq, Eq, Structural)]
pub enum TreeError {
    /// The way down came to a page number that no page has.
    UnknownPage,
    /// An internal node with too few children.
    CorruptInternal(PageId),
    /// The way down did not end at a leaf.
    NoLeafFound,
    /// The leaf to insert into is gone.
    LeafMissing,
    /// The page to insert into is no leaf.
    LeafOnly,
    /// The page to split as a leaf is none.
    LeafExpected,
    /// The page to split as a leaf is unknown.
    PageNotFound,
    /// The page to split as an internal node is none.
    SplitOfLeaf(PageId),
    /// The first page is not a child of the second.
    NotAChild(PageId, PageId),
    /// A leaf was expected at this page.
    NotALeaf(PageId),
    /// An internal node was expected at this page.
    NotInternal(PageId),
    /// A parent has to be an internal node.
    ParentNotInternal(PageId),
    /// The sibling of a leaf has to be a leaf.
    SiblingNotALeaf(PageId),
    /// The sibling of an internal node has to be one.
    SiblingNotInternal(PageId),
    /// A sibling has nothing to lend.
    EmptySibling(PageId),
}

/// What a [`TreeError`] says to a reader.
pub open spec fn tree_error_text(error: TreeError) -> Seq<char> {
    match error {
        TreeError::UnknownPage => "Invalid Page Id dereference"@,
        TreeError::CorruptInternal(p) => "corrupt internal node "@ + decimal(p as nat),
        TreeError::NoLeafFound => "find_leaf returned a non-leaf node"@,
        TreeError::LeafMissing => "the given node is corrupted"@,
        TreeError::LeafOnly => "Expected a leaf node ONLY"@,
        TreeError::LeafExpected => "Expected a leaf node"@,
        TreeError::PageNotFound => "Given page id not found"@,
        TreeError::SplitOfLeaf(p) => "split_internal called on leaf "@ + decimal(p as nat),
        TreeError::NotAChild(c, p) => "node "@ + decimal(c as nat) + " not a child of "@ + decimal(
            p as nat,
        ),
        TreeError::NotALeaf(p) => "node "@ + decimal(p as nat) + " is not a leaf"@,
        TreeError::NotInternal(p) => "node "@ + decimal(p as nat) + " is not internal"@,
        TreeError::ParentNotInternal(p) => "parent "@ + decimal(p as nat) + " is not internal"@,
        TreeError::SiblingNotALeaf(p) => "sibling "@ + decimal(p as nat) + " is not a leaf"@,
        TreeError::SiblingNotInternal(p) => "sibling "@ + decimal(p as nat) + " is not internal"@,
        TreeError::EmptySibling(p) => "sibling "@ + decimal(p as nat) + " is empty"@,
    }
}

/// A page number between two texts.
fn phrase(before: &str, page: PageId, after: &str) -> (text: String)
    ensures
        text@ == before@ + decimal(page as nat) + after@,
{
    let mut text: String = String::from_str(before);
    text.append(decimal_text(page).as_str());
    text.append(after);
    text
}

/// A text that ends with a page number.
fn ending(before: &str, page: PageId) -> (text: String)
    ensures
        text@ == before@ + decimal(page as nat),
{
    let mut text: String = String::from_str(before);
    text.append(decimal_text(page).as_str());
    text
}

impl TreeError {
    /// The error in words.
    pub fn message(&self) -> (text: String)
        ensures
            text@ == tree_error_text(*self),
    {
        match *self {
            TreeError::UnknownPage => String::from_str("Invalid Page Id dereference"),
            TreeError::CorruptInternal(p) => ending("corrupt internal node ", p),
            TreeError::NoLeafFound => String::from_str("find_leaf returned a non-leaf node"),
            TreeError::LeafMissing => String::from_str("the given node is corrupted"),
            TreeError::LeafOnly => String::from_str("Expected a leaf node ONLY"),
            TreeError::LeafExpected => String::from_str("Expected a leaf node"),
            TreeError::PageNotFound => String::from_str("Given page id not found"),
            TreeError::SplitOfLeaf(p) => ending("split_internal called on leaf ", p),
            TreeError::NotAChild(c, p) => {
                let mut text: String = phrase("node ", c, " not a child of ");
                text.append(decimal_text(p).as_str());
                text
            },
            TreeError::NotALeaf(p) => phrase("node ", p, " is not a leaf"),
            TreeError::NotInternal(p) => phrase("node ", p, " is not internal"),
            TreeError::ParentNotInternal(p) => phrase("parent ", p, " is not internal"),
            TreeError::SiblingNotALeaf(p) => phrase("sibling ", p, " is not a leaf"),
            TreeError::SiblingNotInternal(p) => phrase("sibling ", p, " is not internal"),
            TreeError::EmptySibling(p) => phrase("sibling ", p, " is empty"),
        }
    }
}

/// A message is the words for what is wrong, with the number of the page in its place: read as a
/// number, the digits in it give the page.
pub proof fn law_tree_error_text(page: PageId, other: PageId)
    ensures
        tree_error_text(TreeError::UnknownPage) == "Invalid Page Id dereference"@,
        tree_error_text(TreeError::NoLeafFound) == "find_leaf returned a non-leaf node"@,
        tree_error_text(TreeError::LeafMissing) == "the given node is corrupted"@,
        tree_error_text(TreeError::LeafOnly) == "Expected a leaf node ONLY"@,
        tree_error_text(TreeError::LeafExpected) == "Expected a leaf node"@,
        tree_error_text(TreeError::PageNotFound) == "Given page id not found"@,
        names(tree_error_text(TreeError::CorruptInternal(page)), "corrupt internal node "@, page, ""@),
        names(
            tree_error_text(TreeError::SplitOfLeaf(page)),
            "split_internal called on leaf "@,
            page,
            ""@,
        ),
        names(tree_error_text(TreeError::NotALeaf(page)), "node "@, page, " is not a leaf"@),
        names(tree_error_text(TreeError::NotInternal(page)), "node "@, page, " is not internal"@),
        names(
            tree_error_text(TreeError::ParentNotInternal(page)),
            "parent "@,
            page,
            " is not internal"@,
        ),
        names(
            tree_error_text(TreeError::SiblingNotALeaf(page)),
            "sibling "@,
            page,
            " is not a leaf"@,
        ),
        names(
            tree_error_text(TreeError::SiblingNotInternal(page)),
            "sibling "@,
            page,
            " is not internal"@,
        ),
        names(tree_error_text(TreeError::EmptySibling(page)), "sibling "@, page, " is empty"@),
        exists|rest: Seq<char>|
            {
                &&& #[trigger] names(
                    tree_error_text(TreeError::NotAChild(page, other)),
                    "node "@,
                    page,
                    rest,
                )
                &&& names(rest, " not a child of "@, other, ""@)
            },
{
    reveal_strlit("");
    lemma_names("corrupt internal node "@, page, ""@);
    lemma_names("split_internal called on leaf "@, page, ""@);
    assert("corrupt internal node "@ + decimal(page as nat) + ""@ =~= "corrupt internal node "@
        + decimal(page as nat));
    assert("split_internal called on leaf "@ + decimal(page as nat) + ""@
        =~= "split_internal called on leaf "@ + decimal(page as nat));
    lemma_names("node "@, page, " is not a leaf"@);
    lemma_names("node "@, page, " is not internal"@);
    lemma_names("parent "@, page, " is not internal"@);
    lemma_names("sibling "@, page, " is not a leaf"@);
    lemma_names("sibling "@, page, " is not internal"@);
    lemma_names("sibling "@, page, " is empty"@);
    let rest = " not a child of "@ + decimal(other as nat);
    lemma_names(" not a child of "@, other, ""@);
    assert(rest + ""@ =~= rest);
    lemma_names("node "@, page, rest);
    assert(tree_error_text(TreeError::NotAChild(page, other)) =~= "node "@ + decimal(page as nat)
        + rest);
}

/// `text` is `before`, then digits that read as the number of `page`, then `after`.
pub open spec fn names(text: Seq<char>, before: Seq<char>, page: PageId, after: Seq<char>) -> bool {
    let digits = text.subrange(before.len() as int, text.len() - after.len());
    &&& text.len() > before.len() + after.len()
    &&& text == before + digits + after
    &&& number(digits) == page
    &&& forall|i: int| 0 <= i < digits.len() ==> '0' <= #[trigger] digits[i] <= '9'
}

proof fn lemma_names(before: Seq<char>, page: PageId, after: Seq<char>)
    ensures
        names(before + decimal(page as nat) + after, before, page, after),
{
    let text = before + decimal(page as nat) + after;
    law_decimal(page as nat);
    law_decimal_digits(page as nat);
    assert(text.subrange(before.len() as int, text.len() - after.len()) =~= decimal(page as nat));
}

/// The message of an error names the pages that it is about.
pub proof fn law_tree_message(error: &TreeError, text: String)
    requires
        call_ensures(TreeError::message, (error,), text),
    ensures
        match *error {
            TreeError::UnknownPage => text@ == "Invalid Page Id dereference"@,
            TreeError::NoLeafFound => text@ == "find_leaf returned a non-leaf node"@,
            TreeError::LeafMissing => text@ == "the given node is corrupted"@,
            TreeError::LeafOnly => text@ == "Expected a leaf node ONLY"@,
            TreeError::LeafExpected => text@ == "Expected a leaf node"@,
            TreeError::PageNotFound => text@ == "Given page id not found"@,
            TreeError::CorruptInternal(p) => names(text@, "corrupt internal node "@, p, ""@),
            TreeError::SplitOfLeaf(p) => names(text@, "split_internal called on leaf "@, p, ""@),
            TreeError::NotAChild(c, p) => exists|rest: Seq<char>| #[trigger]
                names(text@, "node "@, c, rest) && names(rest, " not a child of "@, p, ""@),
            TreeError::NotALeaf(p) => names(text@, "node "@, p, " is not a leaf"@),
            TreeError::NotInternal(p) => names(text@, "node "@, p, " is not internal"@),
            TreeError::ParentNotInternal(p) => names(text@, "parent "@, p, " is not internal"@),
            TreeError::SiblingNotALeaf(p) => names(text@, "sibling "@, p, " is not a leaf"@),
            TreeError::SiblingNotInternal(p) => names(text@, "sibling "@, p, " is not internal"@),
            TreeError::EmptySibling(p) => names(text@, "sibling "@, p, " is empty"@),
        },
{
    match *error {
        TreeError::NotAChild(c, p) => law_tree_error_text(c, p),
        TreeError::CorruptInternal(p) => law_tree_error_text(p, p),
        TreeError::SplitOfLeaf(p) => law_tree_error_text(p, p),
        TreeError::NotALeaf(p) => law_tree_error_text(p, p),
        TreeError::NotInternal(p) => law_tree_error_text(p, p),
        TreeError::ParentNotInternal(p) => law_tree_error_text(p, p),
        TreeError::SiblingNotALeaf(p) => law_tree_error_text(p, p),
        TreeError::SiblingNotInternal(p) => law_tree_error_text(p, p),
        TreeError::EmptySibling(p) => law_tree_error_text(p, p),
        _ => {},
    }
}

} // verus!
