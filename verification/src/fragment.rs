use vstd::prelude::*;

verus! {

/// One step of writing a statement out. A plan is a list of these, performed in order by
/// whoever holds the statement under construction.
#[derive(Debug, Clone, Copy, PartialEq, Eq)]
pub enum Fragment<'a> {
    /// The wrapped query is written here, by its owner.
    Inner,
    /// Literal SQL text.
    Sql(&'a str),
    /// A bound parameter of the 64-bit integer type.
    BigInt(&'a i64),
    /// A bound parameter of the 32-bit integer type.
    Integer(&'a i32),
    /// A bound boolean parameter.
    Bool(&'a bool),
}

/// What a fragment says, without the borrows.
pub enum FragmentView {
    /// The place of the wrapped query.
    Inner,
    /// Literal text, by its characters.
    Sql(Seq<char>),
    /// A bound 64-bit integer, by its value.
    BigInt(int),
    /// A bound 32-bit integer, by its value.
    Integer(int),
    /// A bound boolean.
    Bool(bool),
}

impl<'a> View for Fragment<'a> {
    type V = FragmentView;

    open spec fn view(&self) -> FragmentView {
        match *self {
            Fragment::Inner => FragmentView::Inner,
            Fragment::Sql(text) => FragmentView::Sql(text@),
            Fragment::BigInt(value) => FragmentView::BigInt(*value as int),
            Fragment::Integer(value) => FragmentView::Integer(*value as int),
            Fragment::Bool(value) => FragmentView::Bool(*value),
        }
    }
}

impl<'a> DeepView for Fragment<'a> {
    type V = FragmentView;

    open spec fn deep_view(&self) -> FragmentView {
        self@
    }
}

} // verus!
