use crate::parser::Fault;
use crate::grammer::{OutcomeView, outcome_of};
use vstd::prelude::*;

verus! {

/// What a chapter carries besides its text and its sub-items. None of it is read here: it goes
/// through unchanged.
#[derive(Debug, Clone, PartialEq, Eq)]
pub struct ChapterInfo {
    /// The chapter's name.
    pub name: String,
    /// The chapter's section number, if it has one.
    pub number: Option<Vec<u32>>,
    /// The chapter's location.
    pub path: Option<String>,
    /// The chapter's source file.
    pub source_path: Option<String>,
    /// The names of the chapters above this one.
    pub parent_names: Vec<String>,
}

/// A chapter of a book: a text, and the items below it.
#[derive(Debug, PartialEq, Eq)]
pub struct Chapter {
    pub info: ChapterInfo,
    /// The chapter's text, in which directives are resolved.
    pub content: String,
    /// The items nested in the chapter.
    pub sub_items: Vec<BookItem>,
}

/// An item of a book.
#[derive(Debug, PartialEq, Eq)]
pub enum BookItem {
    /// A chapter, with the items nested in it.
    Chapter(Chapter),
    /// A separator between sections.
    Separator,
    /// The title of a part.
    PartTitle(String),
}

/// A book: a sequence of items.
#[derive(Debug, PartialEq, Eq)]
pub struct Book {
    pub sections: Vec<BookItem>,
}

/// The mathematical value of a [`Chapter`].
pub struct ChapterView {
    pub info: ChapterInfo,
    pub content: Seq<char>,
    pub sub_items: Seq<BookItemView>,
}

/// The mathematical value of a [`BookItem`].
pub enum BookItemView {
    Chapter(ChapterView),
    Separator,
    PartTitle(Seq<char>),
}

impl View for Chapter {
    type V = ChapterView;

    open spec fn view(&self) -> ChapterView
        decreases self,
    {
        ChapterView {
            info: self.info,
            content: self.content@,
            sub_items: items_view(self.sub_items@),
        }
    }
}

impl View for BookItem {
    type V = BookItemView;

    open spec fn view(&self) -> BookItemView
        decreases self,
    {
        match self {
            BookItem::Chapter(chapter) => BookItemView::Chapter(chapter@),
            BookItem::Separator => BookItemView::Separator,
            BookItem::PartTitle(title) => BookItemView::PartTitle(title@),
        }
    }
}

impl View for Book {
    type V = Seq<BookItemView>;

    open spec fn view(&self) -> Seq<BookItemView> {
        items_view(self.sections@)
    }
}

/// The values of a sequence of items, in order.
pub open spec fn items_view(items: Seq<BookItem>) -> Seq<BookItemView>
    decreases items,
{
    Seq::new(
        items.len(),
        |i: int|
            if 0 <= i < items.len() {
                items[i]@
            } else {
                BookItemView::Separator
            },
    )
}

/// The values of a sequence with one more item are the values of the sequence with the value
/// of that item behind them.
pub proof fn lemma_items_view_push(items: Seq<BookItem>, item: BookItem)
    ensures
        items_view(items.push(item)) == items_view(items).push(item@),
{
    assert(items_view(items.push(item)) =~= items_view(items).push(item@));
}

/// What becomes of a chapter when `flags` are the active flags.
///
/// The chapter's text is evaluated first. A fault in it is the result. Where the text is
/// dropped, the chapter goes, and with it all that is nested in it, unread. Where the text
/// stays, it takes the place of the chapter's text, and the nested items are processed in turn.
pub open spec fn processed_chapter(chapter: ChapterView, flags: Set<Seq<char>>) -> Result<
    Option<ChapterView>,
    Fault,
>
    decreases chapter,
{
    match outcome_of(chapter.content, flags) {
        OutcomeView::ParseError(fault) => Err(fault),
        OutcomeView::Dropped => Ok(None),
        OutcomeView::Success(content) => match processed_items(chapter.sub_items, flags) {
            Ok(sub_items) => Ok(Some(ChapterView { info: chapter.info, content, sub_items })),
            Err(fault) => Err(fault),
        },
    }
}

/// What becomes of an item when `flags` are the active flags: a chapter is processed, and
/// anything else stays as it is.
pub open spec fn processed_item(item: BookItemView, flags: Set<Seq<char>>) -> Result<
    Option<BookItemView>,
    Fault,
>
    decreases item,
{
    match item {
        BookItemView::Chapter(chapter) => match processed_chapter(chapter, flags) {
            Ok(Some(kept)) => Ok(Some(BookItemView::Chapter(kept))),
            Ok(None) => Ok(None),
            Err(fault) => Err(fault),
        },
        other => Ok(Some(other)),
    }
}

/// What becomes of a sequence of items when `flags` are the active flags: the items that stay,
/// each processed, in their order; or the first fault met on the way.
pub open spec fn processed_items(items: Seq<BookItemView>, flags: Set<Seq<char>>) -> Result<
    Seq<BookItemView>,
    Fault,
>
    decreases items,
{
    if items.len() == 0 {
        Ok(Seq::empty())
    } else {
        match processed_item(items[0], flags) {
            Ok(first) => match processed_items(items.drop_first(), flags) {
                Ok(rest) => Ok(
                    match first {
                        Some(kept) => seq![kept] + rest,
                        None => rest,
                    },
                ),
                Err(fault) => Err(fault),
            },
            Err(fault) => Err(fault),
        }
    }
}

/// Processing a sequence is processing its front and then its back: the first fault met on the
/// way is the result, else what stays of the front followed by what stays of the back.
pub proof fn lemma_processed_concat(
    front: Seq<BookItemView>,
    back: Seq<BookItemView>,
    flags: Set<Seq<char>>,
)
    ensures
        processed_items(front + back, flags) == match processed_items(front, flags) {
            Ok(kept_front) => match processed_items(back, flags) {
                Ok(kept_back) => Ok(kept_front + kept_back),
                Err(fault) => Err(fault),
            },
            Err(fault) => Err(fault),
        },
    decreases front.len(),
{
    if front.len() == 0 {
        assert(front + back == back);
        if let Ok(kept_back) = processed_items(back, flags) {
            assert(Seq::<BookItemView>::empty() + kept_back == kept_back);
        }
    } else {
        assert((front + back).drop_first() == front.drop_first() + back);
        assert((front + back)[0] == front[0]);
        lemma_processed_concat(front.drop_first(), back, flags);
        if let Ok(first) = processed_item(front[0], flags) {
            if let Ok(kept_front) = processed_items(front.drop_first(), flags) {
                if let Ok(kept_back) = processed_items(back, flags) {
                    if let Some(kept) = first {
                        assert(seq![kept] + (kept_front + kept_back) == (seq![kept] + kept_front)
                            + kept_back);
                    }
                }
            }
        }
    }
}

/// Processing a single item as a sequence gives what processing the item gives.
pub proof fn lemma_processed_single(item: BookItemView, flags: Set<Seq<char>>)
    ensures
        processed_items(seq![item], flags) == match processed_item(item, flags) {
            Ok(Some(kept)) => Ok(seq![kept]),
            Ok(None) => Ok(Seq::empty()),
            Err(fault) => Err(fault),
        },
{
    let one = seq![item];
    assert(one.drop_first() == Seq::<BookItemView>::empty());
    assert(processed_items(one.drop_first(), flags) == Ok::<_, Fault>(Seq::<BookItemView>::empty()));
    assert(one[0] == item);
    if let Ok(Some(kept)) = processed_item(item, flags) {
        assert(seq![kept] + Seq::<BookItemView>::empty() == seq![kept]);
    }
}

} // verus!
