pub mod book;
pub mod flags;
pub mod grammer;
pub mod lexer;
pub mod parser;
pub mod syntax;
pub mod text;
pub mod theorems;
pub mod tree;

use crate::book::{
    Book, BookItem, BookItemView, Chapter, items_view, lemma_items_view_push,
    lemma_processed_concat, lemma_processed_single, processed_chapter, processed_item,
    processed_items,
};
use crate::flags::{FlagsHolder, names_of};
use crate::grammer::{Outcome, evaluate};
use crate::parser::{Fault, ParseError};
use vstd::prelude::*;

verus! {

/// Resolves the directives in the chapters of a book against a set of active flags.
pub struct IfdefProcessor {
    flags: FlagsHolder,
}

impl IfdefProcessor {
    /// The active flags.
    pub closed spec fn flags(&self) -> Set<Seq<char>> {
        self.flags@
    }

    /// A processor under which `flags` are active.
    pub fn new(flags: FlagsHolder) -> (processor: Self)
        ensures
            processor.flags() == flags@,
    {
        Self { flags }
    }

    /// A processor under which the flags named in `flags` are active.
    pub fn from_vec(flags: Vec<String>) -> (processor: Self)
        ensures
            processor.flags() == names_of(flags@),
    {
        Self { flags: FlagsHolder::new(flags) }
    }

    /// Processes a chapter: gives the chapter with its text resolved and its nested items
    /// processed, `None` where the chapter is dropped, or the first fault met.
    pub fn process_chapter(&self, chapter: Chapter) -> (processed: Result<
        Option<Chapter>,
        ParseError,
    >)
        ensures
            processed_chapter(chapter@, self.flags()) == match processed {
                Ok(Some(kept)) => Ok(Some(kept@)),
                Ok(None) => Ok(None),
                Err(error) => Err(error@),
            },
        decreases chapter,
    {
        let Chapter { info, content, sub_items } = chapter;
        match evaluate(content.as_str(), &self.flags) {
            Outcome::ParseError(error) => Err(error),
            Outcome::Dropped => Ok(None),
            Outcome::Success(text) => match self.process_items(sub_items) {
                Ok(kept) => Ok(Some(Chapter { info, content: text, sub_items: kept })),
                Err(error) => Err(error),
            },
        }
    }

    /// Processes an item: a chapter is processed, and anything else stays as it is.
    pub fn process_item(&self, section: BookItem) -> (processed: Result<
        Option<BookItem>,
        ParseError,
    >)
        ensures
            processed_item(section@, self.flags()) == match processed {
                Ok(Some(kept)) => Ok(Some(kept@)),
                Ok(None) => Ok(None),
                Err(error) => Err(error@),
            },
        decreases section,
    {
        match section {
            BookItem::Chapter(chapter) => match self.process_chapter(chapter) {
                Ok(Some(kept)) => Ok(Some(BookItem::Chapter(kept))),
                Ok(None) => Ok(None),
                Err(error) => Err(error),
            },
            other => Ok(Some(other)),
        }
    }

    /// Processes items in order: gives those that stay, or the first fault met.
    pub fn process_items(&self, items: Vec<BookItem>) -> (processed: Result<
        Vec<BookItem>,
        ParseError,
    >)
        ensures
            processed_items(items_view(items@), self.flags()) == match processed {
                Ok(kept) => Ok(items_view(kept@)),
                Err(error) => Err(error@),
            },
        decreases items,
    {
        let ghost all = items_view(items@);
        let ghost flags = self.flags();
        let mut kept: Vec<BookItem> = Vec::new();
        assert(all.take(0) == Seq::<BookItemView>::empty());
        assert(items_view(kept@) == Seq::<BookItemView>::empty());
        for item in it: items.into_iter()
            invariant
                it.seq() == items@,
                all == items_view(items@),
                flags == self.flags(),
                processed_items(all.take(it.index() as int), flags) == Ok::<_, Fault>(
                    items_view(kept@),
                ),
        {
            let ghost i = it.index() as int;
            proof {
                assert(all[i] == item@);
                assert(all.take(i + 1) == all.take(i) + seq![all[i]]);
                assert(all == all.take(i + 1) + all.skip(i + 1));
                lemma_processed_concat(all.take(i), seq![all[i]], flags);
                lemma_processed_concat(all.take(i + 1), all.skip(i + 1), flags);
                lemma_processed_single(all[i], flags);
            }
            match self.process_item(item) {
                Ok(Some(processed)) => {
                    proof {
                        lemma_items_view_push(kept@, processed);
                        assert(items_view(kept@) + seq![processed@] == items_view(kept@).push(
                            processed@,
                        ));
                    }
                    kept.push(processed);
                },
                Ok(None) => {
                    assert(items_view(kept@) + Seq::<BookItemView>::empty() == items_view(kept@));
                },
                Err(error) => {
                    return Err(error);
                },
            }
        }
        assert(all.take(items@.len() as int) == all);
        Ok(kept)
    }

    /// Processes a book: gives the book with the items that stay, or the first fault met.
    pub fn run(&self, book: Book) -> (processed: Result<Book, ParseError>)
        ensures
            processed_items(book@, self.flags()) == match processed {
                Ok(kept) => Ok(kept@),
                Err(error) => Err(error@),
            },
    {
        match self.process_items(book.sections) {
            Ok(sections) => Ok(Book { sections }),
            Err(error) => Err(error),
        }
    }
}

impl Default for IfdefProcessor {
    fn default() -> (processor: Self)
        ensures
            processor.flags() == Set::<Seq<char>>::empty(),
    {
        Self { flags: FlagsHolder::default() }
    }
}

} // verus!
