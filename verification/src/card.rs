//! Card data model: one extracted flashcard and its content variants.

use vstd::prelude::*;

verus! {

/// One flashcard extracted from one region of a source file.
#[derive(Debug)]
pub struct Card {
    /// The source file the card came from.
    pub file_path: String,
    /// Half-open line-index interval `[start, end)` that produced the card.
    pub file_card_range: (usize, usize),
    /// The card's text content.
    pub content: CardContent,
    /// Stable content-derived identity: a fixed-length hex digest.
    pub card_hash: String,
}

/// The two content variants of a card.
#[derive(Clone, Debug)]
pub enum CardContent {
    Basic { question: String, answer: String },
    Cloze { text: String, start: usize, end: usize },
}

/// Coarse tag naming the two content variants.
#[derive(Debug, PartialEq, Eq, Structural)]
pub enum CardType {
    Basic,
    Cloze,
}

/// Why a segment or a path could not become a card.
#[derive(Clone, Copy, Debug, PartialEq, Eq, Structural)]
pub enum CardError {
    /// The path was empty after trimming.
    EmptyPath,
    /// The path names a directory, not a file.
    DirectoryPath,
    /// The path does not end in a markdown extension.
    NotMarkdown,
    /// The segment has a cloze line but no bracketed span in it.
    ClozeMissingSpan,
    /// The segment has neither a question/answer pair nor a cloze line.
    InvalidSegment,
}

/// Mathematical model of a [`Card`].
#[verifier::ext_equal]
pub ghost struct CardView {
    pub file_path: Seq<char>,
    pub range_start: int,
    pub range_end: int,
    pub content: CardContentView,
    pub card_hash: Seq<char>,
}

/// Mathematical model of a [`CardContent`].
#[verifier::ext_equal]
pub ghost enum CardContentView {
    Basic { question: Seq<char>, answer: Seq<char> },
    Cloze { text: Seq<char>, start: int, end: int },
}

impl View for CardContent {
    type V = CardContentView;

    open spec fn view(&self) -> CardContentView {
        match self {
            CardContent::Basic { question, answer } => CardContentView::Basic {
                question: question@,
                answer: answer@,
            },
            CardContent::Cloze { text, start, end } => CardContentView::Cloze {
                text: text@,
                start: *start as int,
                end: *end as int,
            },
        }
    }
}

impl View for Card {
    type V = CardView;

    open spec fn view(&self) -> CardView {
        CardView {
            file_path: self.file_path@,
            range_start: self.file_card_range.0 as int,
            range_end: self.file_card_range.1 as int,
            content: self.content@,
            card_hash: self.card_hash@,
        }
    }
}

impl CardContent {
    /// The tag of this content variant.
    pub fn card_type(&self) -> (t: CardType)
        ensures
            t == CardType::Basic <==> self@ is Basic,
            t == CardType::Cloze <==> self@ is Cloze,
    {
        match self {
            CardContent::Basic { .. } => CardType::Basic,
            CardContent::Cloze { .. } => CardType::Cloze,
        }
    }
}

} // verus!
