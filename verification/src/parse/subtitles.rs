//! Labels and column rules of the anime dataset.

use vstd::prelude::*;
use crate::text::text_is;

verus! {

/// Column that holds the source's name.
pub const SOURCE_FIELD_INDEX: usize = 30;

/// First of the columns that flag a production company.
pub const FIRST_COMPANY_INDEX: usize = 37;

/// Last of the columns that flag a production company.
pub const LAST_COMPANY_INDEX: usize = 970;

/// The kind of work a title was adapted from.
#[derive(Debug, Clone, Copy, PartialEq, Eq, Hash, Structural)]
pub enum Source {
    /// An original work.
    Original,
    /// A manga.
    Manga,
    /// A light novel.
    LightNovel,
    /// A web novel.
    WebNovel,
    /// A novel.
    Novel,
    /// Another anime.
    Anime,
    /// A visual novel.
    VisualNovel,
    /// A video game.
    VideoGame,
    /// A doujinshi.
    Doujinshi,
    /// A comic.
    Comic,
    /// A live-action work.
    LiveAction,
    /// A game.
    Game,
    /// A multimedia project.
    MultimediaProject,
    /// Anything else.
    Other,
}

/// The source a column text names, if it names one.
pub open spec fn source_named(text: Seq<char>) -> Option<Source> {
    if text == "Original"@ {
        Some(Source::Original)
    } else if text == "Manga"@ {
        Some(Source::Manga)
    } else if text == "Light Novel"@ {
        Some(Source::LightNovel)
    } else if text == "Web Novel"@ {
        Some(Source::WebNovel)
    } else if text == "Novel"@ {
        Some(Source::Novel)
    } else if text == "Anime"@ {
        Some(Source::Anime)
    } else if text == "Visual Novel"@ {
        Some(Source::VisualNovel)
    } else if text == "Video Game"@ {
        Some(Source::VideoGame)
    } else if text == "Doujinshi"@ {
        Some(Source::Doujinshi)
    } else if text == "Comic"@ {
        Some(Source::Comic)
    } else if text == "Live Action"@ {
        Some(Source::LiveAction)
    } else if text == "Game"@ {
        Some(Source::Game)
    } else if text == "Multimedia Project"@ {
        Some(Source::MultimediaProject)
    } else if text == "Other"@ {
        Some(Source::Other)
    } else {
        None
    }
}

/// The text the dataset writes where the source is unknown.
pub open spec fn is_missing_source(text: Seq<char>) -> bool {
    text == "?"@
}

/// The unknown-source mark is not the name of a source.
pub proof fn lemma_missing_is_no_source(text: Seq<char>)
    requires
        is_missing_source(text),
    ensures
        source_named(text).is_none(),
{
    reveal_strlit("?");
    reveal_strlit("Original");
    reveal_strlit("Manga");
    reveal_strlit("Light Novel");
    reveal_strlit("Web Novel");
    reveal_strlit("Novel");
    reveal_strlit("Anime");
    reveal_strlit("Visual Novel");
    reveal_strlit("Video Game");
    reveal_strlit("Doujinshi");
    reveal_strlit("Comic");
    reveal_strlit("Live Action");
    reveal_strlit("Game");
    reveal_strlit("Multimedia Project");
    reveal_strlit("Other");
    assert(text.len() == 1);
    assert("Original"@.len() == 8);
    assert("Manga"@.len() == 5);
    assert("Light Novel"@.len() == 11);
    assert("Web Novel"@.len() == 9);
    assert("Novel"@.len() == 5);
    assert("Anime"@.len() == 5);
    assert("Visual Novel"@.len() == 12);
    assert("Video Game"@.len() == 10);
    assert("Doujinshi"@.len() == 9);
    assert("Comic"@.len() == 5);
    assert("Live Action"@.len() == 11);
    assert("Game"@.len() == 4);
    assert("Multimedia Project"@.len() == 18);
    assert("Other"@.len() == 5);
}

/// Reads a source's name, or `None` for any other text.
pub fn parse_source(source: &str) -> (parsed: Option<Source>)
    ensures
        parsed == source_named(source@),
{
    if text_is(source, "Original") {
        Some(Source::Original)
    } else if text_is(source, "Manga") {
        Some(Source::Manga)
    } else if text_is(source, "Light Novel") {
        Some(Source::LightNovel)
    } else if text_is(source, "Web Novel") {
        Some(Source::WebNovel)
    } else if text_is(source, "Novel") {
        Some(Source::Novel)
    } else if text_is(source, "Anime") {
        Some(Source::Anime)
    } else if text_is(source, "Visual Novel") {
        Some(Source::VisualNovel)
    } else if text_is(source, "Video Game") {
        Some(Source::VideoGame)
    } else if text_is(source, "Doujinshi") {
        Some(Source::Doujinshi)
    } else if text_is(source, "Comic") {
        Some(Source::Comic)
    } else if text_is(source, "Live Action") {
        Some(Source::LiveAction)
    } else if text_is(source, "Game") {
        Some(Source::Game)
    } else if text_is(source, "Multimedia Project") {
        Some(Source::MultimediaProject)
    } else if text_is(source, "Other") {
        Some(Source::Other)
    } else {
        None
    }
}

/// Whether `source` is a text that `to_source` reads: the name of a source or
/// the unknown-source mark.
pub fn is_source_text(source: &str) -> (known: bool)
    ensures
        known == (source_named(source@).is_some() || is_missing_source(source@)),
{
    parse_source(source).is_some() || text_is(source, "?")
}

/// Reads a source's name. The unknown-source mark gives the error
/// `no source`. The dataset holds no other text in that column, and none is
/// accepted here.
pub fn to_source(source: &str) -> (parsed: Result<Source, &'static str>)
    requires
        source_named(source@).is_some() || is_missing_source(source@),
    ensures
        match parsed {
            Ok(named) => source_named(source@) == Some(named),
            Err(message) => is_missing_source(source@) && message@ == "no source"@,
        },
        parsed.is_err() <==> is_missing_source(source@),
{
    proof {
        if is_missing_source(source@) {
            lemma_missing_is_no_source(source@);
        }
    }
    match parse_source(source) {
        Some(named) => Ok(named),
        None => Err("no source"),
    }
}

/// Whether the column at `index` holds a numeric feature: it comes after the
/// source column and is not a company flag.
pub fn is_value_field(index: usize) -> (value: bool)
    ensures
        value == (index > SOURCE_FIELD_INDEX && !(FIRST_COMPANY_INDEX <= index
            <= LAST_COMPANY_INDEX)),
{
    !(index <= SOURCE_FIELD_INDEX || (FIRST_COMPANY_INDEX <= index && index <= LAST_COMPANY_INDEX))
}

} // verus!
