//! The messages and states the engine exchanges with its consumer: page
//! items arriving, sync commands, search input, and the load-request
//! state the consumer keeps between pages.

use crate::marks::{BookmarkCategory, MarkData, MarkMeta};
use crate::utils::Error;
use vstd::prelude::*;

verus! {

/// Relies on std's derived `Clone` for `Result`: cloning a result clones
/// the held value or error. Declared only so the message enums can derive
/// `Clone`; nothing is claimed of it.
pub assume_specification<T: Clone, E: Clone>[ <Result<T, E> as Clone>::clone ](
    r: &Result<T, E>,
) -> Result<T, E>;

/// Side events the consumer may surface; none carry any information
/// today.
#[derive(Debug, Clone)]
pub enum Events {
    /// The empty event.
    NoEvent,
}

/// Messages of the record listing.
#[allow(missing_docs)]
#[derive(Debug, Clone)]
pub enum MCMessage {
    LoadMark(MarkMeta),
    GotoClicked(MarkData),
    LoadMore(usize),
    Refresh(Result<(), Error>),
    SearchInputChanged(String),
    Search,
    CategoryClicked,
}

/// Messages of the category list.
#[allow(missing_docs)]
#[derive(Debug, Clone)]
pub enum CategoryMessage {
    CategoryClicked(BookmarkCategory),
    Reload(Result<(), Error>),
}

/// Messages of the side bar.
#[allow(missing_docs)]
#[derive(Debug, Clone)]
pub enum SideBarMessage {
    CategoryMessage(CategoryMessage),
}

/// Messages of the header: sync state and the cache commands.
#[allow(missing_docs)]
#[derive(Debug, Clone)]
pub enum HeaderMessage {
    Loading,
    Loaded,
    ClearCache,
    Resync,
}

/// Every message the engine's consumer routes.
#[allow(missing_docs)]
#[derive(Debug, Clone)]
pub enum Message {
    MCEvent(MCMessage),
    SideBarMessage(SideBarMessage),
    HeaderMessage(HeaderMessage),
    Events(Events),
    Syncing(Result<(), Error>),
    Synced,
}

/// What the consumer is waiting for: the next page under an offset,
/// category and search tuple, or nothing.
#[allow(missing_docs)]
#[derive(Debug, Clone)]
pub enum State {
    LoadItems(usize, Option<BookmarkCategory>, Option<String>),
    Idle,
}

} // verus!
