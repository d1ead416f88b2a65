//! The screen's modes, the labels it shows for them, and what a confirmation
//! prompt remembers.

use vstd::prelude::*;

verus! {

/// The period the entries table shows.
#[derive(Clone, Copy, Debug, PartialEq, Eq, Structural)]
pub enum ViewMode {
    All,
    Day,
    Week,
    Month,
    Year,
}

impl ViewMode {
    /// The panel heading for this view.
    pub fn title(&self) -> (r: &'static str)
        ensures
            r@ == match *self {
                ViewMode::All => "All Entries"@,
                ViewMode::Day => "Daily View"@,
                ViewMode::Week => "Weekly View"@,
                ViewMode::Month => "Monthly View"@,
                ViewMode::Year => "Yearly View"@,
            },
    {
        match self {
            ViewMode::All => "All Entries",
            ViewMode::Day => "Daily View",
            ViewMode::Week => "Weekly View",
            ViewMode::Month => "Monthly View",
            ViewMode::Year => "Yearly View",
        }
    }

    /// The one-word scope name, for places that name the period inline. A real
    /// mapping, so renaming a variant cannot change what the screen says.
    pub fn label(&self) -> (r: &'static str)
        ensures
            r@ == match *self {
                ViewMode::All => "all"@,
                ViewMode::Day => "day"@,
                ViewMode::Week => "week"@,
                ViewMode::Month => "month"@,
                ViewMode::Year => "year"@,
            },
    {
        match self {
            ViewMode::All => "all",
            ViewMode::Day => "day",
            ViewMode::Week => "week",
            ViewMode::Month => "month",
            ViewMode::Year => "year",
        }
    }
}

/// What the keyboard is currently driving.
#[derive(Clone, Copy, Debug, PartialEq, Eq, Structural)]
pub enum InputMode {
    Normal,
    AddingEntry,
    EditingEntry,
    Searching,
    Help,
    /// The selected entry's detail popover.
    Detail,
    /// A destructive action is waiting for a yes; which one lives beside the mode.
    Confirm,
}

/// Which destructive action a confirmation prompt stands in front of. Each knows
/// the key that raised it, because that same key confirms it.
#[derive(Clone, Copy, Debug, PartialEq, Eq, Structural)]
pub enum ConfirmAction {
    Delete,
    Trim,
}

impl ConfirmAction {
    /// The key that opens this prompt, and therefore also confirms it.
    pub fn key(self) -> (r: char)
        ensures
            r == match self {
                ConfirmAction::Delete => 'd',
                ConfirmAction::Trim => 't',
            },
    {
        match self {
            ConfirmAction::Delete => 'd',
            ConfirmAction::Trim => 't',
        }
    }

    /// The prompt's verb, capitalised for the title: `Trim`, never "split".
    pub fn verb(self) -> (r: &'static str)
        ensures
            r@ == match self {
                ConfirmAction::Delete => "Delete"@,
                ConfirmAction::Trim => "Trim"@,
            },
    {
        match self {
            ConfirmAction::Delete => "Delete",
            ConfirmAction::Trim => "Trim",
        }
    }
}

/// A destructive action asked for and not yet answered. The entry is captured
/// when the prompt is raised, never read back from the selection when answered.
#[derive(Clone, Copy, Debug, PartialEq, Eq, Structural)]
pub struct PendingConfirm {
    pub action: ConfirmAction,
    pub entry_id: u64,
    /// The mode the prompt was raised from, so cancelling puts the screen back.
    pub from: InputMode,
}

/// The fields of the entry form.
#[derive(Clone, Copy, Debug, PartialEq, Eq, Structural)]
pub enum InputField {
    Description,
    Project,
    Tags,
    StartTime,
    EndTime,
    Duration,
}

/// One of the two collapsible value pickers.
#[derive(Clone, Copy, Debug, PartialEq, Eq, Structural)]
pub enum Pane {
    Projects,
    Tags,
}

impl Pane {
    /// Block title, with the toggle key so the surface documents itself.
    pub fn title(self) -> (r: &'static str)
        ensures
            r@ == match self {
                Pane::Projects => " Projects (P) "@,
                Pane::Tags => " Tags (T) "@,
            },
    {
        match self {
            Pane::Projects => " Projects (P) ",
            Pane::Tags => " Tags (T) ",
        }
    }
}

/// What `j`/`k` move: the entries table, or the cursor inside a pane.
#[derive(Clone, Copy, Debug, PartialEq, Eq, Structural)]
pub enum Focus {
    Table,
    Pane(Pane),
}

/// The entries table's order.
#[derive(Clone, Copy, Debug, PartialEq, Eq, Structural)]
pub enum SortOrder {
    NewestFirst,
    OldestFirst,
}

impl SortOrder {
    /// The other order.
    pub fn toggle(self) -> (r: SortOrder)
        ensures
            r != self,
            r == match self {
                SortOrder::NewestFirst => SortOrder::OldestFirst,
                SortOrder::OldestFirst => SortOrder::NewestFirst,
            },
    {
        match self {
            SortOrder::NewestFirst => SortOrder::OldestFirst,
            SortOrder::OldestFirst => SortOrder::NewestFirst,
        }
    }

    pub fn label(self) -> (r: &'static str)
        ensures
            r@ == match self {
                SortOrder::NewestFirst => "newest first"@,
                SortOrder::OldestFirst => "oldest first"@,
            },
    {
        match self {
            SortOrder::NewestFirst => "newest first",
            SortOrder::OldestFirst => "oldest first",
        }
    }
}

/// Toggling twice is the identity.
pub proof fn lemma_toggle_twice(order: SortOrder)
    ensures
        (match (match order {
            SortOrder::NewestFirst => SortOrder::OldestFirst,
            SortOrder::OldestFirst => SortOrder::NewestFirst,
        }) {
            SortOrder::NewestFirst => SortOrder::OldestFirst,
            SortOrder::OldestFirst => SortOrder::NewestFirst,
        }) == order,
{
}

} // verus!
