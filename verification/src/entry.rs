//! One launchable application, as the ranking sees it.

use vstd::prelude::*;

verus! {

/// Why an entry was refused, or why activating one failed.
#[derive(Debug, Clone, Copy, PartialEq, Eq, Structural)]
pub enum EntryError {
    /// The display name of an entry was empty.
    InvalidEntry,
    /// The program behind an entry could not be started.
    LaunchFailure,
}

/// The mathematical content of an [`EntryObject`].
pub struct EntryView {
    /// The text shown to the user, which the query is matched against.
    pub name: Seq<char>,
    /// The icon to show; never interpreted here.
    pub icon: Seq<char>,
    /// What the launcher needs to start the program, where it is known.
    pub desktop_entry: Option<Seq<char>>,
    /// The relevance under the query applied last.
    pub score: i64,
}

/// A launchable application: its name, icon and launch target, which never
/// change, and the relevance score that each query sets anew.
pub struct EntryObject {
    name: String,
    icon: String,
    desktop_entry: Option<String>,
    score: i64,
}

impl View for EntryObject {
    type V = EntryView;

    closed spec fn view(&self) -> EntryView {
        EntryView {
            name: self.name@,
            icon: self.icon@,
            desktop_entry: match self.desktop_entry {
                Some(target) => Some(target@),
                None => None,
            },
            score: self.score,
        }
    }
}

impl EntryObject {
    /// Every entry has a name to match against.
    #[verifier::type_invariant]
    pub open spec fn wf(&self) -> bool {
        self@.name.len() > 0
    }

    /// An entry without a launch target, with score 0. An empty name is
    /// refused.
    pub fn new(name: &str, icon: &str) -> (made: Result<EntryObject, EntryError>)
        ensures
            name@.len() == 0 <==> made is Err,
            made is Err ==> made == Err::<EntryObject, EntryError>(EntryError::InvalidEntry),
            made is Ok ==> made->Ok_0.wf() && made->Ok_0@ == (EntryView {
                name: name@,
                icon: icon@,
                desktop_entry: None,
                score: 0,
            }),
    {
        if name.is_empty() {
            return Err(EntryError::InvalidEntry);
        }
        Ok(EntryObject { name: name.to_owned(), icon: icon.to_owned(), desktop_entry: None, score: 0 })
    }

    /// An entry that can be launched, with score 0. An empty name is refused.
    pub fn create(name: &str, icon: &str, desktop_entry: &str) -> (made: Result<
        EntryObject,
        EntryError,
    >)
        ensures
            name@.len() == 0 <==> made is Err,
            made is Err ==> made == Err::<EntryObject, EntryError>(EntryError::InvalidEntry),
            made is Ok ==> made->Ok_0.wf() && made->Ok_0@ == (EntryView {
                name: name@,
                icon: icon@,
                desktop_entry: Some(desktop_entry@),
                score: 0,
            }),
    {
        if name.is_empty() {
            return Err(EntryError::InvalidEntry);
        }
        Ok(
            EntryObject {
                name: name.to_owned(),
                icon: icon.to_owned(),
                desktop_entry: Some(desktop_entry.to_owned()),
                score: 0,
            },
        )
    }

    /// The display name.
    pub fn name(&self) -> (name: &str)
        ensures
            name@ == self@.name,
            name@.len() > 0,
    {
        proof {
            use_type_invariant(self);
        }
        self.name.as_str()
    }

    /// The icon reference.
    pub fn icon(&self) -> (icon: &str)
        ensures
            icon@ == self@.icon,
    {
        self.icon.as_str()
    }

    /// The launch target, where the entry has one.
    pub fn desktop_entry(&self) -> (target: Option<&str>)
        ensures
            target is Some <==> self@.desktop_entry is Some,
            target is Some ==> target->0@ == self@.desktop_entry->0,
    {
        match &self.desktop_entry {
            Some(target) => Some(target.as_str()),
            None => None,
        }
    }

    /// The relevance score stored last.
    pub fn score(&self) -> (score: i64)
        ensures
            score == self@.score,
    {
        self.score
    }

    /// Stores a relevance score; nothing else changes.
    pub fn set_score(&mut self, value: i64)
        ensures
            final(self).wf(),
            final(self)@ == (EntryView { score: value, ..old(self)@ }),
    {
        proof {
            use_type_invariant(&*self);
        }
        self.score = value;
    }

    /// The target to hand to whatever starts programs. Only an entry that
    /// has one can be launched.
    pub fn launch(&self) -> (target: &str)
        requires
            self@.desktop_entry is Some,
        ensures
            target@ == self@.desktop_entry->0,
    {
        self.desktop_entry.as_ref().unwrap().as_str()
    }
}

/// What follows a launch attempt: once the program has started the
/// launcher has done its work and is to exit; a program that did not start
/// is a failure that ends the activation, with no second attempt.
pub fn after_launch(started: bool) -> (done: Result<(), EntryError>)
    ensures
        started <==> done is Ok,
        done is Err ==> done == Err::<(), EntryError>(EntryError::LaunchFailure),
{
    if started {
        Ok(())
    } else {
        Err(EntryError::LaunchFailure)
    }
}

} // verus!
