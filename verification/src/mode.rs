//! The two ways in which the assistant talks.

use vstd::prelude::*;
use vstd::string::*;

verus! {

/// The way in which the assistant talks.
#[derive(Debug, Clone, Copy, PartialEq, Eq, Structural)]
pub enum AppMode {
    /// A helper for any task.
    Companion,
    /// A teller of stories.
    Youniverse,
}

impl AppMode {
    /// The mode's name.
    pub open spec fn name(self) -> Seq<char> {
        match self {
            AppMode::Companion => "companion"@,
            AppMode::Youniverse => "youniverse"@,
        }
    }

    /// What the model is told about its part in this mode.
    pub open spec fn prompt(self) -> Seq<char> {
        match self {
            AppMode::Companion =>
                "You are Aura, a helpful and versatile AI assistant. You help with any task - answering questions, brainstorming ideas, solving problems, providing information, or just having a conversation. You're friendly, clear, and adapt to what the user needs."@,
            AppMode::Youniverse =>
                "You are an imaginative AI storyteller in the 'You'niverse. You craft engaging narratives, develop rich characters, and help users explore creative storylines. You adapt to different genres, maintain story continuity, and encourage creative expression."@,
        }
    }

    /// The mode with this name, if there is one.
    pub open spec fn named(name: Seq<char>) -> Option<AppMode> {
        if name == AppMode::Companion.name() {
            Some(AppMode::Companion)
        } else if name == AppMode::Youniverse.name() {
            Some(AppMode::Youniverse)
        } else {
            None
        }
    }

    /// What a caller is told of a name that is no mode's.
    pub open spec fn unknown(name: Seq<char>) -> Seq<char> {
        "Unknown mode: "@ + name
    }

    /// The mode's name.
    pub fn to_string(&self) -> (r: String)
        ensures
            r@ == self.name(),
    {
        match self {
            AppMode::Companion => "companion".to_owned(),
            AppMode::Youniverse => "youniverse".to_owned(),
        }
    }

    /// What the model is told about its part in this mode.
    pub fn system_prompt(&self) -> (r: String)
        ensures
            r@ == self.prompt(),
    {
        match self {
            AppMode::Companion =>
                "You are Aura, a helpful and versatile AI assistant. You help with any task - answering questions, brainstorming ideas, solving problems, providing information, or just having a conversation. You're friendly, clear, and adapt to what the user needs.".to_owned(),
            AppMode::Youniverse =>
                "You are an imaginative AI storyteller in the 'You'niverse. You craft engaging narratives, develop rich characters, and help users explore creative storylines. You adapt to different genres, maintain story continuity, and encourage creative expression.".to_owned(),
        }
    }

    /// Reads a mode's name. Any other text is refused, with a message that
    /// repeats it.
    pub fn parse(name: &str) -> (r: Result<AppMode, String>)
        ensures
            match r {
                Ok(mode) => AppMode::named(name@) == Some(mode),
                Err(message) => AppMode::named(name@) is None && message@ == AppMode::unknown(
                    name@,
                ),
            },
    {
        let given = name.to_owned();
        if given == AppMode::Companion.to_string() {
            Ok(AppMode::Companion)
        } else if given == AppMode::Youniverse.to_string() {
            Ok(AppMode::Youniverse)
        } else {
            let mut message = "Unknown mode: ".to_owned();
            message.append(name);
            Err(message)
        }
    }
}

/// The two modes have two names.
pub proof fn lemma_names_differ()
    ensures
        AppMode::Companion.name() != AppMode::Youniverse.name(),
        forall|mode: AppMode| AppMode::named(mode.name()) == Some(mode),
{
    reveal_strlit("companion");
    reveal_strlit("youniverse");
    assert("companion"@.len() != "youniverse"@.len());
}

} // verus!
