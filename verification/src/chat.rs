//! A conversation with the assistant: its mode, its latest exchanges, and
//! what each step of the front end comes to.

use crate::clock::timestamp_now;
use crate::memory::latest;
use crate::mode::AppMode;
use vstd::prelude::*;
use vstd::string::*;

verus! {

/// The entries of a conversation that are kept at most.
pub const HISTORY_LIMIT: usize = 20;

/// One entry of a conversation.
#[derive(Debug, PartialEq, Eq)]
pub struct ConversationEntry {
    /// Who spoke: `user` or `assistant`.
    pub role: String,
    /// What was said.
    pub content: String,
    /// When it was said.
    pub timestamp: String,
}

/// [`ConversationEntry`] as a mathematical value.
pub struct EntryModel {
    pub role: Seq<char>,
    pub content: Seq<char>,
    pub timestamp: Seq<char>,
}

impl View for ConversationEntry {
    type V = EntryModel;

    open spec fn view(&self) -> EntryModel {
        EntryModel { role: self.role@, content: self.content@, timestamp: self.timestamp@ }
    }
}

impl Clone for ConversationEntry {
    fn clone(&self) -> (r: Self)
        ensures
            r@ == self@,
    {
        ConversationEntry {
            role: self.role.clone(),
            content: self.content.clone(),
            timestamp: self.timestamp.clone(),
        }
    }
}

/// What the front end shows of one exchange.
#[derive(Debug, PartialEq, Eq)]
pub struct ChatResponse {
    /// Who answered.
    pub agent: String,
    /// The answer.
    pub response: String,
    /// When the exchange took place.
    pub timestamp: String,
    /// The name of the mode in which it took place.
    pub mode: String,
}

/// The entries of `entries`, one for one.
pub open spec fn entry_views(entries: Seq<ConversationEntry>) -> Seq<EntryModel> {
    Seq::new(entries.len(), |i: int| entries[i]@)
}

/// What a user said at `timestamp`.
pub open spec fn said_by_user(message: Seq<char>, timestamp: Seq<char>) -> EntryModel {
    EntryModel { role: "user"@, content: message, timestamp }
}

/// What the assistant said at `timestamp`.
pub open spec fn said_by_assistant(response: Seq<char>, timestamp: Seq<char>) -> EntryModel {
    EntryModel { role: "assistant"@, content: response, timestamp }
}

/// A conversation: the mode in which it is held and its latest entries.
#[derive(Debug)]
pub struct ChatSession {
    mode: AppMode,
    history: Vec<ConversationEntry>,
}

impl View for ChatSession {
    /// The entries kept, oldest first.
    type V = Seq<EntryModel>;

    closed spec fn view(&self) -> Seq<EntryModel> {
        entry_views(self.history@)
    }
}

impl ChatSession {
    /// The mode in which the conversation is held.
    pub closed spec fn spec_mode(&self) -> AppMode {
        self.mode
    }

    /// A conversation that is yet to begin, in the companion's mode.
    pub fn new() -> (r: Self)
        ensures
            r@.len() == 0,
            r.spec_mode() == AppMode::Companion,
    {
        ChatSession { mode: AppMode::Companion, history: Vec::new() }
    }

    /// The mode in which the conversation is held.
    #[verifier::when_used_as_spec(spec_mode)]
    pub fn mode(&self) -> (r: AppMode)
        ensures
            r == self.spec_mode(),
    {
        self.mode
    }

    /// The name of the mode in which the conversation is held.
    pub fn get_current_mode(&self) -> (r: String)
        ensures
            r@ == self.spec_mode().name(),
    {
        self.mode.to_string()
    }

    /// The entries kept, oldest first.
    pub fn history(&self) -> (r: &Vec<ConversationEntry>)
        ensures
            entry_views(r@) == self@,
    {
        &self.history
    }

    /// Notes an exchange that took place at `timestamp`: what the user said,
    /// then what the assistant answered. Of the entries, the latest twenty
    /// are kept. Returns what the front end shows of the exchange.
    pub fn record_exchange_at(&mut self, message: &str, response: &str, timestamp: &str) -> (r:
        ChatResponse)
        ensures
            final(self).spec_mode() == old(self).spec_mode(),
            final(self)@ == latest(
                old(self)@.push(said_by_user(message@, timestamp@)).push(
                    said_by_assistant(response@, timestamp@),
                ),
                HISTORY_LIMIT as nat,
            ),
            r.agent@ == "aura"@,
            r.response@ == response@,
            r.timestamp@ == timestamp@,
            r.mode@ == old(self).spec_mode().name(),
    {
        let ghost grown = old(self)@.push(said_by_user(message@, timestamp@)).push(
            said_by_assistant(response@, timestamp@),
        );
        self.history.push(
            ConversationEntry {
                role: "user".to_owned(),
                content: message.to_owned(),
                timestamp: timestamp.to_owned(),
            },
        );
        self.history.push(
            ConversationEntry {
                role: "assistant".to_owned(),
                content: response.to_owned(),
                timestamp: timestamp.to_owned(),
            },
        );
        assert(self@ =~= grown);
        let len = self.history.len();
        if len > HISTORY_LIMIT {
            let mut kept: Vec<ConversationEntry> = Vec::new();
            let mut i = len - HISTORY_LIMIT;
            while i < len
                invariant
                    len == self.history.len(),
                    len > HISTORY_LIMIT,
                    len - HISTORY_LIMIT <= i <= len,
                    entry_views(kept@) == self@.subrange(len - HISTORY_LIMIT, i as int),
                decreases len - i,
            {
                let ghost before = entry_views(kept@);
                kept.push(self.history[i].clone());
                assert(self@.len() == len && self@[i as int] == self.history@[i as int]@);
                assert(entry_views(kept@) =~= before.push(self@[i as int]));
                assert(entry_views(kept@) =~= self@.subrange(len - HISTORY_LIMIT, i + 1));
                i = i + 1;
            }
            assert(self@.subrange(len - HISTORY_LIMIT, len as int) =~= latest(
                grown,
                HISTORY_LIMIT as nat,
            ));
            self.history = kept;
        }
        ChatResponse {
            agent: "aura".to_owned(),
            response: response.to_owned(),
            timestamp: timestamp.to_owned(),
            mode: self.mode.to_string(),
        }
    }

    /// Notes an exchange that takes place now.
    pub fn record_exchange(&mut self, message: &str, response: &str) -> (r: ChatResponse)
        ensures
            final(self).spec_mode() == old(self).spec_mode(),
            final(self)@ == latest(
                old(self)@.push(said_by_user(message@, r.timestamp@)).push(
                    said_by_assistant(response@, r.timestamp@),
                ),
                HISTORY_LIMIT as nat,
            ),
            r.agent@ == "aura"@,
            r.response@ == response@,
            r.mode@ == old(self).spec_mode().name(),
    {
        let timestamp = timestamp_now();
        self.record_exchange_at(message, response, timestamp.as_str())
    }

    /// Changes to the mode with this name and forgets the conversation so
    /// far. A name that is no mode's changes nothing.
    pub fn switch_mode(&mut self, new_mode: &str) -> (r: Result<String, String>)
        ensures
            match r {
                Ok(name) => AppMode::named(new_mode@) == Some(final(self).spec_mode()) && name@
                    == new_mode@ && final(self)@.len() == 0,
                Err(message) => AppMode::named(new_mode@) is None && message@ == AppMode::unknown(
                    new_mode@,
                ) && final(self)@ == old(self)@ && final(self).spec_mode() == old(
                    self,
                ).spec_mode(),
            },
    {
        match AppMode::parse(new_mode) {
            Ok(mode) => {
                self.mode = mode;
                self.history.clear();
                Ok(new_mode.to_owned())
            },
            Err(message) => Err(message),
        }
    }

    /// The latest `limit` entries, oldest first.
    pub fn get_conversation_history(&self, limit: usize) -> (r: Vec<ConversationEntry>)
        ensures
            entry_views(r@) == latest(self@, limit as nat),
    {
        let len = self.history.len();
        let start = if len > limit {
            len - limit
        } else {
            0
        };
        let mut found: Vec<ConversationEntry> = Vec::new();
        let mut i = start;
        while i < len
            invariant
                len == self.history.len(),
                start <= i <= len,
                entry_views(found@) == self@.subrange(start as int, i as int),
            decreases len - i,
        {
            let ghost before = entry_views(found@);
            found.push(self.history[i].clone());
            assert(self@.len() == len && self@[i as int] == self.history@[i as int]@);
            assert(entry_views(found@) =~= before.push(self@[i as int]));
            assert(entry_views(found@) =~= self@.subrange(start as int, i + 1));
            i = i + 1;
        }
        assert(self@.subrange(start as int, len as int) =~= latest(self@, limit as nat));
        found
    }
}

/// What can go wrong at the front end.
#[derive(Debug, Clone, Copy, PartialEq, Eq, Structural)]
pub enum Failure {
    Generate,
    LogConversation,
    HealthCheck,
    Search,
    CheckModel,
    DownloadModel,
    LoadModel,
}

impl Failure {
    /// How the report of a failure begins.
    pub open spec fn prefix(self) -> Seq<char> {
        match self {
            Failure::Generate => "Failed to generate response: "@,
            Failure::LogConversation => "Failed to log conversation: "@,
            Failure::HealthCheck => "Health check failed: "@,
            Failure::Search => "Search failed: "@,
            Failure::CheckModel => "Failed to check model: "@,
            Failure::DownloadModel => "Failed to download model: "@,
            Failure::LoadModel => "Failed to load model: "@,
        }
    }

    /// The report of a failure: what failed, and the cause as it was given.
    pub fn describe(&self, cause: &str) -> (r: String)
        ensures
            r@ == self.prefix() + cause@,
    {
        let mut report = match self {
            Failure::Generate => "Failed to generate response: ".to_owned(),
            Failure::LogConversation => "Failed to log conversation: ".to_owned(),
            Failure::HealthCheck => "Health check failed: ".to_owned(),
            Failure::Search => "Search failed: ".to_owned(),
            Failure::CheckModel => "Failed to check model: ".to_owned(),
            Failure::DownloadModel => "Failed to download model: ".to_owned(),
            Failure::LoadModel => "Failed to load model: ".to_owned(),
        };
        report.append(cause);
        report
    }
}

/// What has to be done next to make a model ready.
#[derive(Debug, PartialEq, Eq)]
pub enum InitAction {
    /// Find out whether a model is there.
    CheckModel,
    /// Fetch the starter model.
    Download,
    /// Load the model that is there.
    Load,
    /// Nothing: this is how it went.
    Finish { result: Result<String, String> },
}

/// What came of the step taken last.
#[derive(Debug, PartialEq, Eq)]
pub enum InitEvent {
    /// Whether a model is there, or why that could not be found out.
    Checked { found: Result<bool, String> },
    /// That the starter model was fetched, or why it was not.
    Downloaded { fetched: Result<(), String> },
    /// That the model was loaded, or why it was not.
    Loaded { loaded: Result<(), String> },
}

/// The action as a mathematical value.
pub enum InitActionModel {
    CheckModel,
    Download,
    Load,
    Finish { result: Result<Seq<char>, Seq<char>> },
}

impl View for InitAction {
    type V = InitActionModel;

    open spec fn view(&self) -> InitActionModel {
        match *self {
            InitAction::CheckModel => InitActionModel::CheckModel,
            InitAction::Download => InitActionModel::Download,
            InitAction::Load => InitActionModel::Load,
            InitAction::Finish { result } => InitActionModel::Finish {
                result: match result {
                    Ok(text) => Ok(text@),
                    Err(text) => Err(text@),
                },
            },
        }
    }
}

/// What making a model ready begins with.
pub fn begin_initialization() -> (r: InitAction)
    ensures
        r@ == InitActionModel::CheckModel,
{
    InitAction::CheckModel
}

/// What follows on `event` when a model is made ready: the starter model
/// is fetched only where none is there; whatever model is there then gets
/// loaded; the first failure ends it all with its report.
pub open spec fn init_reaction(event: InitEvent) -> InitActionModel {
    match event {
        InitEvent::Checked { found: Ok(true) } => InitActionModel::Load,
        InitEvent::Checked { found: Ok(false) } => InitActionModel::Download,
        InitEvent::Checked { found: Err(cause) } => InitActionModel::Finish {
            result: Err(Failure::CheckModel.prefix() + cause@),
        },
        InitEvent::Downloaded { fetched: Ok(_) } => InitActionModel::Load,
        InitEvent::Downloaded { fetched: Err(cause) } => InitActionModel::Finish {
            result: Err(Failure::DownloadModel.prefix() + cause@),
        },
        InitEvent::Loaded { loaded: Ok(_) } => InitActionModel::Finish {
            result: Ok("Model initialized successfully"@),
        },
        InitEvent::Loaded { loaded: Err(cause) } => InitActionModel::Finish {
            result: Err(Failure::LoadModel.prefix() + cause@),
        },
    }
}

/// Says what to do next when a model is made ready.
pub fn continue_initialization(event: InitEvent) -> (r: InitAction)
    ensures
        r@ == init_reaction(event),
{
    match event {
        InitEvent::Checked { found } => match found {
            Ok(true) => InitAction::Load,
            Ok(false) => InitAction::Download,
            Err(cause) => InitAction::Finish {
                result: Err(Failure::CheckModel.describe(cause.as_str())),
            },
        },
        InitEvent::Downloaded { fetched } => match fetched {
            Ok(_) => InitAction::Load,
            Err(cause) => InitAction::Finish {
                result: Err(Failure::DownloadModel.describe(cause.as_str())),
            },
        },
        InitEvent::Loaded { loaded } => match loaded {
            Ok(_) => InitAction::Finish { result: Ok("Model initialized successfully".to_owned()) },
            Err(cause) => InitAction::Finish {
                result: Err(Failure::LoadModel.describe(cause.as_str())),
            },
        },
    }
}

/// How the model picks its words, in thousandths.
#[derive(Debug, Clone, Copy, PartialEq, Eq, Structural)]
pub struct SamplingPreset {
    pub temperature: u32,
    pub top_p: u32,
    pub top_k: i32,
    pub min_p: Option<u32>,
    pub frequency_penalty: Option<u32>,
    pub presence_penalty: Option<u32>,
    pub dry_multiplier: Option<u32>,
    pub xtc_probability: Option<u32>,
    pub dynatemp_range: Option<u32>,
    pub max_tokens: i32,
}

impl SamplingPreset {
    /// The usual way.
    pub open spec fn usual() -> SamplingPreset {
        SamplingPreset {
            temperature: 700,
            top_p: 950,
            top_k: 40,
            min_p: Some(50),
            frequency_penalty: Some(200),
            presence_penalty: Some(100),
            dry_multiplier: Some(700),
            xtc_probability: None,
            dynatemp_range: None,
            max_tokens: 512,
        }
    }

    /// The way that goes with a mode: the usual one for the companion, a
    /// freer one for the teller of stories.
    pub open spec fn of(mode: AppMode) -> SamplingPreset {
        match mode {
            AppMode::Companion => SamplingPreset::usual(),
            AppMode::Youniverse => SamplingPreset {
                temperature: 850,
                min_p: Some(20),
                frequency_penalty: Some(100),
                presence_penalty: Some(200),
                dry_multiplier: Some(500),
                ..SamplingPreset::usual()
            },
        }
    }

    /// Computes [`SamplingPreset::of`].
    pub fn for_mode(mode: AppMode) -> (r: SamplingPreset)
        ensures
            r == SamplingPreset::of(mode),
    {
        let usual = SamplingPreset::default();
        match mode {
            AppMode::Companion => usual,
            AppMode::Youniverse => SamplingPreset {
                temperature: 850,
                min_p: Some(20),
                frequency_penalty: Some(100),
                presence_penalty: Some(200),
                dry_multiplier: Some(500),
                ..usual
            },
        }
    }
}

impl Default for SamplingPreset {
    fn default() -> (r: Self)
        ensures
            r == SamplingPreset::usual(),
    {
        SamplingPreset {
            temperature: 700,
            top_p: 950,
            top_k: 40,
            min_p: Some(50),
            frequency_penalty: Some(200),
            presence_penalty: Some(100),
            dry_multiplier: Some(700),
            xtc_probability: None,
            dynatemp_range: None,
            max_tokens: 512,
        }
    }
}

} // verus!
