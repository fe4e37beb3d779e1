use vstd::prelude::*;
use vstd::string::*;

verus! {

/// Everything that can go wrong between a caller and the model.
#[derive(Debug, PartialEq, Eq)]
pub enum ErrorKind {
    /// The model file is missing, unreadable or not a model container.
    ModelLoad,
    /// No execution context could be allocated.
    ContextInit,
    /// The tokenizer rejected the prompt.
    Tokenize,
    /// The prompt tokenized to nothing.
    EmptyPrompt,
    /// A batch could not be submitted.
    Decode,
    /// An engine failure as it surfaces through the worker.
    Generation(Box<ErrorKind>),
    /// The worker no longer accepts messages.
    WorkerUnavailable,
    /// The worker dropped the request before answering it.
    WorkerDisconnected,
}

impl Clone for ErrorKind {
    fn clone(&self) -> (r: Self)
        ensures
            r == *self,
        decreases *self,
    {
        match self {
            ErrorKind::ModelLoad => ErrorKind::ModelLoad,
            ErrorKind::ContextInit => ErrorKind::ContextInit,
            ErrorKind::Tokenize => ErrorKind::Tokenize,
            ErrorKind::EmptyPrompt => ErrorKind::EmptyPrompt,
            ErrorKind::Decode => ErrorKind::Decode,
            ErrorKind::Generation(inner) => ErrorKind::Generation(Box::new((&**inner).clone())),
            ErrorKind::WorkerUnavailable => ErrorKind::WorkerUnavailable,
            ErrorKind::WorkerDisconnected => ErrorKind::WorkerDisconnected,
        }
    }
}

impl ErrorKind {
    /// The failure in words.
    pub open spec fn description(self) -> Seq<char>
        decreases self,
    {
        match self {
            ErrorKind::ModelLoad => "Failed to load model"@,
            ErrorKind::ContextInit => "Failed to create context"@,
            ErrorKind::Tokenize => "Failed to tokenize prompt"@,
            ErrorKind::EmptyPrompt => "Tokenization produced no tokens"@,
            ErrorKind::Decode => "Failed to decode batch"@,
            ErrorKind::Generation(cause) => "Generation failed: "@ + cause.description(),
            ErrorKind::WorkerUnavailable => "The worker is not available"@,
            ErrorKind::WorkerDisconnected => "The worker dropped the request"@,
        }
    }

    /// Puts the failure in words.
    pub fn describe(&self) -> (r: String)
        ensures
            r@ == self.description(),
        decreases *self,
    {
        match self {
            ErrorKind::ModelLoad => "Failed to load model".to_owned(),
            ErrorKind::ContextInit => "Failed to create context".to_owned(),
            ErrorKind::Tokenize => "Failed to tokenize prompt".to_owned(),
            ErrorKind::EmptyPrompt => "Tokenization produced no tokens".to_owned(),
            ErrorKind::Decode => "Failed to decode batch".to_owned(),
            ErrorKind::Generation(cause) => {
                let mut text = "Generation failed: ".to_owned();
                text.append((&**cause).describe().as_str());
                text
            },
            ErrorKind::WorkerUnavailable => "The worker is not available".to_owned(),
            ErrorKind::WorkerDisconnected => "The worker dropped the request".to_owned(),
        }
    }
}

} // verus!
