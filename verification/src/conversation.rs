//! The parts of the application that the commands read and change.

use vstd::prelude::*;

use crate::workspace;
use crate::workspace::Workspace;

verus! {

/// The input of a `read_file` call.
pub struct ReadFileInput {
    pub path: String,
}

/// One block of a message.
pub enum ContentBlock {
    /// A tool call of the assistant.
    ToolUse { id: String, name: String, input: ReadFileInput },
    /// The result of a tool call.
    ToolResult { tool_use_id: String, content: String, is_error: Option<bool> },
}

/// A message of the conversation.
pub struct Message {
    pub role: String,
    pub content: Vec<ContentBlock>,
}

/// A cell of the transcript that the user sees.
pub enum HistoryCell {
    System { content: String },
}

/// What the application does after a command.
pub enum AppAction {
    SendMessage(String),
}

/// The result of a command.
pub struct CommandResult {
    pub message: Option<String>,
    pub action: Option<AppAction>,
}

/// The state of the application.
pub struct App {
    pub workspace: Workspace,
    /// The token budget of an injection that sets none itself.
    pub max_inject_tokens: usize,
    /// The conversation that goes to the model.
    pub api_messages: Vec<Message>,
    /// The transcript.
    pub history: Vec<HistoryCell>,
    /// Whether the transcript has changed since it was last drawn.
    pub history_updated: bool,
}

/// The model of a block.
#[verifier::ext_equal]
pub enum BlockView {
    ToolUse { id: Seq<char>, name: Seq<char>, path: Seq<char> },
    ToolResult { tool_use_id: Seq<char>, content: Seq<char>, is_error: Option<bool> },
}

impl View for ContentBlock {
    type V = BlockView;

    open spec fn view(&self) -> BlockView {
        match self {
            ContentBlock::ToolUse { id, name, input } => BlockView::ToolUse {
                id: id@,
                name: name@,
                path: input.path@,
            },
            ContentBlock::ToolResult { tool_use_id, content, is_error } => BlockView::ToolResult {
                tool_use_id: tool_use_id@,
                content: content@,
                is_error: *is_error,
            },
        }
    }
}

/// The model of a message.
#[verifier::ext_equal]
pub struct MessageView {
    pub role: Seq<char>,
    pub content: Seq<BlockView>,
}

impl View for Message {
    type V = MessageView;

    open spec fn view(&self) -> MessageView {
        MessageView {
            role: self.role@,
            content: self.content@.map_values(|b: ContentBlock| b@),
        }
    }
}

/// The models of some messages.
pub open spec fn message_views(s: Seq<Message>) -> Seq<MessageView> {
    s.map_values(|m: Message| m@)
}

/// The texts of some cells.
pub open spec fn cell_texts(s: Seq<HistoryCell>) -> Seq<Seq<char>> {
    s.map_values(|c: HistoryCell| c->content@)
}

/// The model of the application.
#[verifier::ext_equal]
pub struct AppView {
    pub workspace: workspace::WorkspaceView,
    pub max_inject_tokens: usize,
    pub api_messages: Seq<MessageView>,
    pub history: Seq<Seq<char>>,
    pub history_updated: bool,
}

impl View for App {
    type V = AppView;

    open spec fn view(&self) -> AppView {
        AppView {
            workspace: self.workspace@,
            max_inject_tokens: self.max_inject_tokens,
            api_messages: message_views(self.api_messages@),
            history: cell_texts(self.history@),
            history_updated: self.history_updated,
        }
    }
}

/// The model of the result of a command.
#[verifier::ext_equal]
pub struct ResultView {
    pub message: Option<Seq<char>>,
    /// The text that is sent as the next message of the user.
    pub send: Option<Seq<char>>,
}

impl View for CommandResult {
    type V = ResultView;

    open spec fn view(&self) -> ResultView {
        ResultView {
            message: match self.message {
                Some(m) => Some(m@),
                None => None,
            },
            send: match self.action {
                Some(AppAction::SendMessage(t)) => Some(t@),
                None => None,
            },
        }
    }
}

impl CommandResult {
    /// A result that only tells the user something.
    pub fn message(text: String) -> (r: CommandResult)
        ensures
            r@ == (ResultView { message: Some(text@), send: None }),
    {
        CommandResult { message: Some(text), action: None }
    }

    /// A result that tells the user something and has the application act.
    pub fn with_message_and_action(text: String, action: AppAction) -> (r: CommandResult)
        ensures
            r@ == (ResultView { message: Some(text@), send: Some(action->SendMessage_0@) }),
    {
        CommandResult { message: Some(text), action: Some(action) }
    }
}

impl App {
    /// Adds a cell to the transcript.
    pub fn push_history_cell(&mut self, cell: HistoryCell)
        ensures
            final(self)@ == (AppView {
                history: old(self)@.history.push(cell->content@),
                ..old(self)@
            }),
            final(self).workspace == old(self).workspace,
    {
        self.history.push(cell);
        assert(self@ =~= (AppView {
            history: old(self)@.history.push(cell->content@),
            ..old(self)@
        }));
    }

    /// Adds a message to the conversation.
    pub fn push_message(&mut self, message: Message)
        ensures
            final(self)@ == (AppView {
                api_messages: old(self)@.api_messages.push(message@),
                ..old(self)@
            }),
            final(self).workspace == old(self).workspace,
    {
        self.api_messages.push(message);
        assert(self@ =~= (AppView {
            api_messages: old(self)@.api_messages.push(message@),
            ..old(self)@
        }));
    }

    /// Notes that the transcript has changed.
    pub fn mark_history_updated(&mut self)
        ensures
            final(self)@ == (AppView { history_updated: true, ..old(self)@ }),
            final(self).workspace == old(self).workspace,
    {
        self.history_updated = true;
    }
}

// ---------------------------------------------------------------------------
// Laws
// ---------------------------------------------------------------------------


/// The model of the application shows all of it.
pub proof fn model_shows_the_application(app: App, i: int, k: int)
    ensures
        app@.workspace == app.workspace@,
        app@.max_inject_tokens == app.max_inject_tokens,
        app@.history_updated == app.history_updated,
        app@.api_messages.len() == app.api_messages@.len(),
        app@.history.len() == app.history@.len(),
        0 <= i < app.history@.len() ==> app@.history[i] == app.history@[i]->content@,
        0 <= i < app.api_messages@.len() ==> {
            let m = app.api_messages@[i];
            &&& app@.api_messages[i].role == m.role@
            &&& app@.api_messages[i].content.len() == m.content@.len()
            &&& 0 <= k < m.content@.len() ==> match m.content@[k] {
                ContentBlock::ToolUse { id, name, input } => app@.api_messages[i].content[k]
                    == (BlockView::ToolUse { id: id@, name: name@, path: input.path@ }),
                ContentBlock::ToolResult { tool_use_id, content, is_error } =>
                    app@.api_messages[i].content[k] == (BlockView::ToolResult {
                    tool_use_id: tool_use_id@,
                    content: content@,
                    is_error,
                }),
            }
        },
{
}

/// The model of a result shows all of it.
pub proof fn model_shows_the_result(r: CommandResult)
    ensures
        r@.message is Some <==> r.message is Some,
        r.message matches Some(m) ==> r@.message == Some(m@),
        r@.send is Some <==> r.action is Some,
        r.action matches Some(AppAction::SendMessage(t)) ==> r@.send == Some(t@),
{
}

} // verus!
