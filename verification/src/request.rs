//! What a request asks for, once its text is read.

use vstd::prelude::*;
use crate::time::EasyDateTime;

verus! {

/// A request: a command, or tasks to be stored.
#[derive(Debug, PartialEq, Eq)]
pub enum Req {
    Command(ReqCommand),
    Tasks(ReqTasks),
}

/// A command.
#[derive(Debug, PartialEq, Eq)]
pub enum ReqCommand {
    Help,
    User(ReqUser),
    Search(Condition),
    Tutorial,
    Coffee,
}

/// What a command asks of the user's account.
#[derive(Debug, Clone, PartialEq, Eq)]
pub enum ReqUser {
    Info,
    Modify(ReqModify),
}

/// A change to the user's account.
#[derive(Debug, Clone, PartialEq, Eq)]
pub enum ReqModify {
    Email(String),
    Password(PasswordSet),
    Name(String),
    Timescale(Timescale),
    Allocations(Vec<ReqAllocation>),
}

/// The present password, the new one, and the new one once more.
#[derive(Debug, Clone, PartialEq, Eq)]
pub struct PasswordSet {
    pub old: String,
    pub new: String,
    pub confirmation: String,
}

/// A daily window of work: when it opens, and for how many hours.
#[derive(Debug, Clone, Copy, PartialEq, Eq, Structural)]
pub struct ResAllocation {
    pub open_h: i32,
    pub open_m: i32,
    pub hours: i32,
}

/// A daily window of work, as a request names it.
pub type ReqAllocation = ResAllocation;

/// The scale on which the user looks at time.
#[derive(Debug, Clone, Copy, PartialEq, Eq, Structural)]
pub enum Timescale {
    Year,
    Quarter,
    Month,
    Week,
    Day,
    Hours,
    Hour,
    Minutes,
    Minute,
    Second,
}

/// A decimal numeral without sign: digits around at most one point, at least one digit.
#[derive(Debug, Clone, PartialEq, Eq)]
pub struct Decimal {
    pub text: String,
}

/// What to look for in a text: each of some words, or what a regular expression matches.
#[derive(Debug, Clone, PartialEq, Eq)]
pub enum Expression {
    Words(Vec<String>),
    Regex(String),
}

/// For each of four properties of a task, whether it is asked for, ruled out, or left open.
#[derive(Debug, Clone, Copy, PartialEq, Eq, Structural)]
pub struct Boolean {
    pub is_archived: Option<bool>,
    pub is_starred: Option<bool>,
    pub is_leaf: Option<bool>,
    pub is_root: Option<bool>,
}

/// The tasks that a search asks for.
#[derive(Debug, PartialEq, Eq)]
pub struct Condition {
    pub boolean: Boolean,
    pub context: (Option<i64>, Option<i64>),
    pub weight: (Option<Decimal>, Option<Decimal>),
    pub startable: (Option<EasyDateTime>, Option<EasyDateTime>),
    pub deadline: (Option<EasyDateTime>, Option<EasyDateTime>),
    pub created_at: (Option<EasyDateTime>, Option<EasyDateTime>),
    pub updated_at: (Option<EasyDateTime>, Option<EasyDateTime>),
    pub title: Option<Expression>,
    pub assign: Option<Expression>,
    pub link: Option<Expression>,
}

/// The tasks of a request, in the order of its lines.
#[derive(Debug, Clone, PartialEq, Eq)]
pub struct ReqTasks {
    pub tasks: Vec<ReqTask>,
}

/// A task as a request writes it.
#[derive(Debug, Clone, PartialEq, Eq)]
pub struct ReqTask {
    pub indent: i32,
    pub attribute: Attribute,
    pub link: Option<String>,
}

/// What a task line says of its task.
#[derive(Debug, Clone, PartialEq, Eq)]
pub struct Attribute {
    pub is_starred: bool,
    pub id: Option<i64>,
    pub weight: Option<Decimal>,
    pub joint_head: Option<String>,
    pub joint_tail: Option<String>,
    pub assign: Option<String>,
    pub startable: Option<EasyDateTime>,
    pub deadline: Option<EasyDateTime>,
    pub title: String,
}

/// A `PasswordSet` as plain values.
pub struct PasswordSetView {
    pub old: Seq<char>,
    pub new: Seq<char>,
    pub confirmation: Seq<char>,
}

/// A `ReqModify` as plain values.
pub enum ReqModifyView {
    Email(Seq<char>),
    Password(PasswordSetView),
    Name(Seq<char>),
    Timescale(Timescale),
    Allocations(Seq<ReqAllocation>),
}

/// A `ReqUser` as plain values.
pub enum ReqUserView {
    Info,
    Modify(ReqModifyView),
}

/// An `Expression` as plain values.
pub enum ExpressionView {
    Words(Seq<Seq<char>>),
    Regex(Seq<char>),
}

/// A `Condition` as plain values.
pub struct ConditionView {
    pub boolean: Boolean,
    pub context: (Option<i64>, Option<i64>),
    pub weight: (Option<Seq<char>>, Option<Seq<char>>),
    pub startable: (Option<EasyDateTime>, Option<EasyDateTime>),
    pub deadline: (Option<EasyDateTime>, Option<EasyDateTime>),
    pub created_at: (Option<EasyDateTime>, Option<EasyDateTime>),
    pub updated_at: (Option<EasyDateTime>, Option<EasyDateTime>),
    pub title: Option<ExpressionView>,
    pub assign: Option<ExpressionView>,
    pub link: Option<ExpressionView>,
}

/// An `Attribute` as plain values.
pub struct AttributeView {
    pub is_starred: bool,
    pub id: Option<i64>,
    pub weight: Option<Seq<char>>,
    pub joint_head: Option<Seq<char>>,
    pub joint_tail: Option<Seq<char>>,
    pub assign: Option<Seq<char>>,
    pub startable: Option<EasyDateTime>,
    pub deadline: Option<EasyDateTime>,
    pub title: Seq<char>,
}

/// A `ReqTask` as plain values.
pub struct ReqTaskView {
    pub indent: i32,
    pub attribute: AttributeView,
    pub link: Option<Seq<char>>,
}

/// A `ReqCommand` as plain values.
pub enum ReqCommandView {
    Help,
    User(ReqUserView),
    Search(ConditionView),
    Tutorial,
    Coffee,
}

/// A `Req` as plain values.
pub enum ReqView {
    Command(ReqCommandView),
    Tasks(Seq<ReqTaskView>),
}

impl DeepView for PasswordSet {
    type V = PasswordSetView;

    open spec fn deep_view(&self) -> PasswordSetView {
        PasswordSetView { old: self.old@, new: self.new@, confirmation: self.confirmation@ }
    }
}

impl DeepView for ResAllocation {
    type V = ResAllocation;

    open spec fn deep_view(&self) -> ResAllocation {
        *self
    }
}

impl DeepView for Timescale {
    type V = Timescale;

    open spec fn deep_view(&self) -> Timescale {
        *self
    }
}

impl DeepView for Boolean {
    type V = Boolean;

    open spec fn deep_view(&self) -> Boolean {
        *self
    }
}

impl DeepView for Decimal {
    type V = Seq<char>;

    open spec fn deep_view(&self) -> Seq<char> {
        self.text@
    }
}

impl DeepView for ReqModify {
    type V = ReqModifyView;

    open spec fn deep_view(&self) -> ReqModifyView {
        match self {
            ReqModify::Email(s) => ReqModifyView::Email(s@),
            ReqModify::Password(p) => ReqModifyView::Password(p.deep_view()),
            ReqModify::Name(s) => ReqModifyView::Name(s@),
            ReqModify::Timescale(t) => ReqModifyView::Timescale(*t),
            ReqModify::Allocations(a) => ReqModifyView::Allocations(a@),
        }
    }
}

impl DeepView for ReqUser {
    type V = ReqUserView;

    open spec fn deep_view(&self) -> ReqUserView {
        match self {
            ReqUser::Info => ReqUserView::Info,
            ReqUser::Modify(m) => ReqUserView::Modify(m.deep_view()),
        }
    }
}

impl DeepView for Expression {
    type V = ExpressionView;

    open spec fn deep_view(&self) -> ExpressionView {
        match self {
            Expression::Words(words) => ExpressionView::Words(words.deep_view()),
            Expression::Regex(pattern) => ExpressionView::Regex(pattern@),
        }
    }
}

impl DeepView for Condition {
    type V = ConditionView;

    open spec fn deep_view(&self) -> ConditionView {
        ConditionView {
            boolean: self.boolean,
            context: self.context,
            weight: (self.weight.0.deep_view(), self.weight.1.deep_view()),
            startable: self.startable,
            deadline: self.deadline,
            created_at: self.created_at,
            updated_at: self.updated_at,
            title: self.title.deep_view(),
            assign: self.assign.deep_view(),
            link: self.link.deep_view(),
        }
    }
}

impl DeepView for Attribute {
    type V = AttributeView;

    open spec fn deep_view(&self) -> AttributeView {
        AttributeView {
            is_starred: self.is_starred,
            id: self.id,
            weight: self.weight.deep_view(),
            joint_head: self.joint_head.deep_view(),
            joint_tail: self.joint_tail.deep_view(),
            assign: self.assign.deep_view(),
            startable: self.startable,
            deadline: self.deadline,
            title: self.title@,
        }
    }
}

impl DeepView for ReqTask {
    type V = ReqTaskView;

    open spec fn deep_view(&self) -> ReqTaskView {
        ReqTaskView { indent: self.indent, attribute: self.attribute.deep_view(), link: self.link.deep_view() }
    }
}

impl DeepView for ReqTasks {
    type V = Seq<ReqTaskView>;

    open spec fn deep_view(&self) -> Seq<ReqTaskView> {
        self.tasks.deep_view()
    }
}

impl DeepView for ReqCommand {
    type V = ReqCommandView;

    open spec fn deep_view(&self) -> ReqCommandView {
        match self {
            ReqCommand::Help => ReqCommandView::Help,
            ReqCommand::User(u) => ReqCommandView::User(u.deep_view()),
            ReqCommand::Search(c) => ReqCommandView::Search(c.deep_view()),
            ReqCommand::Tutorial => ReqCommandView::Tutorial,
            ReqCommand::Coffee => ReqCommandView::Coffee,
        }
    }
}

impl DeepView for Req {
    type V = ReqView;

    open spec fn deep_view(&self) -> ReqView {
        match self {
            Req::Command(c) => ReqView::Command(c.deep_view()),
            Req::Tasks(t) => ReqView::Tasks(t.deep_view()),
        }
    }
}

/// A search that leaves everything open.
pub open spec fn any_condition() -> ConditionView {
    ConditionView {
        boolean: no_boolean(),
        context: (None, None),
        weight: (None, None),
        startable: (None, None),
        deadline: (None, None),
        created_at: (None, None),
        updated_at: (None, None),
        title: None,
        assign: None,
        link: None,
    }
}

/// Four properties left open.
pub open spec fn no_boolean() -> Boolean {
    Boolean { is_archived: None, is_starred: None, is_leaf: None, is_root: None }
}

/// A task line that says nothing.
pub open spec fn no_attribute() -> AttributeView {
    AttributeView {
        is_starred: false,
        id: None,
        weight: None,
        joint_head: None,
        joint_tail: None,
        assign: None,
        startable: None,
        deadline: None,
        title: Seq::empty(),
    }
}

impl Default for Boolean {
    fn default() -> (b: Boolean)
        ensures
            b == no_boolean(),
    {
        Boolean { is_archived: None, is_starred: None, is_leaf: None, is_root: None }
    }
}

impl Default for Condition {
    fn default() -> (c: Condition)
        ensures
            c.deep_view() == any_condition(),
    {
        Condition {
            boolean: Boolean::default(),
            context: (None, None),
            weight: (None, None),
            startable: (None, None),
            deadline: (None, None),
            created_at: (None, None),
            updated_at: (None, None),
            title: None,
            assign: None,
            link: None,
        }
    }
}

impl Default for Attribute {
    fn default() -> (a: Attribute)
        ensures
            a.deep_view() == no_attribute(),
    {
        Attribute {
            is_starred: false,
            id: None,
            weight: None,
            joint_head: None,
            joint_tail: None,
            assign: None,
            startable: None,
            deadline: None,
            title: String::new(),
        }
    }
}

impl Default for ReqTasks {
    fn default() -> (t: ReqTasks)
        ensures
            t.tasks@.len() == 0,
    {
        ReqTasks { tasks: Vec::new() }
    }
}

impl Timescale {
    /// How the scale is written.
    pub open spec fn text(self) -> Seq<char> {
        match self {
            Timescale::Year => seq!['Y'],
            Timescale::Quarter => seq!['Q'],
            Timescale::Month => seq!['M'],
            Timescale::Week => seq!['W'],
            Timescale::Day => seq!['D'],
            Timescale::Hours => seq!['6', 'h'],
            Timescale::Hour => seq!['h'],
            Timescale::Minutes => seq!['1', '5', 'm'],
            Timescale::Minute => seq!['m'],
            Timescale::Second => seq!['s'],
        }
    }

    /// How the scale is written.
    pub fn as_str(&self) -> (text: &'static str)
        ensures
            text@ == self.text(),
    {
        proof {
            reveal_strlit("Y");
            reveal_strlit("Q");
            reveal_strlit("M");
            reveal_strlit("W");
            reveal_strlit("D");
            reveal_strlit("6h");
            reveal_strlit("h");
            reveal_strlit("15m");
            reveal_strlit("m");
            reveal_strlit("s");
        }
        let text = match self {
            Timescale::Year => "Y",
            Timescale::Quarter => "Q",
            Timescale::Month => "M",
            Timescale::Week => "W",
            Timescale::Day => "D",
            Timescale::Hours => "6h",
            Timescale::Hour => "h",
            Timescale::Minutes => "15m",
            Timescale::Minute => "m",
            Timescale::Second => "s",
        };
        assert(text@ =~= self.text());
        text
    }
}

} // verus!
