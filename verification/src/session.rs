//! A client's session: what becomes of the declarations and statements that a client
//! sends, and the replies that it gets.

use std::collections::BTreeMap;

use vstd::prelude::*;

use crate::collections::{ListMap, ListSet};
#[allow(unused_imports)]
use crate::collections::lemma_take_contains;
use crate::expr::{text_of_value, Expr};
#[allow(unused_imports)]
use crate::expr::{names_in, value_in, value_text, ExprModel, ValModel};
use crate::manager::change::CodeChange;
#[allow(unused_imports)]
use crate::manager::values::law_value_of_closed_code;
#[allow(unused_imports)]
use crate::manager::versions::{
    law_translated_names, law_versions_count_codes, occurrences, translated, versioned_expr,
    versions_after, versions_fit, Versions,
};
#[allow(unused_imports)]
use crate::manager::{error_text, ErrorModel, ManagerState};
use crate::manager::{Manager, ManagerError};
#[allow(unused_imports)]
use crate::message::CodeUpdateModel;
#[allow(unused_imports)]
use crate::message::Endpoint;
use crate::message::{CodeUpdate, WorkerKind};
#[allow(unused_imports)]
use crate::text::{base_of, decimal, signed_decimal};
#[allow(unused_imports)]
use crate::textlaws::{denoted, law_decimal_denotes, law_integers_written_apart};
use crate::text::concat;
use crate::transaction::{Txn, TxnId, WriteToName};
#[allow(unused_imports)]
use crate::transaction::{TxnModel, WriteModel};

verus! {

/// A declaration of a client.
#[derive(Debug)]
pub enum Decl {
    VarDecl { name: String, val: Expr },
    DefDecl { name: String, val: Expr },
    /// Any other declaration.
    Other,
}

/// The model of a declaration.
pub enum DeclModel {
    VarDecl { name: Seq<char>, val: ExprModel },
    DefDecl { name: Seq<char>, val: ExprModel },
    Other,
}

impl DeepView for Decl {
    type V = DeclModel;

    open spec fn deep_view(&self) -> DeclModel {
        match self {
            Decl::VarDecl { name, val } => DeclModel::VarDecl { name: name@, val: val.deep_view() },
            Decl::DefDecl { name, val } => DeclModel::DefDecl { name: name@, val: val.deep_view() },
            Decl::Other => DeclModel::Other,
        }
    }
}

/// A statement of a client.
#[derive(Debug)]
pub enum SglStmt {
    Ass { dst: Expr, src: Expr },
    /// Any other statement.
    Other,
}

/// The model of a statement.
pub enum SglStmtModel {
    Ass { dst: ExprModel, src: ExprModel },
    Other,
}

impl DeepView for SglStmt {
    type V = SglStmtModel;

    open spec fn deep_view(&self) -> SglStmtModel {
        match self {
            SglStmt::Ass { dst, src } => SglStmtModel::Ass {
                dst: dst.deep_view(),
                src: src.deep_view(),
            },
            SglStmt::Other => SglStmtModel::Other,
        }
    }
}

/// What a server sends to a client.
#[derive(Debug)]
pub struct Server2ClientMsg {
    pub env: String,
    pub err: Option<String>,
}

/// The model of what a server sends.
pub struct ReplyModel {
    pub env: Seq<char>,
    pub err: Option<Seq<char>>,
}

impl DeepView for Server2ClientMsg {
    type V = ReplyModel;

    open spec fn deep_view(&self) -> ReplyModel {
        ReplyModel { env: self.env@, err: self.err.deep_view() }
    }
}

/// What becomes of a declaration: an update of code to carry out, or a line to print.
#[derive(Debug)]
pub enum DeclOutcome {
    Change(CodeChange),
    Print(String),
}

/// What becomes of a statement: a transaction, or a line to print.
#[derive(Debug)]
pub enum StmtOutcome {
    Write(Txn),
    Print(String),
}

/// `text` as a line in red.
pub open spec fn red_line(text: Seq<char>) -> Seq<char> {
    "\x1b[31m"@ + text + "\x1b[0m\n"@
}

/// The new code of a single node, which replaces its earlier versions.
pub open spec fn single_update(name: Seq<char>, val: ExprModel) -> CodeUpdateModel {
    CodeUpdateModel {
        nodes_to_modify: Set::<Seq<char>>::empty().insert(name),
        new_code: seq![(name, val)],
    }
}

/// The kind of worker that a declaration asks for.
pub open spec fn declared_kind(decl: DeclModel) -> Option<(Seq<char>, ExprModel, WorkerKind)> {
    match decl {
        DeclModel::VarDecl { name, val } => Some((name, val, WorkerKind::Var)),
        DeclModel::DefDecl { name, val } => Some((name, val, WorkerKind::Def)),
        DeclModel::Other => None,
    }
}

/// The transaction of an assignment to the name `name`.
pub open spec fn assignment(id: TxnId, name: Seq<char>, src: ExprModel) -> TxnModel {
    TxnModel { id, writes: seq![WriteModel { name, expr: src }] }
}

/// What `serde_json::to_string` writes for a map from strings to strings that is walked in
/// the order of its keys.
pub uninterp spec fn json_object(m: Map<Seq<char>, Seq<char>>) -> Seq<char>;

/// `serde_json::to_string` on a `BTreeMap` of strings: one JSON object with a member for
/// each entry, in the order of the keys. The result is named and depends on the entries
/// alone; how strings are escaped is left unsaid. It does not fail, since the keys are
/// strings.
#[verifier::external_body]
fn to_json(env: &ListMap<String, String>) -> (r: String)
    ensures
        r@ == json_object(env.deep_view()),
{
    let entries: BTreeMap<&String, &String> =
        (0..env.len()).map(|i| (env.key_at(i), env.value_at(i))).collect();
    serde_json::to_string(&entries).unwrap()
}

/// A reply without an error.
pub open spec fn plain_reply(text: Seq<char>) -> ReplyModel {
    ReplyModel { env: text, err: None }
}

impl ManagerState {
    /// The values of all nodes can be computed.
    pub open spec fn all_retrievable(self) -> bool {
        forall|n: Seq<char>| #[trigger] self.config.contains_key(n) ==> self.retrievable(n)
    }

    /// The value of each node, as text.
    pub open spec fn environment(self) -> Map<Seq<char>, Seq<char>> {
        Map::new(
            |n: Seq<char>| self.config.contains_key(n),
            |n: Seq<char>| value_text(self.value_of(n)),
        )
    }

    /// The replies that show a client the values of all nodes.
    pub open spec fn environment_replies(self) -> Seq<ReplyModel> {
        seq![plain_reply("Current Environment:"@), plain_reply(json_object(self.environment()))]
    }

    /// The reply to input that is no sentence of the language.
    pub open spec fn syntax_error_reply() -> ReplyModel {
        ReplyModel { env: Seq::empty(), err: Some("Syntax Error"@) }
    }

    /// The state in which the kind of the node `name` is known.
    pub open spec fn with_kind(self, name: Seq<char>, kind: WorkerKind) -> ManagerState {
        ManagerState { kinds: self.kinds.insert(name, kind), ..self }
    }
}

/// The environment holds the text of a value under each name that has code, and under no
/// other.
pub proof fn law_environment_shows_values(s: ManagerState, name: Seq<char>)
    requires
        s.all_retrievable(),
    ensures
        s.environment().contains_key(name) <==> s.config.contains_key(name),
        s.config.contains_key(name) ==> s.environment()[name] == value_text(s.value_of(name)),
{
}

proof fn lemma_closed_code_keeps_form(e: ExprModel, v: Versions)
    requires
        names_in(e) == Set::<Seq<char>>::empty(),
    ensures
        versioned_expr(e, v) == e,
    decreases e,
{
    match e {
        ExprModel::IdExpr { ident } => {
            assert(names_in(e).contains(ident));
        },
        ExprModel::BopExpr { opd1, opd2, .. } => {
            assert(names_in(*opd1) =~= Set::<Seq<char>>::empty()) by {
                assert forall|n: Seq<char>| !(#[trigger] names_in(*opd1).contains(n)) by {
                    assert(names_in(e).contains(n) <==> names_in(*opd1).contains(n) || names_in(
                        *opd2,
                    ).contains(n));
                }
            }
            assert(names_in(*opd2) =~= Set::<Seq<char>>::empty()) by {
                assert forall|n: Seq<char>| !(#[trigger] names_in(*opd2).contains(n)) by {
                    assert(names_in(e).contains(n) <==> names_in(*opd1).contains(n) || names_in(
                        *opd2,
                    ).contains(n));
                }
            }
            lemma_closed_code_keeps_form(*opd1, v);
            lemma_closed_code_keeps_form(*opd2, v);
        },
        _ => {},
    }
}

/// What a client declares is what it sees: after the update of a node to code that depends
/// on nothing, the node's value is that of the code. The name does not end in a numeric
/// character.
pub proof fn law_declared_value_is_shown(
    s: ManagerState,
    name: Seq<char>,
    val: ExprModel,
    inboxes: Seq<Endpoint>,
)
    requires
        base_of(name) == name,
        names_in(val) == Set::<Seq<char>>::empty(),
        versions_fit(s.versions, single_update(name, val).new_code),
    ensures
        ({
            let t = s.updated(single_update(name, val), inboxes);
            &&& t.retrievable(name)
            &&& t.value_of(name) == value_in(val, Map::empty())
        }),
{
    let update = single_update(name, val);
    let codes = translated(s.versions, update.new_code);
    let t = s.updated(update, inboxes);
    law_translated_names(s.versions, update.new_code, 0);
    law_versions_count_codes(s.versions, update.new_code, name);
    assert(update.new_code.drop_last() =~= Seq::<(Seq<char>, ExprModel)>::empty());
    assert(update.new_code.take(0) =~= Seq::<(Seq<char>, ExprModel)>::empty());
    assert(codes.drop_last() =~= Seq::<(Seq<char>, ExprModel)>::empty());
    lemma_closed_code_keeps_form(val, versions_after(s.versions, update.new_code.take(1)));
    assert(codes[0].1 == val);
    let before = s.emptied(update);
    assert(before.with_nodes(codes.drop_last(), inboxes) == before);
    assert(t == before.with_node(codes[0].0, codes[0].1, inboxes[0]));
    assert(t.versions == versions_after(s.versions, update.new_code));
    assert(occurrences(update.new_code, name) == 1) by {
        assert(occurrences(update.new_code.drop_last(), name) == 0);
    }
    assert(t.resolved(name) == codes[0].0);
    assert(t.config[t.resolved(name)] == val);
    law_value_of_closed_code(t, name);
}

/// A declaration asks for new code for its own node, and for nothing else: a variable where
/// one is declared, a definition where one is declared, with the code as it stands.
pub proof fn law_declaration_concerns_its_node(decl: DeclModel)
    ensures
        decl matches DeclModel::VarDecl { name, val } ==> declared_kind(decl) == Some(
            (name, val, WorkerKind::Var),
        ),
        decl matches DeclModel::DefDecl { name, val } ==> declared_kind(decl) == Some(
            (name, val, WorkerKind::Def),
        ),
        decl is Other ==> declared_kind(decl) is None,
        declared_kind(decl) matches Some((name, val, _)) ==> {
            let update = single_update(name, val);
            &&& forall|n: Seq<char>| #[trigger]
                update.nodes_to_modify.contains(n) <==> n == name
            &&& update.new_code.len() == 1
            &&& update.new_code[0].0 == name
            &&& update.new_code[0].1 == val
        },
{
}

/// An assignment is a transaction with one write, of the right side to the name on the left.
pub proof fn law_assignment_writes_once(id: TxnId, name: Seq<char>, src: ExprModel)
    ensures
        assignment(id, name, src).id == id,
        assignment(id, name, src).writes.len() == 1,
        assignment(id, name, src).writes[0].name == name,
        assignment(id, name, src).writes[0].expr == src,
{
}

/// A client that asks for the values gets two replies without errors: a heading, and the
/// values of all nodes as one object.
pub proof fn law_environment_replies(s: ManagerState)
    ensures
        s.environment_replies().len() == 2,
        s.environment_replies()[0].env == "Current Environment:"@,
        s.environment_replies()[1].env == json_object(s.environment()),
        s.environment_replies()[0].err is None,
        s.environment_replies()[1].err is None,
        ManagerState::syntax_error_reply().err == Some("Syntax Error"@),
        ManagerState::syntax_error_reply().env.len() == 0,
{
}

/// A line in red is the text between the two codes of the terminal, and ends the line.
pub proof fn law_red_line_holds_text(text: Seq<char>)
    ensures
        red_line(text).subrange(5, 5 + text.len() as int) == text,
        red_line(text).take(5) == "\x1b[31m"@,
        red_line(text).skip(5 + text.len() as int) == "\x1b[0m\n"@,
{
    reveal_strlit("\x1b[31m");
    reveal_strlit("\x1b[0m\n");
    assert(red_line(text).subrange(5, 5 + text.len() as int) =~= text);
    assert(red_line(text).take(5) =~= "\x1b[31m"@);
    assert(red_line(text).skip(5 + text.len() as int) =~= "\x1b[0m\n"@);
}

/// A declaration records the kind of its node, and changes nothing else of the manager.
pub proof fn law_declaration_records_kind(s: ManagerState, name: Seq<char>, kind: WorkerKind)
    ensures
        s.with_kind(name, kind).kinds.contains_key(name),
        s.with_kind(name, kind).kinds[name] == kind,
        forall|n: Seq<char>|
            n != name ==> #[trigger] s.with_kind(name, kind).kinds.get(n) == s.kinds.get(n),
        s.with_kind(name, kind) == (ManagerState { kinds: s.with_kind(name, kind).kinds, ..s }),
{
}

/// An integer is shown as such, by its digits, with a minus sign where it is negative.
pub proof fn law_integers_are_shown(i: i32)
    ensures
        ({
            let text = value_text(Some(ValModel::Int(i)));
            let inner = text.subrange(4, text.len() - 1);
            &&& text.len() > 5
            &&& text.take(4) == "Int("@
            &&& text.last() == ')'
            &&& i >= 0 ==> denoted(inner) == i
            &&& i < 0 ==> inner[0] == '-' && denoted(inner.skip(1)) == -i
        }),
{
    reveal_strlit("Int(");
    reveal_strlit(")");
    reveal_strlit("-");
    let text = value_text(Some(ValModel::Int(i)));
    let inner = text.subrange(4, text.len() - 1);
    assert(inner =~= signed_decimal(i as int));
    assert(text.take(4) =~= "Int("@);
    if i >= 0 {
        law_decimal_denotes(i as nat);
    } else {
        law_decimal_denotes((-i) as nat);
        assert(inner.skip(1) =~= decimal((-i) as nat));
    }
}

proof fn lemma_first_letter(v: Option<ValModel>)
    ensures
        value_text(v).len() > 0,
        value_text(v)[0] == match v {
            Some(ValModel::Int(_)) => 'I',
            Some(ValModel::Bool(_)) => 'B',
            Some(ValModel::Action(_)) => 'A',
            Some(ValModel::Lambda(_)) => 'L',
            None => 'N',
        },
{
    reveal_strlit("Int(");
    reveal_strlit("Bool(");
    reveal_strlit("Action(");
    reveal_strlit("Lambda(");
    reveal_strlit("None");
}

/// Different values are shown differently: an integer, a truth value and the lack of a value
/// are told apart from each other and from any other value.
pub proof fn law_values_are_told_apart(a: Option<ValModel>, b: Option<ValModel>)
    requires
        value_text(a) == value_text(b),
        a matches Some(v) ==> v is Int || v is Bool,
    ensures
        a == b,
{
    reveal_strlit("Int(");
    reveal_strlit("Bool(");
    reveal_strlit(")");
    reveal_strlit("true");
    reveal_strlit("false");
    let text = value_text(a);
    lemma_first_letter(a);
    lemma_first_letter(b);
    match (a, b) {
        (Some(ValModel::Int(x)), Some(ValModel::Int(y))) => {
            assert(text.subrange(4, text.len() - 1) =~= signed_decimal(x as int));
            assert(text.subrange(4, text.len() - 1) =~= signed_decimal(y as int));
            law_integers_written_apart(x as int, y as int);
        },
        (Some(ValModel::Bool(x)), Some(ValModel::Bool(y))) => {
            assert(text[5] == if x {
                't'
            } else {
                'f'
            });
            assert(text[5] == if y {
                't'
            } else {
                'f'
            });
        },
        _ => {},
    }
}

/// The first reply to a client that connects.
pub fn connection_reply() -> (r: Server2ClientMsg)
    ensures
        r.deep_view() == plain_reply("WebSocket connected"@),
{
    Server2ClientMsg { env: "WebSocket connected".to_string(), err: None }
}

/// The line that tells of a declaration that has no type.
pub fn type_error_line() -> (r: String)
    ensures
        r@ == red_line("type error"@),
{
    red("type error")
}

fn red(text: &str) -> (r: String)
    ensures
        r@ == red_line(text@),
{
    concat(concat("\x1b[31m", text).as_str(), "\x1b[0m\n")
}

/// The line that tells of an error of the manager.
pub fn error_line(e: &ManagerError) -> (r: String)
    ensures
        r@ == red_line(error_text(e.deep_view())),
{
    red(e.text().as_str())
}

/// What becomes of a statement. An assignment is a transaction with one write; its left
/// side is a name.
pub fn interpret_statement(stmt: SglStmt, id: TxnId) -> (r: StmtOutcome)
    requires
        stmt.deep_view() matches SglStmtModel::Ass { dst, .. } ==> dst is IdExpr,
    ensures
        match stmt.deep_view() {
            SglStmtModel::Ass { dst, src } => r matches StmtOutcome::Write(txn) && txn.deep_view()
                == assignment(id, dst->ident, src),
            SglStmtModel::Other => r matches StmtOutcome::Print(line) && line@ == red_line(
                "unsupported statement type"@,
            ),
        },
{
    match stmt {
        SglStmt::Ass { dst: Expr::IdExpr { ident }, src } => {
            let ghost w = WriteModel { name: ident@, expr: src.deep_view() };
            let mut writes: Vec<WriteToName> = Vec::new();
            writes.push(WriteToName { name: ident, expr: src });
            assert(writes.deep_view() =~= seq![w]);
            StmtOutcome::Write(Txn { id, writes })
        },
        _ => StmtOutcome::Print(red("unsupported statement type")),
    }
}

/// Whether `interpret_statement` takes the statement.
pub fn can_interpret(stmt: &SglStmt) -> (r: bool)
    ensures
        r == (stmt.deep_view() matches SglStmtModel::Ass { dst, .. } ==> dst is IdExpr),
{
    match stmt {
        SglStmt::Ass { dst: Expr::IdExpr { .. }, .. } => true,
        SglStmt::Ass { .. } => false,
        SglStmt::Other => true,
    }
}

impl Manager {
    /// What becomes of a declaration that has a type: the kind of the node is recorded, and
    /// its code is to be replaced. A declaration that the manager refuses is printed, as is
    /// one of another kind.
    pub fn declare(&mut self, decl: Decl, id: TxnId) -> (r: DeclOutcome)
        ensures
            match declared_kind(decl.deep_view()) {
                Some((name, val, kind)) => {
                    let s = old(self).deep_view().with_kind(name, kind);
                    let update = single_update(name, val);
                    &&& final(self).deep_view() == s
                    &&& match r {
                        DeclOutcome::Change(c) => s.takes_update(update) && s.plans(
                            update,
                            id,
                            c.deep_view(),
                        ),
                        DeclOutcome::Print(line) => !s.takes_update(update) && exists|
                            e: ErrorModel,
                        |
                            line@ == red_line(#[trigger] error_text(e)) && s.refuses_update(
                                update,
                                e,
                            ),
                    }
                },
                None => {
                    &&& final(self).deep_view() == old(self).deep_view()
                    &&& r matches DeclOutcome::Print(line) && line@ == red_line(
                        "unsupported declaration type"@,
                    )
                },
            },
    {
        let (name, val, kind) = match decl {
            Decl::VarDecl { name, val } => (name, val, WorkerKind::Var),
            Decl::DefDecl { name, val } => (name, val, WorkerKind::Def),
            Decl::Other => {
                return DeclOutcome::Print(red("unsupported declaration type"));
            },
        };
        let ghost update = single_update(name@, val.deep_view());
        let ghost code = (name@, val.deep_view());
        self.worker_kind_env.insert(name.clone(), kind);
        let ghost s = self.deep_view();
        let mut nodes_to_modify: ListSet<String> = ListSet::new();
        nodes_to_modify.insert(name.clone());
        let mut new_code: Vec<(String, Expr)> = Vec::new();
        new_code.push((name, val));
        assert(new_code.deep_view() =~= seq![code]);
        match self.handle_code_update(CodeUpdate { nodes_to_modify, new_code }, id) {
            Ok(c) => DeclOutcome::Change(c),
            Err(e) => {
                let line = error_line(&e);
                proof {
                    let told = e.deep_view();
                    assert(line@ == red_line(error_text(told)));
                }
                DeclOutcome::Print(line)
            },
        }
    }

    /// Whether the values of all nodes can be shown.
    pub fn can_show_environment(&self) -> (r: bool)
        ensures
            r == self.deep_view().all_retrievable(),
    {
        let ghost s = self.deep_view();
        let ghost l = self.system_configuration.keys();
        let n: usize = self.system_configuration.len();
        let mut i: usize = 0;
        while i < n
            invariant
                i <= n == l.len(),
                s == self.deep_view(),
                l == self.system_configuration.keys(),
                forall|j: int| 0 <= j < i ==> s.retrievable(#[trigger] l[j]),
            decreases n - i,
        {
            let name = self.system_configuration.key_at(i);
            if !self.can_retrieve(name.as_str()) {
                assert(s.config.contains_key(l[i as int]));
                return false;
            }
            i = i + 1;
        }
        assert forall|k: Seq<char>| #[trigger] s.config.contains_key(k) implies s.retrievable(
            k,
        ) by {
            assert(l.to_set().contains(k) <==> s.config.dom().contains(k));
            let j = choose|j: int| 0 <= j < l.len() && l[j] == k;
            assert(s.retrievable(l[j]));
        }
        true
    }

    /// The value of each node, as text.
    pub fn environment(&self) -> (r: ListMap<String, String>)
        requires
            self.deep_view().all_retrievable(),
        ensures
            r.deep_view() == self.deep_view().environment(),
    {
        let ghost s = self.deep_view();
        let ghost l = self.system_configuration.keys();
        let n: usize = self.system_configuration.len();
        let mut r: ListMap<String, String> = ListMap::new();
        let mut i: usize = 0;
        while i < n
            invariant
                i <= n == l.len(),
                s == self.deep_view(),
                s.all_retrievable(),
                l == self.system_configuration.keys(),
                forall|k: Seq<char>| #[trigger]
                    r.deep_view().contains_key(k) <==> l.take(i as int).contains(k),
                forall|k: Seq<char>| #[trigger]
                    r.deep_view().contains_key(k) ==> r.deep_view()[k] == value_text(s.value_of(k)),
            decreases n - i,
        {
            proof {
                lemma_take_contains(l, i as int);
            }
            let name = self.system_configuration.key_at(i);
            let val = self.retrieve_val(name.as_str());
            r.insert(name.clone(), text_of_value(&val));
            i = i + 1;
        }
        proof {
            assert(l.take(n as int) =~= l);
            assert forall|k: Seq<char>| l.contains(k) <==> #[trigger] s.config.contains_key(k) by {
                assert(l.to_set().contains(k) <==> s.config.dom().contains(k));
            }
            assert(r.deep_view() =~= s.environment());
        }
        r
    }

    /// The replies that show a client the values of all nodes.
    pub fn environment_replies(&self) -> (r: Vec<Server2ClientMsg>)
        requires
            self.deep_view().all_retrievable(),
        ensures
            r.deep_view() == self.deep_view().environment_replies(),
    {
        let mut r: Vec<Server2ClientMsg> = Vec::new();
        r.push(Server2ClientMsg { env: "Current Environment:".to_string(), err: None });
        r.push(Server2ClientMsg { env: to_json(&self.environment()), err: None });
        assert(r.deep_view() =~= self.deep_view().environment_replies());
        r
    }

    /// The replies to input that is no sentence of the language: the error, and the values
    /// of all nodes.
    pub fn syntax_error_replies(&self) -> (r: Vec<Server2ClientMsg>)
        requires
            self.deep_view().all_retrievable(),
        ensures
            r.deep_view() == seq![ManagerState::syntax_error_reply()]
                + self.deep_view().environment_replies(),
    {
        let mut r: Vec<Server2ClientMsg> = Vec::new();
        let first = Server2ClientMsg {
            env: String::new(),
            err: Some("Syntax Error".to_string()),
        };
        assert(first.env@ =~= Seq::<char>::empty());
        r.push(first);
        let mut rest = self.environment_replies();
        let ghost more = rest.deep_view();
        r.append(&mut rest);
        assert(r.deep_view() =~= seq![ManagerState::syntax_error_reply()] + more);
        r
    }

    /// The replies to a client's input, which was a sentence of the language or was not.
    /// There are none where a chain of dependencies never comes to an end.
    pub fn replies(&self, syntax_error: bool) -> (r: Option<Vec<Server2ClientMsg>>)
        ensures
            r is Some <==> self.deep_view().all_retrievable(),
            r matches Some(list) ==> list.deep_view() == if syntax_error {
                seq![ManagerState::syntax_error_reply()] + self.deep_view().environment_replies()
            } else {
                self.deep_view().environment_replies()
            },
    {
        if !self.can_show_environment() {
            None
        } else if syntax_error {
            Some(self.syntax_error_replies())
        } else {
            Some(self.environment_replies())
        }
    }
}

} // verus!
