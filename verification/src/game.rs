//! The root game state and the dispatcher that applies parsed commands to
//! it, one at a time and in input order.
use vstd::prelude::*;
use vstd::string::StrSliceExecFns;
use vstd::string::StringExecFns;
use crate::commands;
use crate::commands::{Command, CommandView, UserFacingError, UserFacingErrorView};
use crate::dice::{roll_expr, roll_expr_safe, safe_roll_expr};
use crate::domain;
use crate::domain::{merged_battlemap, merged_token, Battlemap, Token, TokenView};
use crate::text::str_eq;

verus! {

/// The tokens of a sequence as a mapping from id to token value; a later
/// entry would shadow an earlier one with the same id, but the state keeps
/// ids unique.
pub open spec fn tokens_map(ts: Seq<Token>) -> Map<Seq<char>, TokenView>
    decreases ts.len(),
{
    if ts.len() == 0 {
        Map::empty()
    } else {
        tokens_map(ts.drop_last()).insert(ts.last().id@, ts.last()@)
    }
}

/// Whether no two tokens share an id.
pub open spec fn unique_ids(ts: Seq<Token>) -> bool {
    forall|i: int, j: int| 0 <= i < j < ts.len() ==> ts[i].id@ != ts[j].id@
}

proof fn lemma_tokens_map_find(ts: Seq<Token>, i: int)
    requires
        unique_ids(ts),
        0 <= i < ts.len(),
    ensures
        tokens_map(ts).contains_key(ts[i].id@),
        tokens_map(ts)[ts[i].id@] == ts[i]@,
    decreases ts.len(),
{
    if i < ts.len() - 1 {
        assert(unique_ids(ts.drop_last()));
        assert(ts.drop_last()[i] == ts[i]);
        lemma_tokens_map_find(ts.drop_last(), i);
        assert(ts[i].id@ != ts.last().id@);
    }
}

proof fn lemma_tokens_map_absent(ts: Seq<Token>, k: Seq<char>)
    requires
        forall|i: int| 0 <= i < ts.len() ==> ts[i].id@ != k,
    ensures
        !tokens_map(ts).contains_key(k),
    decreases ts.len(),
{
    if ts.len() > 0 {
        assert forall|i: int| 0 <= i < ts.drop_last().len() implies ts.drop_last()[i].id@ != k by {
            assert(ts.drop_last()[i] == ts[i]);
        }
        lemma_tokens_map_absent(ts.drop_last(), k);
        assert(ts.last().id@ != k);
    }
}

proof fn lemma_tokens_map_push(ts: Seq<Token>, t: Token)
    ensures
        tokens_map(ts.push(t)) == tokens_map(ts).insert(t.id@, t@),
{
    assert(ts.push(t).drop_last() =~= ts);
    assert(ts.push(t).last() == t);
}

proof fn lemma_tokens_map_update(ts: Seq<Token>, i: int, t: Token)
    requires
        unique_ids(ts),
        0 <= i < ts.len(),
        t.id@ == ts[i].id@,
    ensures
        tokens_map(ts.update(i, t)) == tokens_map(ts).insert(t.id@, t@),
        unique_ids(ts.update(i, t)),
    decreases ts.len(),
{
    let up = ts.update(i, t);
    assert forall|a: int, b: int| 0 <= a < b < up.len() implies up[a].id@ != up[b].id@ by {
        assert(ts[a].id@ != ts[b].id@);
    }
    if i == ts.len() - 1 {
        assert(up.drop_last() =~= ts.drop_last());
        assert(up.last() == t);
        assert(tokens_map(ts).insert(t.id@, t@) =~= tokens_map(ts.drop_last()).insert(
            t.id@,
            t@,
        ));
    } else {
        assert(unique_ids(ts.drop_last()));
        assert(ts.drop_last()[i] == ts[i]);
        lemma_tokens_map_update(ts.drop_last(), i, t);
        assert(up.drop_last() =~= ts.drop_last().update(i, t));
        assert(up.last() == ts.last());
        assert(t.id@ != ts.last().id@);
        assert(tokens_map(up) == tokens_map(ts.drop_last().update(i, t)).insert(
            ts.last().id@,
            ts.last()@,
        ));
        assert(tokens_map(ts.drop_last()).insert(t.id@, t@).insert(ts.last().id@, ts.last()@)
            =~= tokens_map(ts.drop_last()).insert(ts.last().id@, ts.last()@).insert(t.id@, t@));
    }
}

/// The root game state: the current battlemap and the tokens, looked up by
/// id only.  The dispatcher is its only mutator; the rendering host reads
/// it between commands.
pub struct GameState {
    pub battlemap: Battlemap,
    pub tokens: Vec<Token>,
}

/// The mathematical value of the game state: the battlemap and a mapping
/// from token id to token value.
pub struct GameStateView {
    pub battlemap: domain::BattlemapView,
    pub tokens: Map<Seq<char>, TokenView>,
}

impl View for GameState {
    type V = GameStateView;

    open spec fn view(&self) -> GameStateView {
        GameStateView { battlemap: self.battlemap@, tokens: tokens_map(self.tokens@) }
    }
}

impl GameState {
    /// Validity of the state: token ids are unique, so the token list is a
    /// mapping.
    pub open spec fn wf(&self) -> bool {
        unique_ids(self.tokens@)
    }

    /// The state at startup: the placeholder battlemap with the default
    /// grid, and no tokens.
    pub fn new() -> (r: GameState)
        ensures
            r.wf(),
            r@ == (GameStateView {
                battlemap: domain::BattlemapView {
                    image_path: "./assets/bg_placeholder.jpg"@,
                    rows: 12,
                    columns: 20,
                },
                tokens: Map::<Seq<char>, TokenView>::empty(),
            }),
    {
        GameState {
            battlemap: Battlemap::new(String::from_str("./assets/bg_placeholder.jpg"), 12, 20),
            tokens: Vec::new(),
        }
    }
}

/// The index of the token with the given id, if any.
fn find_token(tokens: &Vec<Token>, id: &str) -> (r: Option<usize>)
    ensures
        r matches Some(i) ==> i < tokens@.len() && tokens@[i as int].id@ == id@,
        r is None ==> forall|i: int| 0 <= i < tokens@.len() ==> tokens@[i].id@ != id@,
{
    let mut i: usize = 0;
    while i < tokens.len()
        invariant
            i <= tokens@.len(),
            forall|m: int| 0 <= m < i ==> tokens@[m].id@ != id@,
        decreases tokens@.len() - i,
    {
        if str_eq(tokens[i].id.as_str(), id) {
            return Some(i);
        }
        i += 1;
    }
    None
}

/// The outcome of applying one command: whether the host should terminate,
/// and an optional user-visible message.
#[derive(Debug, PartialEq)]
pub struct DispatchOutcome {
    pub quit: bool,
    pub message: Option<String>,
}

/// The prior value under a key, if the mapping has one.
pub open spec fn prior_of(m: Map<Seq<char>, TokenView>, k: Seq<char>) -> Option<TokenView> {
    if m.contains_key(k) {
        Some(m[k])
    } else {
        None
    }
}

/// The message answering an unrecognized line: the line, then the help
/// text.
pub open spec fn unknown_command_message(l: Seq<char>) -> Seq<char> {
    "Unknown command: "@ + l + "\n"@ + commands::help_view()
}

/// The form of a roll report: the evaluator's formatted result after
/// "-> ", or a failure report after "Can't roll this: ".
pub open spec fn roll_message(m: Seq<char>) -> bool {
    ("-> "@).is_prefix_of(m) || ("Can't roll this: "@).is_prefix_of(m)
}

/// Applies one parsed command to the state.
///
/// `Quit` signals termination and changes nothing; `Roll` delegates to the
/// dice evaluator and reports its outcome as a message, never touching the
/// state; the two updates replace their entity by the merge rules; an
/// unrecognized line only produces the help message.
pub fn run(game_state: &mut GameState, cmd: &Command) -> (r: DispatchOutcome)
    requires
        old(game_state).wf(),
    ensures
        final(game_state).wf(),
        cmd is Quit ==> final(game_state)@ == old(game_state)@ && r.quit && r.message is None,
        (cmd matches Command::Roll(e) ==> final(game_state)@ == old(game_state)@ && !r.quit && (
        r.message matches Some(m) && roll_message(m@))),
        (cmd matches Command::Roll(e) ==> (!safe_roll_expr(e@) ==> (r.message matches Some(m)
            && m@ == "Can't roll this: "@ + e@))),
        (cmd matches Command::Unrecognized(l) ==> final(game_state)@ == old(game_state)@
            && !r.quit && (r.message matches Some(m) && m@ == unknown_command_message(l@))),
        (cmd matches Command::UpdateBattlemap(b) ==> final(game_state)@ == (GameStateView {
            battlemap: merged_battlemap(old(game_state)@.battlemap, b@),
            tokens: old(game_state)@.tokens,
        }) && !r.quit && r.message is None),
        (cmd matches Command::UpdateToken(p) ==> final(game_state)@ == (GameStateView {
            battlemap: old(game_state)@.battlemap,
            tokens: old(game_state)@.tokens.insert(
                p.token_id@,
                merged_token(p@, prior_of(old(game_state)@.tokens, p.token_id@)),
            ),
        }) && !r.quit && r.message is None),
{
    match cmd {
        Command::Quit => DispatchOutcome { quit: true, message: None },
        Command::Unrecognized(l) => {
            let msg = String::from_str("Unknown command: ").concat(l.as_str()).concat(
                "\n",
            ).concat(commands::help_text());
            DispatchOutcome { quit: false, message: Some(msg) }
        },
        Command::Roll(expr) => {
            // Evaluate only expressions on which the evaluator is known
            // to return; every other line is a failed roll, reported and
            // non-fatal.
            let msg = if roll_expr_safe(expr.as_str()) {
                match roll_expr(expr.as_str()) {
                    Ok(res) => String::from_str("-> ").concat(res.as_str()),
                    Err(e) => String::from_str("Can't roll this: ").concat(e.as_str()),
                }
            } else {
                String::from_str("Can't roll this: ").concat(expr.as_str())
            };
            proof {
                assert(roll_message(msg@));
            }
            DispatchOutcome { quit: false, message: Some(msg) }
        },
        Command::UpdateBattlemap(b) => {
            let merged = game_state.battlemap.merge(b);
            game_state.battlemap = merged;
            DispatchOutcome { quit: false, message: None }
        },
        Command::UpdateToken(p) => {
            let found = find_token(&game_state.tokens, p.token_id.as_str());
            match found {
                Some(i) => {
                    proof {
                        lemma_tokens_map_find(game_state.tokens@, i as int);
                    }
                    let merged = Token::from_partial(p, Some(&game_state.tokens[i]));
                    let ghost before = game_state.tokens@;
                    game_state.tokens[i] = merged;
                    proof {
                        lemma_tokens_map_update(before, i as int, merged);
                    }
                },
                None => {
                    proof {
                        lemma_tokens_map_absent(game_state.tokens@, p.token_id@);
                    }
                    let merged = Token::from_partial(p, None);
                    let ghost before = game_state.tokens@;
                    game_state.tokens.push(merged);
                    proof {
                        lemma_tokens_map_push(before, merged);
                        assert forall|a: int, b: int|
                            0 <= a < b < before.push(merged).len() implies before.push(merged)[a].id@
                            != before.push(merged)[b].id@ by {
                            if b < before.len() {
                                assert(before[a].id@ != before[b].id@);
                            } else {
                                assert(before.push(merged)[b] == merged);
                                assert(before[a].id@ != merged.id@);
                            }
                        }
                    }
                },
            }
            DispatchOutcome { quit: false, message: None }
        },
    }
}

/// What one parsed line does to the state, and whether it signals
/// termination.
pub open spec fn apply_spec(st: GameStateView, c: CommandView) -> (GameStateView, bool) {
    match c {
        CommandView::Quit => (st, true),
        CommandView::Roll(e) => (st, false),
        CommandView::Unrecognized(l) => (st, false),
        CommandView::UpdateBattlemap(b) => (
            GameStateView { battlemap: merged_battlemap(st.battlemap, b), tokens: st.tokens },
            false,
        ),
        CommandView::UpdateToken(p) => (
            GameStateView {
                battlemap: st.battlemap,
                tokens: st.tokens.insert(
                    p.token_id,
                    merged_token(p, prior_of(st.tokens, p.token_id)),
                ),
            },
            false,
        ),
    }
}

/// What a sequence of parse results does to the state, applied in order:
/// error lines change nothing, and processing stops at the first `Quit`.
pub open spec fn apply_all_spec(
    st: GameStateView,
    rs: Seq<Result<CommandView, UserFacingErrorView>>,
) -> (GameStateView, bool)
    decreases rs.len(),
{
    if rs.len() == 0 {
        (st, false)
    } else {
        match rs[0] {
            Err(e) => apply_all_spec(st, rs.drop_first()),
            Ok(c) => {
                let (st2, q) = apply_spec(st, c);
                if q {
                    (st2, true)
                } else {
                    apply_all_spec(st2, rs.drop_first())
                }
            },
        }
    }
}

/// What parsing every line of a text yields.
pub open spec fn parse_results_spec(s: Seq<char>) -> Seq<
    Result<CommandView, UserFacingErrorView>,
> {
    commands::lines_of(s).map_values(|l: Seq<char>| commands::parse_line_spec(l))
}

/// Whether a message sequence is one that a run of parse results produces,
/// in order: a parse error and an unrecognized line each yield their fixed
/// message, a roll yields one message whose text depends on the dice, the
/// updates and `Quit` yield none, and nothing follows a `Quit`.
pub open spec fn messages_match(
    rs: Seq<Result<CommandView, UserFacingErrorView>>,
    ms: Seq<Seq<char>>,
) -> bool
    decreases rs.len(),
{
    if rs.len() == 0 {
        ms.len() == 0
    } else {
        match rs[0] {
            Err(e) => ms.len() >= 1 && ms[0] == commands::error_message(e) && messages_match(
                rs.drop_first(),
                ms.drop_first(),
            ),
            Ok(c) => match c {
                CommandView::Quit => ms.len() == 0,
                CommandView::Roll(x) => ms.len() >= 1 && roll_message(ms[0]) && (!safe_roll_expr(
                    x,
                ) ==> ms[0] == "Can't roll this: "@ + x) && messages_match(
                    rs.drop_first(),
                    ms.drop_first(),
                ),
                CommandView::Unrecognized(l) => ms.len() >= 1 && ms[0]
                    == unknown_command_message(l) && messages_match(
                    rs.drop_first(),
                    ms.drop_first(),
                ),
                CommandView::UpdateBattlemap(b) => messages_match(rs.drop_first(), ms),
                CommandView::UpdateToken(p) => messages_match(rs.drop_first(), ms),
            },
        }
    }
}

/// What one drained text message yields: the user-visible messages, and
/// whether the host should terminate.
#[derive(Debug, PartialEq)]
pub struct UpdateOutcome {
    pub messages: Vec<String>,
    pub quit: bool,
}

impl GameState {
    /// Parses a drained text message and applies each command in arrival
    /// order, stopping at `Quit`; lines that fail to parse only produce
    /// messages.
    pub fn update(&mut self, content: String) -> (r: UpdateOutcome)
        requires
            old(self).wf(),
        ensures
            final(self).wf(),
            (final(self)@, r.quit) == apply_all_spec(
                old(self)@,
                parse_results_spec(content@),
            ),
            messages_match(parse_results_spec(content@), r.messages.deep_view()),
    {
        let ghost entry: GameStateView = self@;
        let ghost cv: Seq<char> = content@;
        let ghost rs = parse_results_spec(cv);
        let cmds = commands::parse(content);
        proof {
            assert(rs.len() == cmds@.len());
            assert(rs.skip(0) =~= rs);
        }
        let mut messages: Vec<String> = Vec::new();
        proof {
            assert forall|f: Seq<Seq<char>>|
                #[trigger] messages_match(rs.skip(0), f) implies messages_match(
                rs,
                messages.deep_view() + f,
            ) by {
                assert(messages.deep_view() =~= Seq::<Seq<char>>::empty());
                assert(messages.deep_view() + f =~= f);
            }
        }
        let mut i: usize = 0;
        while i < cmds.len()
            invariant
                i <= cmds@.len(),
                cmds@.len() == rs.len(),
                forall|m: int| 0 <= m < rs.len() ==> commands::parsed_view(cmds@[m]) == rs[m],
                self.wf(),
                entry == old(self)@,
                rs == parse_results_spec(content@),
                apply_all_spec(entry, rs) == apply_all_spec(self@, rs.skip(i as int)),
                forall|f: Seq<Seq<char>>|
                    #[trigger] messages_match(rs.skip(i as int), f) ==> messages_match(
                        rs,
                        messages.deep_view() + f,
                    ),
            decreases cmds@.len() - i,
        {
            let ghost rem = rs.skip(i as int);
            proof {
                assert(rem[0] == rs[i as int]);
                assert(rem.drop_first() =~= rs.skip(i + 1));
            }
            let ghost st0 = self@;
            match &cmds[i] {
                Ok(c) => {
                    let outcome = run(self, c);
                    let ghost om: Option<String> = outcome.message;
                    let ghost old_p = messages.deep_view();
                    if let Some(m) = outcome.message {
                        messages.push(m);
                    }
                    if outcome.quit {
                        proof {
                            assert(c is Quit);
                            assert(apply_all_spec(st0, rem) == (st0, true));
                            assert(messages.deep_view() == old_p);
                            assert(messages_match(rs.skip(i as int), Seq::<Seq<char>>::empty()));
                            assert(old_p + Seq::<Seq<char>>::empty() =~= messages.deep_view());
                        }
                        return UpdateOutcome { messages, quit: true };
                    }
                    proof {
                        assert forall|f: Seq<Seq<char>>|
                            #[trigger] messages_match(rs.skip(i + 1), f) implies messages_match(
                            rs,
                            messages.deep_view() + f,
                        ) by {
                            match c@ {
                                CommandView::Quit => {
                                    assert(false);
                                },
                                CommandView::Roll(x) => {
                                    let f2 = seq![om.unwrap()@] + f;
                                    assert(messages.deep_view() =~= old_p.push(om.unwrap()@));
                                    assert(f2.drop_first() =~= f);
                                    assert(messages_match(rs.skip(i as int), f2));
                                    assert(messages_match(rs, old_p + f2));
                                    assert(old_p + f2 =~= messages.deep_view() + f);
                                },
                                CommandView::Unrecognized(l) => {
                                    let f2 = seq![om.unwrap()@] + f;
                                    assert(messages.deep_view() =~= old_p.push(om.unwrap()@));
                                    assert(f2.drop_first() =~= f);
                                    assert(om.unwrap()@ == unknown_command_message(l));
                                    assert(messages_match(rs.skip(i as int), f2));
                                    assert(messages_match(rs, old_p + f2));
                                    assert(old_p + f2 =~= messages.deep_view() + f);
                                },
                                CommandView::UpdateBattlemap(b) => {
                                    assert(messages.deep_view() == old_p);
                                    assert(messages_match(rs.skip(i as int), f));
                                    assert(messages_match(rs, old_p + f));
                                },
                                CommandView::UpdateToken(p) => {
                                    assert(messages.deep_view() == old_p);
                                    assert(messages_match(rs.skip(i as int), f));
                                    assert(messages_match(rs, old_p + f));
                                },
                            }
                        }
                    }
                },
                Err(e) => {
                    let ghost old_p = messages.deep_view();
                    messages.push(e.message());
                    proof {
                        assert(messages.deep_view() =~= old_p.push(
                            commands::error_message(e@),
                        ));
                        assert forall|f: Seq<Seq<char>>|
                            #[trigger] messages_match(rs.skip(i + 1), f) implies messages_match(
                            rs,
                            messages.deep_view() + f,
                        ) by {
                            let f2 = seq![commands::error_message(e@)] + f;
                            assert(f2.drop_first() =~= f);
                            assert(messages_match(rs.skip(i as int), f2));
                            assert(messages_match(rs, old_p + f2));
                            assert(old_p + f2 =~= messages.deep_view() + f);
                        }
                    }
                },
            }
            i += 1;
        }
        proof {
            assert(rs.skip(rs.len() as int) =~= Seq::<
                Result<CommandView, UserFacingErrorView>,
            >::empty());
            assert(messages_match(rs.skip(rs.len() as int), Seq::<Seq<char>>::empty()));
            assert(messages.deep_view() + Seq::<Seq<char>>::empty() =~= messages.deep_view());
        }
        UpdateOutcome { messages, quit: false }
    }
}

} // verus!
