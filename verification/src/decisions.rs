//! Prompts in which the user decided something.

use crate::lists;
use crate::session;
use crate::session::{is_meaningful_prompt, PromptView, RawSession, SessionView};
use crate::text;
use crate::text::{contains, same_text, take_chars, to_lower};
use vstd::prelude::*;
use vstd::string::*;

verus! {

/// A prompt in which the user decided something.
pub struct DecisionPoint {
    pub timestamp: String,
    pub project: String,
    pub context: String,
    pub user_prompt: String,
}

/// A prompt in which the user decided something.
#[verifier::ext_equal]
pub struct DecisionView {
    pub timestamp: Seq<char>,
    pub project: Seq<char>,
    pub context: Seq<char>,
    pub user_prompt: Seq<char>,
}

impl DeepView for DecisionPoint {
    type V = DecisionView;

    open spec fn deep_view(&self) -> DecisionView {
        DecisionView {
            timestamp: self.timestamp@,
            project: self.project@,
            context: self.context@,
            user_prompt: self.user_prompt@,
        }
    }
}

// ---------------------------------------------------------------------------
// Signals
// ---------------------------------------------------------------------------

/// Japanese words of choice.
pub open spec fn japanese_signals() -> Seq<Seq<char>> {
    seq![
        "にする"@,
        "を選ぶ"@,
        "の方がいい"@,
        "ではなく"@,
        "より"@,
        "じゃなくて"@,
        "そうじゃなくて"@,
        "いや、"@,
        "やっぱり"@,
        "を使う"@,
        "に変える"@,
        "にして"@,
        "に変更"@,
        "のほうが"@,
    ]
}

/// English words of choice, in lower case.
pub open spec fn english_signals() -> Seq<Seq<char>> {
    seq![
        "instead"@,
        "rather than"@,
        "go with"@,
        "let's use"@,
        "prefer"@,
        "switch to"@,
        "change to"@,
        "not that"@,
        "actually,"@,
        "no,"@,
    ]
}

/// Whether one of `words` stands in `text`.
pub open spec fn mentions(text: Seq<char>, words: Seq<Seq<char>>) -> bool {
    exists|i: int| 0 <= i < words.len() && text::contains_text(text, #[trigger] words[i])
}

/// Whether a text whose lower-case form is `lower` holds a word of choice: a Japanese one, or an
/// English one in any case.
pub open spec fn holds_signal(text: Seq<char>, lower: Seq<char>) -> bool {
    mentions(text, japanese_signals()) || mentions(lower, english_signals())
}

/// Whether a prompt says that the user decided something: it is the user's own words, and holds a
/// word of choice.
pub open spec fn is_decision(text: Seq<char>) -> bool {
    session::meaningful(text) && holds_signal(text, text::lowercase(text))
}

/// Whether one of `words` stands in `text`.
fn mentions_any(text: &str, words: &Vec<&'static str>, Ghost(model): Ghost<Seq<Seq<char>>>) -> (found: bool)
    requires
        words.len() == model.len(),
        forall|i: int| 0 <= i < model.len() ==> (#[trigger] words@[i])@ == model[i],
    ensures
        found == mentions(text@, model),
{
    let mut i: usize = 0;
    while i < words.len()
        invariant
            i <= words.len(),
            words.len() == model.len(),
            forall|k: int| 0 <= k < model.len() ==> (#[trigger] words@[k])@ == model[k],
            forall|k: int| 0 <= k < i ==> !text::contains_text(text@, #[trigger] model[k]),
        decreases words.len() - i,
    {
        let word: &'static str = words[i];
        assert(word@ == model[i as int]);
        if contains(text, word) {
            return true;
        }
        i = i + 1;
    }
    false
}

/// Whether `text`, whose lower-case form is `lower`, holds a word of choice.
pub fn has_signal(text: &str, lower: &str) -> (answer: bool)
    ensures
        answer == holds_signal(text@, lower@),
{
    let japanese: Vec<&'static str> =
        vec![
        "にする",
        "を選ぶ",
        "の方がいい",
        "ではなく",
        "より",
        "じゃなくて",
        "そうじゃなくて",
        "いや、",
        "やっぱり",
        "を使う",
        "に変える",
        "にして",
        "に変更",
        "のほうが",
    ];
    if mentions_any(text, &japanese, Ghost(japanese_signals())) {
        return true;
    }
    let english: Vec<&'static str> =
        vec![
        "instead",
        "rather than",
        "go with",
        "let's use",
        "prefer",
        "switch to",
        "change to",
        "not that",
        "actually,",
        "no,",
    ];
    mentions_any(lower, &english, Ghost(english_signals()))
}

/// Whether a prompt says that the user decided something.
pub fn signals_decision(text: &str) -> (answer: bool)
    ensures
        answer == is_decision(text@),
{
    is_meaningful_prompt(text) && has_signal(text, to_lower(text).as_str())
}

// ---------------------------------------------------------------------------
// Extraction
// ---------------------------------------------------------------------------

/// The decision that a prompt of a project holds.
pub open spec fn decision_of(project: Seq<char>, prompt: PromptView) -> DecisionView {
    DecisionView {
        timestamp: prompt.timestamp,
        project,
        context: text::first_chars(prompt.text, 80),
        user_prompt: prompt.text,
    }
}

/// The decisions among the prompts of a project, in order.
pub open spec fn decisions_among(project: Seq<char>, prompts: Seq<PromptView>) -> Seq<DecisionView>
    decreases prompts.len(),
{
    if prompts.len() == 0 {
        Seq::empty()
    } else if is_decision(prompts.last().text) {
        decisions_among(project, prompts.drop_last()).push(decision_of(project, prompts.last()))
    } else {
        decisions_among(project, prompts.drop_last())
    }
}

/// Whether two decisions were given at one time in the same words.
pub open spec fn same_prompt(a: DecisionView, b: DecisionView) -> bool {
    a.timestamp == b.timestamp && a.user_prompt == b.user_prompt
}

/// Whether one of `decisions` was given at the time of `x` in the words of `x`.
pub open spec fn has_prompt_of(decisions: Seq<DecisionView>, x: DecisionView) -> bool {
    exists|i: int| 0 <= i < decisions.len() && same_prompt(#[trigger] decisions[i], x)
}

/// `decisions` without those that repeat the time and the words of an earlier one.
pub open spec fn without_repeats(decisions: Seq<DecisionView>) -> Seq<DecisionView>
    decreases decisions.len(),
{
    if decisions.len() == 0 {
        decisions
    } else if has_prompt_of(decisions.drop_last(), decisions.last()) {
        without_repeats(decisions.drop_last())
    } else {
        without_repeats(decisions.drop_last()).push(decisions.last())
    }
}

/// The decisions in all prompts of the sessions, repeats among them.
pub open spec fn all_decisions(sessions: Seq<SessionView>) -> Seq<DecisionView> {
    lists::flat_by(sessions, |s: SessionView| decisions_among(s.project, s.prompts))
}

/// The decisions in the sessions. Of those with one time and one wording the first counts.
pub open spec fn decisions_of(sessions: Seq<SessionView>) -> Seq<DecisionView> {
    without_repeats(all_decisions(sessions))
}

/// Whether one of `decisions` has this time and these words.
fn is_noted(decisions: &Vec<DecisionPoint>, timestamp: &str, prompt: &str) -> (noted: bool)
    ensures
        noted == exists|i: int|
            0 <= i < decisions.len() && (#[trigger] decisions.deep_view()[i]).timestamp == timestamp@
                && decisions.deep_view()[i].user_prompt == prompt@,
{
    let mut i: usize = 0;
    while i < decisions.len()
        invariant
            i <= decisions.len(),
            forall|k: int|
                0 <= k < i ==> !((#[trigger] decisions.deep_view()[k]).timestamp == timestamp@
                    && decisions.deep_view()[k].user_prompt == prompt@),
        decreases decisions.len() - i,
    {
        let decision = &decisions[i];
        assert(decisions.deep_view()[i as int] == decision.deep_view());
        if same_text(decision.timestamp.as_str(), timestamp) && same_text(
            decision.user_prompt.as_str(),
            prompt,
        ) {
            return true;
        }
        i = i + 1;
    }
    false
}

/// Adds the decisions in the prompts of `session` to those of `seen`.
fn note_decisions(
    decisions: &mut Vec<DecisionPoint>,
    session: &RawSession,
    Ghost(seen): Ghost<Seq<DecisionView>>,
)
    requires
        old(decisions).deep_view() == without_repeats(seen),
    ensures
        final(decisions).deep_view() == without_repeats(
            seen + decisions_among(session.deep_view().project, session.deep_view().prompts),
        ),
{
    let ghost project = session.deep_view().project;
    let ghost prompts = session.deep_view().prompts;
    let mut i: usize = 0;
    assert(seen + decisions_among(project, prompts.take(0)) =~= seen);
    while i < session.user_entries.len()
        invariant
            i <= session.user_entries.len(),
            project == session.deep_view().project,
            prompts == session.deep_view().prompts,
            decisions.deep_view() == without_repeats(
                seen + decisions_among(project, prompts.take(i as int)),
            ),
        decreases session.user_entries.len() - i,
    {
        let entry = &session.user_entries[i];
        let ghost so_far = seen + decisions_among(project, prompts.take(i as int));
        let ghost x = decision_of(project, entry.deep_view());
        proof {
            assert(prompts[i as int] == entry.deep_view());
            assert(prompts.take(i + 1).drop_last() =~= prompts.take(i as int));
            assert(prompts.take(i + 1).last() == entry.deep_view());
        }
        if signals_decision(entry.text.as_str()) {
            proof {
                assert(seen + decisions_among(project, prompts.take(i + 1)) =~= so_far.push(x));
                assert(so_far.push(x).drop_last() =~= so_far);
                without_repeats_prompts(so_far, x);
            }
            if is_noted(decisions, entry.timestamp.as_str(), entry.text.as_str()) {
                assert(has_prompt_of(without_repeats(so_far), x));
            } else {
                assert(!has_prompt_of(without_repeats(so_far), x));
                let ghost before = decisions.deep_view();
                decisions.push(
                    DecisionPoint {
                        timestamp: entry.timestamp.clone(),
                        project: session.project.clone(),
                        context: take_chars(entry.text.as_str(), 80),
                        user_prompt: entry.text.clone(),
                    },
                );
                assert(decisions.deep_view() =~= before.push(x));
            }
        }
        i = i + 1;
    }
    assert(prompts.take(i as int) =~= prompts);
}

/// Finds the decisions in the prompts of `sessions`.
pub fn extract_decisions(sessions: &Vec<RawSession>) -> (decisions: Vec<DecisionPoint>)
    ensures
        decisions.deep_view() == decisions_of(sessions.deep_view()),
{
    let ghost all = sessions.deep_view();
    let ghost f = |s: SessionView| decisions_among(s.project, s.prompts);
    let mut decisions: Vec<DecisionPoint> = Vec::new();
    let mut i: usize = 0;
    assert(decisions.deep_view() =~= without_repeats(all_decisions(all.take(0))));
    while i < sessions.len()
        invariant
            i <= sessions.len(),
            all == sessions.deep_view(),
            f == (|s: SessionView| decisions_among(s.project, s.prompts)),
            decisions.deep_view() == without_repeats(all_decisions(all.take(i as int))),
        decreases sessions.len() - i,
    {
        proof {
            lists::flat_by_step(all, i as int, f);
            assert(all[i as int] == sessions[i as int].deep_view());
        }
        note_decisions(&mut decisions, &sessions[i], Ghost(all_decisions(all.take(i as int))));
        i = i + 1;
    }
    assert(all.take(i as int) =~= all);
    decisions
}

// ---------------------------------------------------------------------------
// Laws
// ---------------------------------------------------------------------------

/// Leaving out repeats loses no time and no wording.
proof fn without_repeats_prompts(decisions: Seq<DecisionView>, x: DecisionView)
    ensures
        has_prompt_of(without_repeats(decisions), x) == has_prompt_of(decisions, x),
    decreases decisions.len(),
{
    if decisions.len() > 0 {
        let front = decisions.drop_last();
        let y = decisions.last();
        without_repeats_prompts(front, x);
        without_repeats_prompts(front, y);
        assert(has_prompt_of(decisions, x) <==> has_prompt_of(front, x) || same_prompt(y, x)) by {
            if has_prompt_of(decisions, x) {
                let i = choose|i: int|
                    0 <= i < decisions.len() && same_prompt(#[trigger] decisions[i], x);
                if i < front.len() {
                    assert(same_prompt(front[i], x));
                }
            }
            if has_prompt_of(front, x) {
                let i = choose|i: int| 0 <= i < front.len() && same_prompt(#[trigger] front[i], x);
                assert(same_prompt(decisions[i], x));
            }
            if same_prompt(y, x) {
                assert(same_prompt(decisions[decisions.len() - 1], x));
            }
        }
        if has_prompt_of(front, y) {
            if same_prompt(y, x) {
                let i = choose|i: int| 0 <= i < front.len() && same_prompt(#[trigger] front[i], y);
                assert(same_prompt(front[i], x));
            }
        } else {
            let kept = without_repeats(front);
            let now = kept.push(y);
            if has_prompt_of(kept, x) {
                let i = choose|i: int| 0 <= i < kept.len() && same_prompt(#[trigger] kept[i], x);
                assert(same_prompt(now[i], x));
            }
            if same_prompt(y, x) {
                assert(same_prompt(now[now.len() - 1], x));
            }
            if has_prompt_of(now, x) {
                let i = choose|i: int| 0 <= i < now.len() && same_prompt(#[trigger] now[i], x);
                if i < kept.len() {
                    assert(same_prompt(kept[i], x));
                }
            }
        }
    }
}

proof fn without_repeats_members(decisions: Seq<DecisionView>, i: int)
    requires
        0 <= i < without_repeats(decisions).len(),
    ensures
        decisions.contains(without_repeats(decisions)[i]),
    decreases decisions.len(),
{
    let front = decisions.drop_last();
    if i < without_repeats(front).len() {
        without_repeats_members(front, i);
        let k = choose|k: int| 0 <= k < front.len() && front[k] == without_repeats(front)[i];
        assert(decisions[k] == without_repeats(decisions)[i]);
    } else {
        assert(decisions[decisions.len() - 1] == decisions.last());
    }
}

proof fn without_repeats_differ(decisions: Seq<DecisionView>, i: int, j: int)
    requires
        0 <= i < j < without_repeats(decisions).len(),
    ensures
        !same_prompt(without_repeats(decisions)[i], without_repeats(decisions)[j]),
    decreases decisions.len(),
{
    let front = decisions.drop_last();
    let kept = without_repeats(front);
    if j < kept.len() {
        without_repeats_differ(front, i, j);
    } else {
        without_repeats_prompts(front, decisions.last());
        if same_prompt(kept[i], decisions.last()) {
            assert(has_prompt_of(kept, decisions.last()));
        }
    }
}

/// No two decisions have one time and one wording.
pub proof fn decisions_differ(sessions: Seq<SessionView>, i: int, j: int)
    requires
        0 <= i < j < decisions_of(sessions).len(),
    ensures
        !same_prompt(decisions_of(sessions)[i], decisions_of(sessions)[j]),
{
    without_repeats_differ(all_decisions(sessions), i, j);
}

proof fn among_members(project: Seq<char>, prompts: Seq<PromptView>, i: int)
    requires
        0 <= i < decisions_among(project, prompts).len(),
    ensures
        exists|p: int|
            0 <= p < prompts.len() && is_decision((#[trigger] prompts[p]).text) && decisions_among(
                project,
                prompts,
            )[i] == decision_of(project, prompts[p]),
    decreases prompts.len(),
{
    let front = prompts.drop_last();
    if i < decisions_among(project, front).len() {
        among_members(project, front, i);
        let p = choose|p: int|
            0 <= p < front.len() && is_decision((#[trigger] front[p]).text) && decisions_among(
                project,
                front,
            )[i] == decision_of(project, front[p]);
        assert(prompts[p] == front[p]);
    } else {
        assert(prompts[prompts.len() - 1] == prompts.last());
    }
}

proof fn among_has(project: Seq<char>, prompts: Seq<PromptView>, p: int)
    requires
        0 <= p < prompts.len(),
        is_decision(prompts[p].text),
    ensures
        decisions_among(project, prompts).contains(decision_of(project, prompts[p])),
    decreases prompts.len(),
{
    let front = prompts.drop_last();
    let x = decision_of(project, prompts[p]);
    let now = decisions_among(project, prompts);
    if p < front.len() {
        among_has(project, front, p);
        let old_ones = decisions_among(project, front);
        let i = choose|i: int| 0 <= i < old_ones.len() && old_ones[i] == x;
        assert(now[i] == x);
    } else {
        assert(now[now.len() - 1] == x);
    }
}

/// Every decision is a prompt of a session that says that the user decided something.
pub proof fn decisions_stem_from_prompts(sessions: Seq<SessionView>, i: int)
    requires
        0 <= i < decisions_of(sessions).len(),
    ensures
        exists|s: int, p: int|
            0 <= s < sessions.len() && 0 <= p < sessions[s].prompts.len() && is_decision(
                sessions[s].prompts[p].text,
            ) && decisions_of(sessions)[i] == #[trigger] decision_of(
                sessions[s].project,
                sessions[s].prompts[p],
            ),
{
    let f = |s: SessionView| decisions_among(s.project, s.prompts);
    let x = decisions_of(sessions)[i];
    without_repeats_members(all_decisions(sessions), i);
    lists::flat_by_members(sessions, f, x);
    let s = choose|s: int| 0 <= s < sessions.len() && f(#[trigger] sessions[s]).contains(x);
    let among = decisions_among(sessions[s].project, sessions[s].prompts);
    let k = choose|k: int| 0 <= k < among.len() && among[k] == x;
    among_members(sessions[s].project, sessions[s].prompts, k);
    let p = choose|p: int|
        0 <= p < sessions[s].prompts.len() && is_decision((#[trigger] sessions[s].prompts[p]).text)
            && among[k] == decision_of(sessions[s].project, sessions[s].prompts[p]);
    assert(x == decision_of(sessions[s].project, sessions[s].prompts[p]));
}

/// Every prompt that says that the user decided something is found: there is a decision with its
/// time and its words.
pub proof fn decisions_are_found(sessions: Seq<SessionView>, s: int, p: int)
    requires
        0 <= s < sessions.len(),
        0 <= p < sessions[s].prompts.len(),
        is_decision(sessions[s].prompts[p].text),
    ensures
        has_prompt_of(
            decisions_of(sessions),
            decision_of(sessions[s].project, sessions[s].prompts[p]),
        ),
{
    let f = |s: SessionView| decisions_among(s.project, s.prompts);
    let x = decision_of(sessions[s].project, sessions[s].prompts[p]);
    among_has(sessions[s].project, sessions[s].prompts, p);
    lists::flat_by_has(sessions, f, s, x);
    let all = all_decisions(sessions);
    let k = choose|k: int| 0 <= k < all.len() && all[k] == x;
    assert(same_prompt(all[k], x));
    without_repeats_prompts(all, x);
}

// ---------------------------------------------------------------------------
// Which prompts are decisions
// ---------------------------------------------------------------------------

/// Whether one of the words of choice stands in `text`, the English ones in any case.
pub open spec fn has_word_of_choice(text: Seq<char>) -> bool {
    ||| text::contains_text(text, "にする"@)
    ||| text::contains_text(text, "を選ぶ"@)
    ||| text::contains_text(text, "の方がいい"@)
    ||| text::contains_text(text, "ではなく"@)
    ||| text::contains_text(text, "より"@)
    ||| text::contains_text(text, "じゃなくて"@)
    ||| text::contains_text(text, "そうじゃなくて"@)
    ||| text::contains_text(text, "いや、"@)
    ||| text::contains_text(text, "やっぱり"@)
    ||| text::contains_text(text, "を使う"@)
    ||| text::contains_text(text, "に変える"@)
    ||| text::contains_text(text, "にして"@)
    ||| text::contains_text(text, "に変更"@)
    ||| text::contains_text(text, "のほうが"@)
    ||| text::contains_text(text::lowercase(text), "instead"@)
    ||| text::contains_text(text::lowercase(text), "rather than"@)
    ||| text::contains_text(text::lowercase(text), "go with"@)
    ||| text::contains_text(text::lowercase(text), "let's use"@)
    ||| text::contains_text(text::lowercase(text), "prefer"@)
    ||| text::contains_text(text::lowercase(text), "switch to"@)
    ||| text::contains_text(text::lowercase(text), "change to"@)
    ||| text::contains_text(text::lowercase(text), "not that"@)
    ||| text::contains_text(text::lowercase(text), "actually,"@)
    ||| text::contains_text(text::lowercase(text), "no,"@)
}

/// Whether `text` is what a skill puts in the place of the user's words.
pub open spec fn is_preamble(text: Seq<char>) -> bool {
    ||| exists|behind: Seq<char>| text == #[trigger] ("Base directory for this skill:"@ + behind)
    ||| exists|behind: Seq<char>| text == #[trigger] ("(Re-invocation of "@ + behind)
}

/// A prompt is a decision exactly where a word of choice stands in it, at whatever place and however
/// long it is, and it is no preamble of a skill.
pub proof fn words_of_choice_make_decisions(text: Seq<char>)
    ensures
        is_decision(text) <==> has_word_of_choice(text) && !is_preamble(text),
        session::meaningful(text) <==> !is_preamble(text),
{
    text::begins_and_ends(text, "Base directory for this skill:"@);
    text::begins_and_ends(text, "(Re-invocation of "@);
    let lower = text::lowercase(text);
    if has_word_of_choice(text) {
        assert(japanese_signals()[0] == "にする"@);
        assert(japanese_signals()[1] == "を選ぶ"@);
        assert(japanese_signals()[2] == "の方がいい"@);
        assert(japanese_signals()[3] == "ではなく"@);
        assert(japanese_signals()[4] == "より"@);
        assert(japanese_signals()[5] == "じゃなくて"@);
        assert(japanese_signals()[6] == "そうじゃなくて"@);
        assert(japanese_signals()[7] == "いや、"@);
        assert(japanese_signals()[8] == "やっぱり"@);
        assert(japanese_signals()[9] == "を使う"@);
        assert(japanese_signals()[10] == "に変える"@);
        assert(japanese_signals()[11] == "にして"@);
        assert(japanese_signals()[12] == "に変更"@);
        assert(japanese_signals()[13] == "のほうが"@);
        assert(english_signals()[0] == "instead"@);
        assert(english_signals()[1] == "rather than"@);
        assert(english_signals()[2] == "go with"@);
        assert(english_signals()[3] == "let's use"@);
        assert(english_signals()[4] == "prefer"@);
        assert(english_signals()[5] == "switch to"@);
        assert(english_signals()[6] == "change to"@);
        assert(english_signals()[7] == "not that"@);
        assert(english_signals()[8] == "actually,"@);
        assert(english_signals()[9] == "no,"@);
        assert(holds_signal(text, lower));
    }
    if mentions(text, japanese_signals()) {
        let i = choose|i: int|
            0 <= i < japanese_signals().len() && text::contains_text(
                text,
                #[trigger] japanese_signals()[i],
            );
        assert(has_word_of_choice(text));
    }
    if mentions(lower, english_signals()) {
        let i = choose|i: int|
            0 <= i < english_signals().len() && text::contains_text(
                lower,
                #[trigger] english_signals()[i],
            );
        assert(has_word_of_choice(text));
    }
}

/// A prompt with the project in which it was given.
pub open spec fn prompts_with_project(s: SessionView) -> Seq<(Seq<char>, PromptView)> {
    s.prompts.map_values(|p: PromptView| (s.project, p))
}

/// All prompts of the sessions in order, each with its project.
pub open spec fn given_prompts(sessions: Seq<SessionView>) -> Seq<(Seq<char>, PromptView)> {
    lists::flat_by(sessions, |s: SessionView| prompts_with_project(s))
}

/// Whether prompt `k` decides something that no prompt before it does at the same time in the same
/// words.
pub open spec fn decides_first(given: Seq<(Seq<char>, PromptView)>, k: int) -> bool {
    &&& 0 <= k < given.len()
    &&& has_word_of_choice(given[k].1.text) && !is_preamble(given[k].1.text)
    &&& forall|j: int|
        0 <= j < k ==> (#[trigger] given[j]).1.timestamp != given[k].1.timestamp || given[j].1.text
            != given[k].1.text
}

/// Whether `d` is the decision that a prompt of a project holds: with its time, its words, and the
/// first eighty characters of these, or all where there are fewer.
pub open spec fn notes(d: DecisionView, given: (Seq<char>, PromptView)) -> bool {
    &&& d.timestamp == given.1.timestamp
    &&& d.project == given.0
    &&& d.user_prompt == given.1.text
    &&& d.context.len() == if given.1.text.len() < 80 {
        given.1.text.len()
    } else {
        80
    }
    &&& forall|i: int| 0 <= i < d.context.len() ==> #[trigger] d.context[i] == given.1.text[i]
}

/// Whether `decisions` are those of the prompts at the places `at`, in order, and these are all that
/// decide something first.
pub open spec fn picks(
    at: Seq<int>,
    given: Seq<(Seq<char>, PromptView)>,
    decisions: Seq<DecisionView>,
) -> bool {
    &&& at.len() == decisions.len()
    &&& forall|i: int, j: int| 0 <= i < j < at.len() ==> #[trigger] at[i] < #[trigger] at[j]
    &&& forall|i: int|
        0 <= i < at.len() ==> decides_first(given, #[trigger] at[i]) && notes(
            decisions[i],
            given[at[i]],
        )
    &&& forall|k: int| #[trigger] decides_first(given, k) ==> at.contains(k)
}

/// The decisions among prompts with their projects.
spec fn decisions_given(given: Seq<(Seq<char>, PromptView)>) -> Seq<DecisionView>
    decreases given.len(),
{
    if given.len() == 0 {
        Seq::empty()
    } else if is_decision(given.last().1.text) {
        decisions_given(given.drop_last()).push(decision_of(given.last().0, given.last().1))
    } else {
        decisions_given(given.drop_last())
    }
}

proof fn decisions_given_parts(
    a: Seq<(Seq<char>, PromptView)>,
    b: Seq<(Seq<char>, PromptView)>,
)
    ensures
        decisions_given(a + b) == decisions_given(a) + decisions_given(b),
    decreases b.len(),
{
    if b.len() == 0 {
        assert(a + b =~= a);
        assert(decisions_given(a) + decisions_given(b) =~= decisions_given(a));
    } else {
        decisions_given_parts(a, b.drop_last());
        assert((a + b).drop_last() =~= a + b.drop_last());
        assert((a + b).last() == b.last());
        assert(decisions_given(a + b) =~= decisions_given(a) + decisions_given(b));
    }
}

proof fn decisions_given_of_session(project: Seq<char>, prompts: Seq<PromptView>)
    ensures
        decisions_given(prompts.map_values(|p: PromptView| (project, p))) == decisions_among(
            project,
            prompts,
        ),
    decreases prompts.len(),
{
    let pair = |p: PromptView| (project, p);
    if prompts.len() > 0 {
        decisions_given_of_session(project, prompts.drop_last());
        assert(prompts.map_values(pair).drop_last() =~= prompts.drop_last().map_values(pair));
        assert(prompts.map_values(pair).last() == (project, prompts.last()));
    }
}

proof fn decisions_given_of_sessions(sessions: Seq<SessionView>)
    ensures
        decisions_given(given_prompts(sessions)) == all_decisions(sessions),
    decreases sessions.len(),
{
    if sessions.len() > 0 {
        let x = sessions.last();
        decisions_given_of_sessions(sessions.drop_last());
        decisions_given_parts(given_prompts(sessions.drop_last()), prompts_with_project(x));
        decisions_given_of_session(x.project, x.prompts);
    }
}

proof fn given_has_prompt(given: Seq<(Seq<char>, PromptView)>, x: DecisionView)
    ensures
        has_prompt_of(decisions_given(given), x) <==> exists|j: int|
            0 <= j < given.len() && is_decision((#[trigger] given[j]).1.text) && given[j].1.timestamp
                == x.timestamp && given[j].1.text == x.user_prompt,
    decreases given.len(),
{
    if given.len() > 0 {
        let front = given.drop_last();
        let n = given.len() - 1;
        let before = decisions_given(front);
        let now = decisions_given(given);
        given_has_prompt(front, x);
        assert(given[n] == given.last());
        if has_prompt_of(now, x) {
            let i = choose|i: int| 0 <= i < now.len() && same_prompt(#[trigger] now[i], x);
            if i < before.len() {
                assert(same_prompt(before[i], x));
                let j = choose|j: int|
                    0 <= j < front.len() && is_decision((#[trigger] front[j]).1.text)
                        && front[j].1.timestamp == x.timestamp && front[j].1.text == x.user_prompt;
                assert(given[j] == front[j]);
            } else {
                assert(is_decision(given[n].1.text));
            }
        }
        if exists|j: int|
            0 <= j < given.len() && is_decision((#[trigger] given[j]).1.text) && given[j].1.timestamp
                == x.timestamp && given[j].1.text == x.user_prompt {
            let j = choose|j: int|
                0 <= j < given.len() && is_decision((#[trigger] given[j]).1.text)
                    && given[j].1.timestamp == x.timestamp && given[j].1.text == x.user_prompt;
            if j < n {
                assert(given[j] == front[j]);
                assert(has_prompt_of(before, x));
                let i = choose|i: int| 0 <= i < before.len() && same_prompt(#[trigger] before[i], x);
                assert(same_prompt(now[i], x));
            } else {
                assert(same_prompt(now[now.len() - 1], x));
            }
        }
    }
}

proof fn given_are_picked(given: Seq<(Seq<char>, PromptView)>) -> (at: Seq<int>)
    ensures
        picks(at, given, without_repeats(decisions_given(given))),
    decreases given.len(),
{
    let decisions = without_repeats(decisions_given(given));
    if given.len() == 0 {
        let at = Seq::<int>::empty();
        assert(decisions =~= Seq::empty());
        at
    } else {
        let front = given.drop_last();
        let n = given.len() - 1;
        let before = without_repeats(decisions_given(front));
        let old_at = given_are_picked(front);
        let (project, prompt) = given.last();
        let x = decision_of(project, prompt);
        assert(given[n] == (project, prompt));
        words_of_choice_make_decisions(prompt.text);
        given_has_prompt(front, x);
        if is_decision(prompt.text) {
            assert(decisions_given(given).drop_last() =~= decisions_given(front));
        }
        let new_one = decides_first(given, n);
        if is_decision(prompt.text) {
            if has_prompt_of(decisions_given(front), x) {
                let j = choose|j: int|
                    0 <= j < front.len() && is_decision((#[trigger] front[j]).1.text)
                        && front[j].1.timestamp == x.timestamp && front[j].1.text == x.user_prompt;
                assert(given[j] == front[j]);
                assert(!new_one);
            } else {
                assert forall|j: int| 0 <= j < n implies (#[trigger] given[j]).1.timestamp
                    != given[n].1.timestamp || given[j].1.text != given[n].1.text by {
                    assert(given[j] == front[j]);
                }
                assert(new_one);
            }
        }
        assert(decisions == if new_one {
            before.push(x)
        } else {
            before
        });
        let at = if new_one {
            old_at.push(n)
        } else {
            old_at
        };
        assert forall|k: int| 0 <= k < n implies decides_first(front, k) == #[trigger] decides_first(
            given,
            k,
        ) by {
            assert(forall|j: int| 0 <= j <= k ==> front[j] == given[j]);
            if decides_first(front, k) {
                assert forall|j: int| 0 <= j < k implies (#[trigger] given[j]).1.timestamp
                    != given[k].1.timestamp || given[j].1.text != given[k].1.text by {
                    assert(front[j] == given[j]);
                }
            }
            if decides_first(given, k) {
                assert forall|j: int| 0 <= j < k implies (#[trigger] front[j]).1.timestamp
                    != front[k].1.timestamp || front[j].1.text != front[k].1.text by {
                    assert(front[j] == given[j]);
                }
            }
        }
        assert forall|i: int| 0 <= i < at.len() implies decides_first(
            given,
            #[trigger] at[i],
        ) && notes(decisions[i], given[at[i]]) by {
            if i < old_at.len() {
                assert(notes(before[i], front[old_at[i]]));
                assert(decides_first(front, old_at[i]));
                assert(decides_first(given, old_at[i]));
                assert(front[old_at[i]] == given[at[i]]);
            } else {
                text::first_chars_are_the_beginning(prompt.text, 80);
                assert(decisions[i] == x);
            }
        }
        assert forall|i: int, j: int| 0 <= i < j < at.len() implies #[trigger] at[i] < #[trigger] at[j] by {
            if j == old_at.len() {
                assert(notes(before[i], front[old_at[i]]));
                assert(decides_first(front, old_at[i]));
            } else {
                assert(old_at[i] < old_at[j]);
            }
        }
        assert forall|k: int| #[trigger] decides_first(given, k) implies at.contains(k) by {
            if k < n {
                assert(decides_first(front, k));
                assert(old_at.contains(k));
                let i = choose|i: int| 0 <= i < old_at.len() && old_at[i] == k;
                assert(at[i] == k);
            } else {
                assert(at[at.len() - 1] == n);
            }
        }
        at
    }
}

/// The decisions of sessions are those of the prompts in which a word of choice stands and that are
/// no preambles, in the order of the sessions and their prompts. Of prompts with one time and one
/// wording the first counts, with its project. Each decision has the time and the words of its
/// prompt, and the first eighty characters of these for its context.
pub proof fn decisions_are_the_prompts_with_words_of_choice(sessions: Seq<SessionView>) -> (at: Seq<
    int,
>)
    ensures
        picks(at, given_prompts(sessions), decisions_of(sessions)),
{
    decisions_given_of_sessions(sessions);
    given_are_picked(given_prompts(sessions))
}

/// Where a word of choice stands in a prompt that is no preamble, a decision has its time and its
/// words, whatever else stands in the prompt.
pub proof fn words_of_choice_are_found(sessions: Seq<SessionView>, s: int, p: int)
    requires
        0 <= s < sessions.len(),
        0 <= p < sessions[s].prompts.len(),
        has_word_of_choice(sessions[s].prompts[p].text),
        !is_preamble(sessions[s].prompts[p].text),
    ensures
        exists|i: int|
            0 <= i < decisions_of(sessions).len() && (#[trigger] decisions_of(sessions)[i]).timestamp
                == sessions[s].prompts[p].timestamp && decisions_of(sessions)[i].user_prompt
                == sessions[s].prompts[p].text,
{
    words_of_choice_make_decisions(sessions[s].prompts[p].text);
    decisions_are_found(sessions, s, p);
}

/// The view of a decision is its fields.
pub proof fn decisions_show_their_fields(decision: DecisionPoint)
    ensures
        decision.deep_view().timestamp == decision.timestamp@,
        decision.deep_view().project == decision.project@,
        decision.deep_view().context == decision.context@,
        decision.deep_view().user_prompt == decision.user_prompt@,
{
}

} // verus!
