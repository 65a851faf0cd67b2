//! The state of the conversation browser: the loaded list, the selected
//! entry, and the figures the browser and its diagnostics show.
use vstd::prelude::*;
use crate::chatdb::{summary_views, ConversationSummary, SummaryView};

verus! {

/// The selection after moving down: the entry below, wrapping to the top;
/// the top entry when nothing was selected; unchanged in an empty list.
pub open spec fn next_selection(sel: Option<usize>, len: nat) -> Option<usize> {
    if len == 0 {
        sel
    } else {
        match sel {
            None => Some(0),
            Some(i) => Some(((i + 1) % (len as int)) as usize),
        }
    }
}

/// The selection after moving up: the entry above, wrapping to the bottom;
/// the top entry when nothing was selected; unchanged in an empty list.
pub open spec fn previous_selection(sel: Option<usize>, len: nat) -> Option<usize> {
    if len == 0 {
        sel
    } else {
        match sel {
            None => Some(0),
            Some(i) => if i == 0 { Some((len - 1) as usize) } else { Some((i - 1) as usize) },
        }
    }
}

/// A key the browser can be sent.
#[derive(Debug, Clone, Copy, PartialEq, Eq, Structural)]
pub enum Key {
    Char(char),
    Esc,
    Up,
    Down,
    Other,
}

/// What the browser does next.
#[derive(Debug, Clone, Copy, PartialEq, Eq, Structural)]
pub enum Action {
    Quit,
    Next,
    Previous,
    Ignore,
}

/// The action bound to a key: `q` and Esc quit, `j` and Down move down, `k`
/// and Up move up; a key release, and every other key, does nothing.
pub open spec fn action_for(pressed: bool, key: Key) -> Action {
    if !pressed {
        Action::Ignore
    } else {
        match key {
            Key::Char('q') | Key::Esc => Action::Quit,
            Key::Char('j') | Key::Down => Action::Next,
            Key::Char('k') | Key::Up => Action::Previous,
            _ => Action::Ignore,
        }
    }
}

/// The action for a key event (see [`action_for`]).
pub fn key_action(pressed: bool, key: Key) -> (a: Action)
    ensures
        a == action_for(pressed, key),
        !pressed ==> a == Action::Ignore,
{
    if !pressed {
        return Action::Ignore;
    }
    match key {
        Key::Char('q') | Key::Esc => Action::Quit,
        Key::Char('j') | Key::Down => Action::Next,
        Key::Char('k') | Key::Up => Action::Previous,
        _ => Action::Ignore,
    }
}

/// The conversation browser: the list (or why it could not be loaded) and
/// the selected entry.
pub struct App {
    chats: Vec<ConversationSummary>,
    selected: Option<usize>,
    error: Option<String>,
}

impl App {
    #[verifier::type_invariant]
    spec fn selection_in_list(self) -> bool {
        self.selected matches Some(i) ==> i < self.chats@.len()
    }

    /// The list, as plain values.
    pub closed spec fn list(&self) -> Seq<SummaryView> {
        summary_views(self.chats@)
    }

    /// The index of the selected entry.
    pub closed spec fn selection(&self) -> Option<usize> {
        self.selected
    }

    /// Why the list could not be loaded.
    pub closed spec fn failure(&self) -> Option<Seq<char>> {
        match self.error {
            Some(e) => Some(e@),
            None => None,
        }
    }

    /// The browser over a loaded list, or over an empty one with the reason
    /// the list could not be loaded; the top entry is selected when there is
    /// one.
    pub fn new(loaded: Result<Vec<ConversationSummary>, String>) -> (app: App)
        ensures
            match loaded {
                Ok(c) => app.list() == summary_views(c@) && app.failure() is None,
                Err(e) => app.list().len() == 0 && app.failure() == Some(e@),
            },
            app.selection() == (if app.list().len() > 0 { Some(0usize) } else { None }),
    {
        let (chats, error) = match loaded {
            Ok(c) => (c, None),
            Err(e) => (Vec::new(), Some(e)),
        };
        let selected: Option<usize> = if chats.len() > 0 { Some(0) } else { None };
        App { chats, selected, error }
    }

    /// Moves the selection down (see [`next_selection`]).
    pub fn next(&mut self)
        ensures
            final(self).list() == old(self).list(),
            final(self).failure() == old(self).failure(),
            final(self).selection() == next_selection(old(self).selection(), old(self).list().len()),
    {
        proof { use_type_invariant(&*self); }
        let len: usize = self.chats.len();
        if len == 0 {
            return;
        }
        let i: usize = match self.selected {
            None => 0,
            Some(i) => (i + 1) % len,
        };
        self.selected = Some(i);
    }

    /// Moves the selection up (see [`previous_selection`]).
    pub fn previous(&mut self)
        ensures
            final(self).list() == old(self).list(),
            final(self).failure() == old(self).failure(),
            final(self).selection() == previous_selection(old(self).selection(), old(self).list().len()),
    {
        proof { use_type_invariant(&*self); }
        let len: usize = self.chats.len();
        if len == 0 {
            return;
        }
        let i: usize = match self.selected {
            None => 0,
            Some(i) => if i == 0 { len - 1 } else { i - 1 },
        };
        self.selected = Some(i);
    }

    /// Carries out an action; returns whether the browser keeps running.
    pub fn apply(&mut self, action: Action) -> (running: bool)
        ensures
            running == (action != Action::Quit),
            final(self).list() == old(self).list(),
            final(self).failure() == old(self).failure(),
            final(self).selection() == match action {
                Action::Next => next_selection(old(self).selection(), old(self).list().len()),
                Action::Previous => previous_selection(old(self).selection(), old(self).list().len()),
                _ => old(self).selection(),
            },
    {
        match action {
            Action::Quit => false,
            Action::Next => {
                self.next();
                true
            },
            Action::Previous => {
                self.previous();
                true
            },
            Action::Ignore => true,
        }
    }

    /// The selected entry.
    pub fn selected(&self) -> (r: Option<&ConversationSummary>)
        ensures
            match self.selection() {
                Some(i) => i < self.list().len() && (r matches Some(c) && c@ == self.list()[i as int]),
                None => r is None,
            },
    {
        proof { use_type_invariant(self); }
        match self.selected {
            Some(i) => Some(&self.chats[i]),
            None => None,
        }
    }

    /// The list.
    pub fn chats(&self) -> (r: &Vec<ConversationSummary>)
        ensures
            summary_views(r@) == self.list(),
    {
        &self.chats
    }

    /// The index of the selected entry.
    pub fn selected_index(&self) -> (r: Option<usize>)
        ensures
            r == self.selection(),
            r matches Some(i) ==> i < self.list().len(),
    {
        proof { use_type_invariant(self); }
        self.selected
    }

    /// Why the list could not be loaded.
    pub fn error(&self) -> (r: Option<&String>)
        ensures
            match r {
                Some(e) => self.failure() == Some(e@),
                None => self.failure() is None,
            },
    {
        match &self.error {
            Some(e) => Some(e),
            None => None,
        }
    }
}

/// Moving down then up gives back a selection within the list.
pub proof fn lemma_next_then_previous(sel: Option<usize>, len: nat)
    requires
        sel matches Some(i) && i < len,
        len <= usize::MAX,
    ensures
        previous_selection(next_selection(sel, len), len) == sel,
{
    let i = sel->Some_0;
    if i + 1 < len {
        assert((i + 1) % (len as int) == i + 1) by (nonlinear_arith)
            requires
                0 <= i + 1 < len,
        ;
    } else {
        assert((i + 1) % (len as int) == 0) by (nonlinear_arith)
            requires
                i + 1 == len,
        ;
    }
}

/// Moving up then down gives back a selection within the list.
pub proof fn lemma_previous_then_next(sel: Option<usize>, len: nat)
    requires
        sel matches Some(i) && i < len,
        len <= usize::MAX,
    ensures
        next_selection(previous_selection(sel, len), len) == sel,
{
    let i = sel->Some_0;
    if i == 0 {
        assert(((len - 1) + 1) % (len as int) == 0) by (nonlinear_arith)
            requires
                len >= 1,
        ;
    } else {
        assert(((i - 1) + 1) % (len as int) == i) by (nonlinear_arith)
            requires
                0 < i < len,
        ;
    }
}

/// A selection, once there, stays within the list whichever way it moves.
pub proof fn lemma_moves_stay_in_list(sel: Option<usize>, len: nat)
    requires
        sel matches Some(i) ==> i < len,
        len <= usize::MAX,
    ensures
        next_selection(sel, len) matches Some(i) ==> i < len,
        previous_selection(sel, len) matches Some(i) ==> i < len,
        len > 0 ==> next_selection(sel, len) is Some && previous_selection(sel, len) is Some,
{
    if len > 0 {
        if let Some(i) = sel {
            assert((i + 1) % (len as int) < len) by (nonlinear_arith)
                requires
                    len > 0,
            ;
        }
    }
}

/// The number of named (resolved) conversations in `s`.
pub open spec fn resolved_count(s: Seq<SummaryView>) -> nat
    decreases s.len(),
{
    if s.len() == 0 {
        0
    } else {
        resolved_count(s.drop_last()) + if s.last().resolved { 1nat } else { 0nat }
    }
}

/// How many of the conversations are named.
pub fn count_resolved(chats: &Vec<ConversationSummary>) -> (n: usize)
    ensures
        n == resolved_count(summary_views(chats@)),
        n == chats@.filter(|c: ConversationSummary| c.resolved).len(),
{
    proof { lemma_resolved_count_counts(chats@); }
    let mut n: usize = 0;
    let mut i: usize = 0;
    while i < chats.len()
        invariant
            i <= chats@.len(),
            n <= i,
            n == resolved_count(summary_views(chats@.take(i as int))),
        decreases chats@.len() - i,
    {
        assert(summary_views(chats@.take(i + 1)).drop_last() =~= summary_views(chats@.take(i as int)));
        if chats[i].resolved {
            n = n + 1;
        }
        i = i + 1;
    }
    assert(chats@.take(chats@.len() as int) =~= chats@);
    n
}

/// The share of named conversations in whole percent, rounded down; zero
/// for an empty list.
pub fn resolved_percent(resolved: usize, total: usize) -> (p: usize)
    requires
        resolved * 100 <= usize::MAX,
    ensures
        total == 0 ==> p == 0,
        total > 0 ==> p as int == (resolved * 100) / (total as int),
{
    if total == 0 {
        0
    } else {
        resolved * 100 / total
    }
}

/// The positions of the unnamed conversations in `s`, in order.
pub open spec fn unresolved_positions(s: Seq<SummaryView>) -> Seq<int>
    decreases s.len(),
{
    if s.len() == 0 {
        Seq::empty()
    } else if s.last().resolved {
        unresolved_positions(s.drop_last())
    } else {
        unresolved_positions(s.drop_last()).push(s.len() - 1)
    }
}

/// The positions of the first `limit` unnamed conversations.
pub fn unresolved_sample(chats: &Vec<ConversationSummary>, limit: usize) -> (r: Vec<usize>)
    ensures
        r@.map_values(|i: usize| i as int) == (if unresolved_positions(summary_views(chats@)).len() <= limit {
            unresolved_positions(summary_views(chats@))
        } else {
            unresolved_positions(summary_views(chats@)).take(limit as int)
        }),
{
    let mut r: Vec<usize> = Vec::new();
    let mut i: usize = 0;
    let ghost all = unresolved_positions(summary_views(chats@));
    proof { lemma_unresolved_positions_prefix(summary_views(chats@), 0); }
    while i < chats.len() && r.len() < limit
        invariant
            i <= chats@.len(),
            r@.len() <= limit,
            all == unresolved_positions(summary_views(chats@)),
            r@.map_values(|k: usize| k as int) == unresolved_positions(summary_views(chats@.take(i as int))),
        decreases chats@.len() - i,
    {
        let ghost before = r@;
        assert(summary_views(chats@.take(i + 1)).drop_last() =~= summary_views(chats@.take(i as int)));
        assert(summary_views(chats@.take(i + 1)).last() == chats@[i as int]@);
        if !chats[i].resolved {
            r.push(i);
            assert(r@.map_values(|k: usize| k as int) =~= before.map_values(|k: usize| k as int).push(i as int));
        }
        i = i + 1;
    }
    proof {
        lemma_unresolved_positions_prefix(summary_views(chats@), i as int);
        assert(summary_views(chats@.take(i as int)) =~= summary_views(chats@).take(i as int));
        if i == chats@.len() {
            assert(chats@.take(i as int) =~= chats@);
        }
    }
    r
}

/// The unnamed positions of a prefix are a prefix of the unnamed positions,
/// and any further ones lie beyond it.
proof fn lemma_unresolved_positions_prefix(s: Seq<SummaryView>, n: int)
    requires
        0 <= n <= s.len(),
    ensures
        unresolved_positions(s.take(n)).len() <= unresolved_positions(s).len(),
        unresolved_positions(s).take(unresolved_positions(s.take(n)).len() as int) == unresolved_positions(s.take(n)),
        n < s.len() ==> unresolved_positions(s.take(n)).len() < unresolved_positions(s).len()
            || forall|k: int| n <= k < s.len() ==> s[k].resolved,
    decreases s.len() - n,
{
    if n < s.len() {
        lemma_unresolved_positions_prefix(s, n + 1);
        assert(s.take(n + 1).drop_last() =~= s.take(n));
        assert(s.take(n + 1).last() == s[n]);
        let a = unresolved_positions(s.take(n));
        let b = unresolved_positions(s.take(n + 1));
        let all = unresolved_positions(s);
        if !s[n].resolved {
            assert(b == a.push(n));
            assert(all.take(a.len() as int) =~= b.take(a.len() as int));
            assert(b.take(a.len() as int) =~= a);
        } else {
            assert(b == a);
        }
    } else {
        assert(s.take(n) =~= s);
        assert(unresolved_positions(s).take(unresolved_positions(s).len() as int) =~= unresolved_positions(s));
    }
}

/// The label of a conversation in the list: its name, marked with a middle
/// dot when it is not resolved to a contact.
pub fn sidebar_label(c: &ConversationSummary) -> (label: String)
    ensures
        label@ == (if c.resolved { c.name@ } else { "\u{b7} "@ + c.name@ }),
{
    if c.resolved {
        c.name.clone()
    } else {
        String::from_str("\u{b7} ").concat(c.name.as_str())
    }
}

/// Only key presses act: a key release never does anything. A press of `q`
/// or Esc quits, of `j` or Down moves down, of `k` or Up moves up, and of any
/// other key does nothing.
pub proof fn lemma_key_bindings(key: Key)
    ensures
        action_for(false, key) == Action::Ignore,
        action_for(true, key) == Action::Quit <==> (key == Key::Char('q') || key == Key::Esc),
        action_for(true, key) == Action::Next <==> (key == Key::Char('j') || key == Key::Down),
        action_for(true, key) == Action::Previous <==> (key == Key::Char('k') || key == Key::Up),
{
}

/// The resolved count is the number of summaries flagged resolved; with the
/// unresolved positions it makes up the whole list.
pub proof fn lemma_resolved_count_counts(chats: Seq<ConversationSummary>)
    ensures
        resolved_count(summary_views(chats)) == chats.filter(|c: ConversationSummary| c.resolved).len(),
        resolved_count(summary_views(chats)) + unresolved_positions(summary_views(chats)).len() == chats.len(),
        (forall|i: int| 0 <= i < chats.len() ==> (#[trigger] chats[i]).resolved) ==> resolved_count(summary_views(chats)) == chats.len(),
        (forall|i: int| 0 <= i < chats.len() ==> !(#[trigger] chats[i]).resolved) ==> resolved_count(summary_views(chats)) == 0,
    decreases chats.len(),
{
    reveal_with_fuel(Seq::filter, 1);
    if chats.len() > 0 {
        let p = chats.drop_last();
        lemma_resolved_count_counts(p);
        assert(summary_views(chats).drop_last() =~= summary_views(p));
        assert(summary_views(chats).last() == chats.last()@);
        assert(forall|i: int| 0 <= i < p.len() ==> #[trigger] p[i] == chats[i]);
    } else {
        assert(summary_views(chats) =~= Seq::<SummaryView>::empty());
    }
}

/// The unresolved positions are, in increasing order, exactly the positions
/// of the summaries not flagged resolved.
pub proof fn lemma_unresolved_positions_exact(s: Seq<SummaryView>)
    ensures
        forall|k: int| 0 <= k < unresolved_positions(s).len() ==> {
            let p = #[trigger] unresolved_positions(s)[k];
            0 <= p < s.len() && !s[p].resolved
        },
        forall|a: int, b: int| 0 <= a < b < unresolved_positions(s).len() ==>
            unresolved_positions(s)[a] < unresolved_positions(s)[b],
        forall|i: int| 0 <= i < s.len() && !(#[trigger] s[i]).resolved ==> unresolved_positions(s).contains(i),
    decreases s.len(),
{
    if s.len() > 0 {
        let p = s.drop_last();
        lemma_unresolved_positions_exact(p);
        let u = unresolved_positions(p);
        assert(forall|i: int| 0 <= i < p.len() ==> #[trigger] p[i] == s[i]);
        if !s.last().resolved {
            assert forall|i: int| 0 <= i < s.len() && !(#[trigger] s[i]).resolved implies unresolved_positions(s).contains(i) by {
                if i < p.len() {
                    assert(p[i] == s[i]);
                    let w = choose|w: int| 0 <= w < u.len() && u[w] == i;
                    assert(unresolved_positions(s)[w] == i);
                } else {
                    assert(unresolved_positions(s)[u.len() as int] == i);
                }
            }
        } else {
            assert forall|i: int| 0 <= i < s.len() && !(#[trigger] s[i]).resolved implies unresolved_positions(s).contains(i) by {
                if i < p.len() {
                    assert(p[i] == s[i]);
                } else {
                    assert(s[i] == s.last());
                }
            }
        }
    }
}

} // verus!
